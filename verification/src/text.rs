//! Character-level helpers: prefixes, substrings, lower-casing, and the
//! conversion between text and the lines it is made of.
//!
//! Every contract is stated over `Seq<char>`, the view of `str` and `String`.

use vstd::prelude::*;
use vstd::string::StringExecFns;

verus! {

/// The text that `str::to_lowercase` yields for `s`.
pub uninterp spec fn lowercase(s: Seq<char>) -> Seq<char>;

/// `str::to_lowercase`: the lower-case form of `s`, as the Unicode tables
/// built into the standard library define it. The contract only gives the
/// result its name; nothing is claimed of its content.
#[verifier::external_body]
pub(crate) fn to_lowercase(s: &str) -> (r: String)
    ensures
        r@ == lowercase(s@),
{
    s.to_lowercase()
}

/// `String::push`: appends the single character `c` to `s`.
#[verifier::external_body]
pub(crate) fn push_char(s: &mut String, c: char)
    ensures
        final(s)@ == old(s)@.push(c),
{
    s.push(c)
}

/// Position of the first `c` in `s`; `s.len()` where `s` holds no `c`.
pub open spec fn first_index_of(s: Seq<char>, c: char) -> nat
    decreases s.len(),
{
    if s.len() == 0 {
        0
    } else if s[0] == c {
        0
    } else {
        1 + first_index_of(s.drop_first(), c)
    }
}

/// `p` is an initial segment of `s`.
pub open spec fn is_prefix(p: Seq<char>, s: Seq<char>) -> bool {
    p.len() <= s.len() && s.take(p.len() as int) == p
}

/// `needle` stands in `hay` at position `i`.
pub open spec fn occurs_at(needle: Seq<char>, hay: Seq<char>, i: int) -> bool {
    0 <= i && i + needle.len() <= hay.len() && hay.subrange(i, i + needle.len()) == needle
}

/// `needle` stands somewhere in `hay`. The empty text stands in every text.
pub open spec fn is_substring(needle: Seq<char>, hay: Seq<char>) -> bool {
    exists|i: int| occurs_at(needle, hay, i)
}

/// `first_index_of` is the least position of `c`, and stays within `s`.
pub proof fn lemma_first_index_of(s: Seq<char>, c: char)
    ensures
        first_index_of(s, c) <= s.len(),
        first_index_of(s, c) < s.len() ==> s[first_index_of(s, c) as int] == c,
        forall|i: int| 0 <= i < first_index_of(s, c) ==> s[i] != c,
    decreases s.len(),
{
    if s.len() != 0 && s[0] != c {
        let rest = s.drop_first();
        lemma_first_index_of(rest, c);
        assert forall|i: int| 0 <= i < first_index_of(s, c) implies s[i] != c by {
            if i > 0 {
                assert(s[i] == rest[i - 1]);
            }
        }
    }
}

/// A position that holds `c`, with no `c` before it, is `first_index_of`;
/// so is `s.len()` where `s` holds no `c` at all.
pub proof fn lemma_first_index_is(s: Seq<char>, c: char, k: int)
    requires
        0 <= k <= s.len(),
        k < s.len() ==> s[k] == c,
        forall|i: int| 0 <= i < k ==> s[i] != c,
    ensures
        first_index_of(s, c) == k,
{
    lemma_first_index_of(s, c);
    let f = first_index_of(s, c) as int;
    if f < k {
        assert(s[f] != c);
    }
}

/// `line` without one carriage return at its end, if it has one.
pub open spec fn without_cr(line: Seq<char>) -> Seq<char> {
    if line.len() > 0 && line.last() == '\r' {
        line.drop_last()
    } else {
        line
    }
}

/// The lines of `text`. A line ends at a line feed; a carriage return
/// directly before that line feed belongs to the line ending. Neither is part
/// of the line. What follows the last line feed is a line unless it is empty,
/// so a line ending at the very end of `text` is optional.
pub open spec fn lines_of(text: Seq<char>) -> Seq<Seq<char>>
    decreases text.len(),
{
    if text.len() == 0 {
        Seq::empty()
    } else {
        let n = first_index_of(text, '\n') as int;
        if n >= text.len() {
            seq![text]
        } else {
            seq![without_cr(text.take(n))] + lines_of(text.skip(n + 1))
        }
    }
}

/// Carriage return, line feed: the line ending that every output line gets.
pub open spec fn crlf() -> Seq<char> {
    seq!['\r', '\n']
}

/// The text made of `lines`, each followed by `crlf()`.
pub open spec fn joined(lines: Seq<Seq<char>>) -> Seq<char>
    decreases lines.len(),
{
    if lines.len() == 0 {
        Seq::empty()
    } else {
        lines[0] + crlf() + joined(lines.drop_first())
    }
}

/// Joining one more line appends that line and its line ending.
pub proof fn lemma_joined_push(lines: Seq<Seq<char>>, line: Seq<char>)
    ensures
        joined(lines.push(line)) == joined(lines) + line + crlf(),
    decreases lines.len(),
{
    let all = lines.push(line);
    if lines.len() == 0 {
        assert(all.drop_first() =~= lines);
        assert(joined(lines) =~= Seq::<char>::empty());
        assert(joined(all) =~= joined(lines) + line + crlf());
    } else {
        lemma_joined_push(lines.drop_first(), line);
        assert(all.drop_first() =~= lines.drop_first().push(line));
        assert(joined(all) =~= joined(lines) + line + crlf());
    }
}

/// `line` holds no line feed.
pub open spec fn is_one_line(line: Seq<char>) -> bool {
    forall|i: int| 0 <= i < line.len() ==> line[i] != '\n'
}

/// No line of a text holds a line feed.
pub proof fn lemma_lines_are_one_line(text: Seq<char>)
    ensures
        forall|k: int| 0 <= k < lines_of(text).len() ==> is_one_line(#[trigger] lines_of(text)[k]),
    decreases text.len(),
{
    if text.len() > 0 {
        lemma_first_index_of(text, '\n');
        let n = first_index_of(text, '\n') as int;
        if n < text.len() {
            let rest = text.skip(n + 1);
            lemma_lines_are_one_line(rest);
            let first = without_cr(text.take(n));
            assert(is_one_line(first));
            assert forall|k: int| 0 <= k < lines_of(text).len() implies is_one_line(
                #[trigger] lines_of(text)[k],
            ) by {
                if k > 0 {
                    assert(lines_of(text)[k] == lines_of(rest)[k - 1]);
                }
            }
        }
    }
}

/// Lines that were joined are found again: splitting undoes joining, for
/// lines that hold no line feed.
pub proof fn lemma_lines_of_joined(lines: Seq<Seq<char>>)
    requires
        forall|k: int| 0 <= k < lines.len() ==> is_one_line(#[trigger] lines[k]),
    ensures
        lines_of(joined(lines)) == lines,
    decreases lines.len(),
{
    if lines.len() == 0 {
        assert(lines_of(joined(lines)) =~= lines);
    } else {
        let first = lines[0];
        let rest = lines.drop_first();
        let text = joined(lines);
        let n = first.len() as int + 1;
        assert(is_one_line(first));
        assert forall|k: int| 0 <= k < rest.len() implies is_one_line(#[trigger] rest[k]) by {
            assert(rest[k] == lines[k + 1]);
        }
        lemma_lines_of_joined(rest);
        assert(text.len() == first.len() + 2 + joined(rest).len());
        assert(forall|i: int| 0 <= i < first.len() ==> text[i] == first[i]);
        assert(text[n - 1] == '\r');
        assert(text[n] == '\n');
        lemma_first_index_is(text, '\n', n);
        assert(text.take(n) =~= first.push('\r'));
        assert(without_cr(text.take(n)) =~= first);
        assert(text.skip(n + 1) =~= joined(rest));
        assert(lines_of(text) =~= lines);
    }
}

/// The characters of `s`, in order.
pub fn chars_of(s: &str) -> (v: Vec<char>)
    ensures
        v@ == s@,
{
    let mut v: Vec<char> = Vec::new();
    for c in it: s.chars()
        invariant
            v@ == it.seq().take(it.index() as int),
    {
        v.push(c);
    }
    v
}

/// The text made of the characters `chars[from..to]`.
pub fn text_of(chars: &Vec<char>, from: usize, to: usize) -> (s: String)
    requires
        from <= to <= chars.len(),
    ensures
        s@ == chars@.subrange(from as int, to as int),
{
    let mut s = String::new();
    let mut i: usize = from;
    while i < to
        invariant
            from <= i <= to <= chars.len(),
            s@ == chars@.subrange(from as int, i as int),
        decreases to - i,
    {
        push_char(&mut s, chars[i]);
        i += 1;
    }
    s
}

/// Whether `needle` stands in `hay` at position `at`.
pub fn matches_at(hay: &Vec<char>, needle: &Vec<char>, at: usize) -> (r: bool)
    ensures
        r == occurs_at(needle@, hay@, at as int),
{
    if needle.len() > hay.len() || at > hay.len() - needle.len() {
        return false;
    }
    let mut j: usize = 0;
    while j < needle.len()
        invariant
            j <= needle.len(),
            at + needle.len() <= hay.len(),
            forall|k: int| 0 <= k < j ==> hay@[at + k] == needle@[k],
        decreases needle.len() - j,
    {
        if hay[at + j] != needle[j] {
            proof {
                let w = hay@.subrange(at as int, at + needle.len());
                assert(w[j as int] == hay@[at + j]);
            }
            return false;
        }
        j += 1;
    }
    proof {
        assert(hay@.subrange(at as int, at + needle.len()) =~= needle@);
    }
    true
}

/// Whether `text` begins with `prefix`.
pub fn has_prefix(text: &Vec<char>, prefix: &Vec<char>) -> (r: bool)
    ensures
        r == is_prefix(prefix@, text@),
{
    matches_at(text, prefix, 0)
}

/// Whether `needle` stands somewhere in `hay`.
pub fn has_substring(hay: &Vec<char>, needle: &Vec<char>) -> (r: bool)
    ensures
        r == is_substring(needle@, hay@),
{
    if needle.len() > hay.len() {
        return false;
    }
    let last: usize = hay.len() - needle.len();
    let mut i: usize = 0;
    loop
        invariant
            last == hay.len() - needle.len(),
            i <= last,
            forall|k: int| 0 <= k < i ==> !occurs_at(needle@, hay@, k),
        decreases last - i,
    {
        if matches_at(hay, needle, i) {
            return true;
        }
        if i == last {
            return false;
        }
        i += 1;
    }
}

/// Whether `a` and `b` hold the same characters.
pub fn same_text(a: &Vec<char>, b: &Vec<char>) -> (r: bool)
    ensures
        r == (a@ == b@),
{
    if a.len() != b.len() {
        return false;
    }
    let r = matches_at(a, b, 0);
    proof {
        assert(a@.subrange(0, a@.len() as int) =~= a@);
    }
    r
}

/// Splits `text` into its lines, without their line endings.
pub fn split_lines(text: &str) -> (lines: Vec<String>)
    ensures
        lines.deep_view() == lines_of(text@),
{
    let chars = chars_of(text);
    let mut lines: Vec<String> = Vec::new();
    let mut start: usize = 0;
    let mut i: usize = 0;
    proof {
        assert(chars@.skip(0) =~= chars@);
        assert(lines.deep_view() + lines_of(chars@) =~= lines_of(chars@));
    }
    while i < chars.len()
        invariant
            start <= i <= chars.len(),
            forall|k: int| start <= k < i ==> chars@[k] != '\n',
            lines_of(chars@) == lines.deep_view() + lines_of(chars@.skip(start as int)),
        decreases chars.len() - i,
    {
        if chars[i] == '\n' {
            let end: usize = if i > start && chars[i - 1] == '\r' {
                i - 1
            } else {
                i
            };
            let line = text_of(&chars, start, end);
            proof {
                let rest = chars@.skip(start as int);
                let n = i - start;
                lemma_first_index_is(rest, '\n', n);
                assert(rest.take(n) =~= chars@.subrange(start as int, i as int));
                assert(rest.skip(n + 1) =~= chars@.skip(i + 1));
                assert(without_cr(rest.take(n)) =~= line@);
                assert(lines.deep_view().push(line@) + lines_of(chars@.skip(i + 1))
                    =~= lines.deep_view() + lines_of(rest));
            }
            let ghost before = lines.deep_view();
            lines.push(line);
            assert(lines.deep_view() =~= before.push(line@));
            start = i + 1;
        }
        i += 1;
    }
    proof {
        let rest = chars@.skip(start as int);
        lemma_first_index_is(rest, '\n', rest.len() as int);
    }
    if start < chars.len() {
        let line = text_of(&chars, start, chars.len());
        assert(line@ =~= chars@.skip(start as int));
        let ghost before = lines.deep_view();
        lines.push(line);
        assert(lines.deep_view() =~= before.push(line@));
        assert(lines.deep_view() =~= before + seq![line@]);
    } else {
        assert(lines.deep_view() + Seq::<Seq<char>>::empty() =~= lines.deep_view());
    }
    lines
}

/// Joins `lines` into one text, ending each with a carriage return and a
/// line feed.
pub fn join_crlf(lines: &Vec<String>) -> (text: String)
    ensures
        text@ == joined(lines.deep_view()),
{
    let mut text = String::new();
    let mut i: usize = 0;
    while i < lines.len()
        invariant
            i <= lines.len(),
            text@ == joined(lines.deep_view().take(i as int)),
        decreases lines.len() - i,
    {
        proof {
            reveal_strlit("\r\n");
            let done = lines.deep_view().take(i as int);
            lemma_joined_push(done, lines[i as int]@);
            assert(lines.deep_view().take(i + 1) =~= done.push(lines[i as int]@));
            assert("\r\n"@ =~= crlf());
        }
        text.append(lines[i].as_str());
        text.append("\r\n");
        i += 1;
    }
    assert(lines.deep_view().take(lines.len() as int) =~= lines.deep_view());
    text
}

} // verus!
