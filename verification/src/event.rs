//! One calendar event: the lines between its two markers, the keyword filter
//! that may drop it, and the rewrite of its start and end lines to whole days.

use vstd::prelude::*;
use vstd::string::StringExecFns;

use crate::datetime::{
    date_text, instant_of_text, is_digit, lemma_date_text_is_read_back,
    lemma_instant_of_text_is_valid, parse_ical_datetime, render_date, CalendarDate,
    CalendarInstant,
};
use crate::text::{
    chars_of, first_index_of, has_prefix, has_substring, is_one_line, is_prefix, is_substring,
    lemma_first_index_is, lowercase, text_of, to_lowercase,
};

verus! {

/// The line that opens an event.
pub open spec fn begin_marker() -> Seq<char> {
    "BEGIN:VEVENT"@
}

/// The line that closes an event.
pub open spec fn end_marker() -> Seq<char> {
    "END:VEVENT"@
}

/// What the line of an event's start begins with.
pub open spec fn start_name() -> Seq<char> {
    "DTSTART"@
}

/// What the line of an event's end begins with.
pub open spec fn end_name() -> Seq<char> {
    "DTEND"@
}

/// What the start line of an all-day event holds before its date.
pub open spec fn start_date_prefix() -> Seq<char> {
    "DTSTART;VALUE=DATE:"@
}

/// What the end line of an all-day event holds before its date.
pub open spec fn end_date_prefix() -> Seq<char> {
    "DTEND;VALUE=DATE:"@
}

/// The value of a property line: what follows its first colon. A line
/// without a colon has no value.
pub open spec fn property_value(line: Seq<char>) -> Option<Seq<char>> {
    let colon = first_index_of(line, ':') as int;
    if colon < line.len() {
        Some(line.skip(colon + 1))
    } else {
        None
    }
}

/// The instant that a property line names, if its value is understood.
pub open spec fn line_instant(line: Seq<char>) -> Option<CalendarInstant> {
    match property_value(line) {
        Some(value) => instant_of_text(value),
        None => None,
    }
}

/// Position of the first of `lines` that begins with `prefix`.
pub open spec fn first_with_prefix(lines: Seq<Seq<char>>, prefix: Seq<char>) -> Option<int>
    decreases lines.len(),
{
    if lines.len() == 0 {
        None
    } else {
        match first_with_prefix(lines.drop_last(), prefix) {
            Some(i) => Some(i),
            None => if is_prefix(prefix, lines.last()) {
                Some(lines.len() - 1)
            } else {
                None
            },
        }
    }
}

/// `line`, compared without regard to case, holds `keyword`.
pub open spec fn line_matches(line: Seq<char>, keyword: Seq<char>) -> bool {
    is_substring(lowercase(keyword), lowercase(line))
}

/// Some line of `block` holds some keyword of `filters`.
pub open spec fn excluded(block: Seq<Seq<char>>, filters: Seq<Seq<char>>) -> bool {
    exists|i: int, j: int|
        0 <= i < block.len() && 0 <= j < filters.len() && #[trigger] line_matches(
            block[i],
            filters[j],
        )
}

/// The start line of an all-day event on `date`.
pub open spec fn start_date_line(date: CalendarDate) -> Seq<char> {
    start_date_prefix() + date_text(date)
}

/// The end line of an all-day event on `date`.
pub open spec fn end_date_line(date: CalendarDate) -> Seq<char> {
    end_date_prefix() + date_text(date)
}

/// The two instants of `block` that decide whether it is rewritten: those of
/// the first line that begins with `DTSTART` and of the first that begins
/// with `DTEND`, given that both lines exist, both values are understood and
/// the two calendar dates differ. With them go the positions of the two lines.
pub open spec fn spanned_dates(block: Seq<Seq<char>>) -> Option<(int, CalendarDate, int, CalendarDate)> {
    match (first_with_prefix(block, start_name()), first_with_prefix(block, end_name())) {
        (Some(i), Some(j)) => match (line_instant(block[i]), line_instant(block[j])) {
            (Some(start), Some(end)) => if start.spec_date() != end.spec_date() {
                Some((i, start.spec_date(), j, end.spec_date()))
            } else {
                None
            },
            _ => None,
        },
        _ => None,
    }
}

/// `block` with its start and end lines rewritten to whole days, where the
/// event spans more than one calendar date; else `block` as it is.
pub open spec fn normalized(block: Seq<Seq<char>>) -> Seq<Seq<char>> {
    match spanned_dates(block) {
        Some((i, start, j, end)) => block.update(i, start_date_line(start)).update(
            j,
            end_date_line(end),
        ),
        None => block,
    }
}

/// What `first_with_prefix` finds is the least position of a line that begins
/// with `prefix`; it finds nothing only if there is no such line.
pub proof fn lemma_first_with_prefix(lines: Seq<Seq<char>>, prefix: Seq<char>)
    ensures
        match first_with_prefix(lines, prefix) {
            Some(i) => {
                &&& 0 <= i < lines.len()
                &&& is_prefix(prefix, lines[i])
                &&& forall|k: int| 0 <= k < i ==> !is_prefix(prefix, #[trigger] lines[k])
            },
            None => forall|k: int| 0 <= k < lines.len() ==> !is_prefix(prefix, #[trigger] lines[k]),
        },
    decreases lines.len(),
{
    if lines.len() > 0 {
        let head = lines.drop_last();
        lemma_first_with_prefix(head, prefix);
        assert(forall|k: int| 0 <= k < head.len() ==> head[k] == lines[k]);
    }
}

/// The position `i` of a line that begins with `prefix`, with no such line
/// before it, is what `first_with_prefix` finds.
pub proof fn lemma_first_with_prefix_is(lines: Seq<Seq<char>>, prefix: Seq<char>, i: int)
    requires
        0 <= i < lines.len(),
        is_prefix(prefix, lines[i]),
        forall|k: int| 0 <= k < i ==> !is_prefix(prefix, #[trigger] lines[k]),
    ensures
        first_with_prefix(lines, prefix) == Some(i),
{
    lemma_first_with_prefix(lines, prefix);
}

/// `block` runs from an opening marker to a closing marker and holds no
/// marker between them: the shape of every event that the scanner finds.
pub open spec fn is_event(block: Seq<Seq<char>>) -> bool {
    &&& block.len() >= 2
    &&& block[0] == begin_marker()
    &&& block.last() == end_marker()
    &&& forall|k: int|
        0 < k < block.len() - 1 ==> #[trigger] block[k] != begin_marker() && block[k]
            != end_marker()
}

/// No line begins with both property names, and a line that begins with one
/// of them is no marker.
pub proof fn lemma_property_names(line: Seq<char>)
    ensures
        !(is_prefix(start_name(), line) && is_prefix(end_name(), line)),
        is_prefix(start_name(), line) || is_prefix(end_name(), line) ==> line != begin_marker()
            && line != end_marker(),
{
    reveal_strlit("BEGIN:VEVENT");
    reveal_strlit("END:VEVENT");
    reveal_strlit("DTSTART");
    reveal_strlit("DTEND");
    if is_prefix(start_name(), line) {
        assert(line.take(7)[0] == 'D');
        assert(line.take(7)[2] == 'S');
    }
    if is_prefix(end_name(), line) {
        assert(line.take(5)[0] == 'D');
        assert(line.take(5)[2] == 'E');
    }
}

/// The start line of an all-day event begins with the name of the start
/// property only, is no marker, holds no line feed, and names its date.
pub proof fn lemma_start_date_line(date: CalendarDate)
    requires
        date.is_valid(),
    ensures
        is_prefix(start_name(), start_date_line(date)),
        !is_prefix(end_name(), start_date_line(date)),
        start_date_line(date) != begin_marker(),
        start_date_line(date) != end_marker(),
        is_one_line(start_date_line(date)),
        line_instant(start_date_line(date)) == Some(CalendarInstant::Date(date)),
{
    reveal_strlit("DTSTART");
    reveal_strlit("DTSTART;VALUE=DATE:");
    let head = start_date_prefix();
    let line = start_date_line(date);
    lemma_date_text_is_read_back(date);
    assert(line.take(7) =~= start_name());
    lemma_property_names(line);
    assert forall|i: int| 0 <= i < line.len() implies line[i] != '\n' && (i < 18 ==> line[i]
        != ':') by {
        if i >= 19 {
            assert(line[i] == date_text(date)[i - 19]);
            assert(is_digit(date_text(date)[i - 19]));
        } else {
            assert(line[i] == head[i]);
        }
    }
    assert(line[18] == head[18]);
    lemma_first_index_is(line, ':', 18);
    assert(line.skip(19) =~= date_text(date));
}

/// The end line of an all-day event begins with the name of the end property
/// only, is no marker, holds no line feed, and names its date.
pub proof fn lemma_end_date_line(date: CalendarDate)
    requires
        date.is_valid(),
    ensures
        is_prefix(end_name(), end_date_line(date)),
        !is_prefix(start_name(), end_date_line(date)),
        end_date_line(date) != begin_marker(),
        end_date_line(date) != end_marker(),
        is_one_line(end_date_line(date)),
        line_instant(end_date_line(date)) == Some(CalendarInstant::Date(date)),
{
    reveal_strlit("DTEND");
    reveal_strlit("DTEND;VALUE=DATE:");
    let head = end_date_prefix();
    let line = end_date_line(date);
    lemma_date_text_is_read_back(date);
    assert(line.take(5) =~= end_name());
    lemma_property_names(line);
    assert forall|i: int| 0 <= i < line.len() implies line[i] != '\n' && (i < 16 ==> line[i]
        != ':') by {
        if i >= 17 {
            assert(line[i] == date_text(date)[i - 17]);
            assert(is_digit(date_text(date)[i - 17]));
        } else {
            assert(line[i] == head[i]);
        }
    }
    assert(line[16] == head[16]);
    lemma_first_index_is(line, ':', 16);
    assert(line.skip(17) =~= date_text(date));
}

/// What holds of an event that is rewritten: where its two lines stand, what
/// they become, and that no other line changes.
pub proof fn lemma_spanned_dates(block: Seq<Seq<char>>)
    ensures
        match spanned_dates(block) {
            Some((i, start, j, end)) => {
                &&& 0 <= i < block.len()
                &&& 0 <= j < block.len()
                &&& i != j
                &&& first_with_prefix(block, start_name()) == Some(i)
                &&& first_with_prefix(block, end_name()) == Some(j)
                &&& start.is_valid()
                &&& end.is_valid()
                &&& start != end
                &&& normalized(block).len() == block.len()
                &&& normalized(block)[i] == start_date_line(start)
                &&& normalized(block)[j] == end_date_line(end)
                &&& forall|k: int|
                    0 <= k < block.len() && k != i && k != j ==> normalized(block)[k] == block[k]
            },
            None => normalized(block) == block,
        },
{
    lemma_first_with_prefix(block, start_name());
    lemma_first_with_prefix(block, end_name());
    match (first_with_prefix(block, start_name()), first_with_prefix(block, end_name())) {
        (Some(i), Some(j)) => {
            lemma_property_names(block[i]);
            match (property_value(block[i]), property_value(block[j])) {
                (Some(a), Some(b)) => {
                    lemma_instant_of_text_is_valid(a);
                    lemma_instant_of_text_is_valid(b);
                },
                _ => {},
            }
        },
        _ => {},
    }
}

/// Normalizing an event a second time changes nothing.
pub proof fn lemma_normalized_twice(block: Seq<Seq<char>>)
    ensures
        normalized(normalized(block)) == normalized(block),
{
    lemma_spanned_dates(block);
    match spanned_dates(block) {
        Some((i, start, j, end)) => {
            let once = normalized(block);
            lemma_start_date_line(start);
            lemma_end_date_line(end);
            lemma_first_with_prefix(block, start_name());
            lemma_first_with_prefix(block, end_name());
            assert forall|k: int| 0 <= k < i implies !is_prefix(start_name(), #[trigger] once[k]) by {
                if k != j {
                    assert(once[k] == block[k]);
                }
            }
            assert forall|k: int| 0 <= k < j implies !is_prefix(end_name(), #[trigger] once[k]) by {
                if k != i {
                    assert(once[k] == block[k]);
                }
            }
            lemma_first_with_prefix_is(once, start_name(), i);
            lemma_first_with_prefix_is(once, end_name(), j);
            assert(spanned_dates(once) == Some((i, start, j, end)));
            assert(normalized(once) =~= once);
        },
        None => {},
    }
}

/// A normalized event is still an event, and none of its lines holds a line
/// feed if none did before.
pub proof fn lemma_normalized_is_event(block: Seq<Seq<char>>)
    requires
        is_event(block),
    ensures
        is_event(normalized(block)),
        (forall|k: int| 0 <= k < block.len() ==> is_one_line(#[trigger] block[k])) ==> (forall|
            k: int,
        |
            0 <= k < normalized(block).len() ==> is_one_line(#[trigger] normalized(block)[k])),
{
    lemma_spanned_dates(block);
    match spanned_dates(block) {
        Some((i, start, j, end)) => {
            let once = normalized(block);
            lemma_start_date_line(start);
            lemma_end_date_line(end);
            lemma_first_with_prefix(block, start_name());
            lemma_first_with_prefix(block, end_name());
            lemma_property_names(block[i]);
            lemma_property_names(block[j]);
            assert(once[0] == block[0]);
            assert(once.last() == block.last());
            assert forall|k: int| 0 < k < once.len() - 1 implies #[trigger] once[k]
                != begin_marker() && once[k] != end_marker() by {
                if k != i && k != j {
                    assert(once[k] == block[k]);
                }
            }
            if forall|k: int| 0 <= k < block.len() ==> is_one_line(#[trigger] block[k]) {
                assert forall|k: int| 0 <= k < once.len() implies is_one_line(
                    #[trigger] once[k],
                ) by {
                    if k != i && k != j {
                        assert(once[k] == block[k]);
                    }
                }
            }
        },
        None => {},
    }
}

/// The lines of one event, first to last, with the positions of its start and
/// end lines.
#[derive(Debug)]
pub struct EventBlock {
    lines: Vec<String>,
    start_at: Option<usize>,
    end_at: Option<usize>,
}

impl View for EventBlock {
    type V = Seq<Seq<char>>;

    closed spec fn view(&self) -> Seq<Seq<char>> {
        self.lines.deep_view()
    }
}

/// `at`, as a position in a specification.
pub open spec fn position(at: Option<usize>) -> Option<int> {
    match at {
        Some(i) => Some(i as int),
        None => None,
    }
}

/// The value of a property line: what follows its first colon.
pub fn value_of_line(line: &str) -> (r: Option<String>)
    ensures
        match r {
            Some(value) => property_value(line@) == Some(value@),
            None => property_value(line@) is None,
        },
{
    let chars = chars_of(line);
    let mut i: usize = 0;
    while i < chars.len()
        invariant
            chars@ == line@,
            i <= chars.len(),
            forall|k: int| 0 <= k < i ==> chars@[k] != ':',
        decreases chars.len() - i,
    {
        if chars[i] == ':' {
            let value = text_of(&chars, i + 1, chars.len());
            proof {
                lemma_first_index_is(chars@, ':', i as int);
                assert(value@ =~= line@.skip(i + 1));
            }
            return Some(value);
        }
        i += 1;
    }
    proof {
        lemma_first_index_is(chars@, ':', chars@.len() as int);
    }
    None
}

/// The instant that a property line names, if its value is understood.
pub fn instant_of_line(line: &str) -> (r: Option<CalendarInstant>)
    ensures
        r == line_instant(line@),
        r matches Some(instant) ==> instant.is_valid(),
{
    match value_of_line(line) {
        Some(value) => parse_ical_datetime(value.as_str()),
        None => None,
    }
}

impl EventBlock {
    #[verifier::type_invariant]
    spec fn well_formed(&self) -> bool {
        &&& position(self.start_at) == first_with_prefix(self.lines.deep_view(), start_name())
        &&& position(self.end_at) == first_with_prefix(self.lines.deep_view(), end_name())
    }

    /// An event without lines.
    pub fn new() -> (block: EventBlock)
        ensures
            block@ == Seq::<Seq<char>>::empty(),
    {
        let lines: Vec<String> = Vec::new();
        assert(lines.deep_view() =~= Seq::<Seq<char>>::empty());
        EventBlock { lines, start_at: None, end_at: None }
    }

    /// The event with `line` behind its lines. Where `line` is the first that
    /// begins with `DTSTART`, or with `DTEND`, its position is recorded.
    pub fn with_line(self, line: String) -> (block: EventBlock)
        ensures
            block@ == self@.push(line@),
    {
        proof {
            use_type_invariant(&self);
        }
        let EventBlock { mut lines, mut start_at, mut end_at } = self;
        let chars = chars_of(line.as_str());
        let at: usize = lines.len();
        if start_at.is_none() && has_prefix(&chars, &chars_of("DTSTART")) {
            start_at = Some(at);
        }
        if end_at.is_none() && has_prefix(&chars, &chars_of("DTEND")) {
            end_at = Some(at);
        }
        let ghost before = lines.deep_view();
        lines.push(line);
        proof {
            assert(lines.deep_view() =~= before.push(line@));
            assert(lines.deep_view().drop_last() =~= before);
        }
        EventBlock { lines, start_at, end_at }
    }

    /// The event made of `lines`.
    pub fn from_lines(lines: Vec<String>) -> (block: EventBlock)
        ensures
            block@ == lines.deep_view(),
    {
        let mut block = EventBlock::new();
        let mut i: usize = 0;
        while i < lines.len()
            invariant
                i <= lines.len(),
                block@ == lines.deep_view().take(i as int),
            decreases lines.len() - i,
        {
            let ghost before = block@;
            block = block.with_line(lines[i].clone());
            proof {
                assert(lines.deep_view().take(i + 1) =~= before.push(lines[i as int]@));
            }
            i += 1;
        }
        assert(lines.deep_view().take(lines.len() as int) =~= lines.deep_view());
        block
    }

    /// The lines of the event.
    pub fn lines(&self) -> (lines: &Vec<String>)
        ensures
            lines.deep_view() == self@,
    {
        &self.lines
    }

    /// Position of the first line that begins with `DTSTART`.
    pub fn start_index(&self) -> (at: Option<usize>)
        ensures
            position(at) == first_with_prefix(self@, start_name()),
    {
        proof {
            use_type_invariant(self);
        }
        self.start_at
    }

    /// Position of the first line that begins with `DTEND`.
    pub fn end_index(&self) -> (at: Option<usize>)
        ensures
            position(at) == first_with_prefix(self@, end_name()),
    {
        proof {
            use_type_invariant(self);
        }
        self.end_at
    }

    /// Whether some line of the event holds some keyword of `filters`, both
    /// compared in lower case.
    pub fn is_excluded(&self, filters: &Vec<String>) -> (r: bool)
        ensures
            r == excluded(self@, filters.deep_view()),
    {
        let mut lowered: Vec<Vec<char>> = Vec::new();
        let mut j: usize = 0;
        while j < filters.len()
            invariant
                j <= filters.len(),
                lowered.len() == j,
                forall|k: int| 0 <= k < j ==> (#[trigger] lowered[k])@ == lowercase(filters[k]@),
            decreases filters.len() - j,
        {
            lowered.push(chars_of(to_lowercase(filters[j].as_str()).as_str()));
            j += 1;
        }
        let mut i: usize = 0;
        while i < self.lines.len()
            invariant
                i <= self.lines.len(),
                lowered.len() == filters.len(),
                forall|k: int|
                    0 <= k < filters.len() ==> (#[trigger] lowered[k])@ == lowercase(filters[k]@),
                forall|a: int, b: int|
                    0 <= a < i && 0 <= b < filters.len() ==> !#[trigger] line_matches(
                        self@[a],
                        filters.deep_view()[b],
                    ),
            decreases self.lines.len() - i,
        {
            let line = chars_of(to_lowercase(self.lines[i].as_str()).as_str());
            let mut j: usize = 0;
            while j < lowered.len()
                invariant
                    i < self.lines.len(),
                    j <= lowered.len(),
                    lowered.len() == filters.len(),
                    line@ == lowercase(self@[i as int]),
                    forall|k: int|
                        0 <= k < filters.len() ==> (#[trigger] lowered[k])@ == lowercase(
                            filters[k]@,
                        ),
                    forall|b: int|
                        0 <= b < j ==> !#[trigger] line_matches(
                            self@[i as int],
                            filters.deep_view()[b],
                        ),
                decreases lowered.len() - j,
            {
                if has_substring(&line, &lowered[j]) {
                    assert(line_matches(self@[i as int], filters.deep_view()[j as int]));
                    return true;
                }
                j += 1;
            }
            i += 1;
        }
        false
    }

    /// The lines of the event, its start and end lines rewritten to whole days
    /// where the event spans more than one calendar date.
    pub fn normalize(self) -> (lines: Vec<String>)
        ensures
            lines.deep_view() == normalized(self@),
    {
        proof {
            use_type_invariant(&self);
            lemma_first_with_prefix(self@, start_name());
            lemma_first_with_prefix(self@, end_name());
        }
        let EventBlock { mut lines, start_at, end_at } = self;
        if let (Some(i), Some(j)) = (start_at, end_at) {
            let start = instant_of_line(lines[i].as_str());
            let end = instant_of_line(lines[j].as_str());
            if let (Some(start), Some(end)) = (start, end) {
                let first = start.date();
                let last = end.date();
                if first != last {
                    let ghost before = lines.deep_view();
                    let mut start_line = "DTSTART;VALUE=DATE:".to_string();
                    start_line.append(render_date(&first).as_str());
                    let mut end_line = "DTEND;VALUE=DATE:".to_string();
                    end_line.append(render_date(&last).as_str());
                    lines.set(i, start_line);
                    lines.set(j, end_line);
                    proof {
                        assert(lines.deep_view() =~= before.update(
                            i as int,
                            start_date_line(first),
                        ).update(j as int, end_date_line(last)));
                    }
                }
            }
        }
        lines
    }
}

} // verus!
