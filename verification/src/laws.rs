//! What holds of the rewrite for every document: proofs over the
//! specification functions that the contracts of the library use.

use vstd::prelude::*;

use crate::datetime::{
    date_of_text, date_text, is_date_text, lemma_date_text_is_read_back, CalendarInstant,
};
use crate::engine::{
    rewritten_lines, rewritten_segment, rewritten_segments, rewritten_text, scan, segments_of,
    step, SegmentView,
};
use crate::event::{
    begin_marker, end_date_line, end_marker, end_name, excluded, first_with_prefix, is_event,
    lemma_normalized_is_event, lemma_normalized_twice, lemma_spanned_dates, line_instant,
    normalized, start_date_line, start_name,
};
use crate::text::{
    is_one_line, joined, lemma_lines_are_one_line, lemma_lines_of_joined, lines_of,
};

verus! {

/// Each of `lines` as a segment of its own.
pub open spec fn plain_segments(lines: Seq<Seq<char>>) -> Seq<SegmentView> {
    Seq::new(lines.len(), |i: int| SegmentView::Line(lines[i]))
}

/// The lines of an event that is open: an opening marker, then lines that
/// are no markers.
pub open spec fn is_open_event(block: Seq<Seq<char>>) -> bool {
    &&& block.len() >= 1
    &&& block[0] == begin_marker()
    &&& forall|k: int|
        0 < k < block.len() ==> #[trigger] block[k] != begin_marker() && block[k] != end_marker()
}

/// Every line of `lines` holds no line feed.
pub open spec fn are_one_line(lines: Seq<Seq<char>>) -> bool {
    forall|k: int| 0 <= k < lines.len() ==> is_one_line(#[trigger] lines[k])
}

/// What the scanner hands on: a plain line is no opening marker, an event has
/// the shape of one; no line holds a line feed.
pub open spec fn is_sound_segment(segment: SegmentView) -> bool {
    match segment {
        SegmentView::Line(line) => line != begin_marker() && is_one_line(line),
        SegmentView::Event(block) => is_event(block) && are_one_line(block),
    }
}

/// What the scanner holds between two lines: nothing, or an open event.
pub open spec fn is_sound_state(state: Option<Seq<Seq<char>>>) -> bool {
    match state {
        Some(block) => is_open_event(block) && are_one_line(block),
        None => true,
    }
}

/// An event that the keywords let pass is let pass again once it is
/// normalized: its new lines hold none of the keywords.
pub open spec fn stays_kept(segment: SegmentView, filters: Seq<Seq<char>>) -> bool {
    match segment {
        SegmentView::Line(_) => true,
        SegmentView::Event(block) => excluded(normalized(block), filters) ==> excluded(
            block,
            filters,
        ),
    }
}

/// `stays_kept` holds of every event of the document.
pub open spec fn rewrite_is_stable(lines: Seq<Seq<char>>, filters: Seq<Seq<char>>) -> bool {
    forall|k: int|
        0 <= k < segments_of(lines).len() ==> stays_kept(#[trigger] segments_of(lines)[k], filters)
}

/// The two markers differ.
proof fn lemma_markers_differ()
    ensures
        begin_marker() != end_marker(),
{
    reveal_strlit("BEGIN:VEVENT");
    reveal_strlit("END:VEVENT");
    assert(begin_marker().len() != end_marker().len());
}

/// Two runs of lines, one after the other, are scanned as the first and then,
/// from the state that it left, the second.
pub proof fn lemma_scan_add(state: Option<Seq<Seq<char>>>, a: Seq<Seq<char>>, b: Seq<Seq<char>>)
    ensures
        scan(state, a + b) == (scan(scan(state, a).0, b).0, scan(state, a).1 + scan(
            scan(state, a).0,
            b,
        ).1),
    decreases b.len(),
{
    let middle = scan(state, a).0;
    if b.len() == 0 {
        assert(a + b =~= a);
        assert(scan(state, a).1 + scan(middle, b).1 =~= scan(state, a).1);
    } else {
        lemma_scan_add(state, a, b.drop_last());
        assert((a + b).drop_last() =~= a + b.drop_last());
        assert((a + b).last() == b.last());
        let found = step(scan(middle, b.drop_last()).0, b.last()).1;
        match found {
            Some(segment) => {
                assert(scan(state, a + b).1 =~= scan(state, a).1 + scan(middle, b).1);
            },
            None => {},
        }
    }
}

/// The first lines of an event leave the scanner inside that event, whatever
/// state it was in, and complete no segment.
proof fn lemma_scan_open_event(state: Option<Seq<Seq<char>>>, block: Seq<Seq<char>>, k: int)
    requires
        is_event(block),
        1 <= k < block.len(),
    ensures
        scan(state, block.take(k)) == (Some(block.take(k)), Seq::<SegmentView>::empty()),
    decreases k,
{
    lemma_markers_differ();
    let head = block.take(k);
    assert(head.last() == block[k - 1]);
    if k == 1 {
        assert(head.drop_last() =~= Seq::<Seq<char>>::empty());
        assert(scan(state, head.drop_last()) == (state, Seq::<SegmentView>::empty()));
        assert(head =~= seq![block[0]]);
    } else {
        lemma_scan_open_event(state, block, k - 1);
        assert(head.drop_last() =~= block.take(k - 1));
        assert(block.take(k - 1).push(block[k - 1]) =~= head);
    }
}

/// An event is scanned as one segment, whatever state the scanner was in, and
/// leaves it outside.
pub proof fn lemma_scan_event(state: Option<Seq<Seq<char>>>, block: Seq<Seq<char>>)
    requires
        is_event(block),
    ensures
        scan(state, block) == (None::<Seq<Seq<char>>>, seq![SegmentView::Event(block)]),
{
    lemma_markers_differ();
    let k = block.len() - 1;
    lemma_scan_open_event(state, block, k);
    assert(block.drop_last() =~= block.take(k));
    assert(block.take(k).push(block.last()) =~= block);
    assert(Seq::<SegmentView>::empty().push(SegmentView::Event(block)) =~= seq![
        SegmentView::Event(block),
    ]);
}

/// The output of two runs of segments is the output of the first, then that
/// of the second.
pub proof fn lemma_rewritten_segments_add(
    a: Seq<SegmentView>,
    b: Seq<SegmentView>,
    filters: Seq<Seq<char>>,
)
    ensures
        rewritten_segments(a + b, filters) == rewritten_segments(a, filters) + rewritten_segments(
            b,
            filters,
        ),
    decreases b.len(),
{
    if b.len() == 0 {
        assert(a + b =~= a);
        assert(rewritten_segments(a, filters) + rewritten_segments(b, filters)
            =~= rewritten_segments(a, filters));
    } else {
        lemma_rewritten_segments_add(a, b.drop_last(), filters);
        assert((a + b).drop_last() =~= a + b.drop_last());
        assert((a + b).last() == b.last());
        assert(rewritten_segments(a + b, filters) =~= rewritten_segments(a, filters)
            + rewritten_segments(b, filters));
    }
}

/// The output of a single segment.
proof fn lemma_rewritten_one(segment: SegmentView, filters: Seq<Seq<char>>)
    ensures
        rewritten_segments(seq![segment], filters) == rewritten_segment(segment, filters),
{
    let one = seq![segment];
    assert(one.drop_last() =~= Seq::<SegmentView>::empty());
    assert(rewritten_segments(one.drop_last(), filters) =~= Seq::<Seq<char>>::empty());
    assert(rewritten_segments(one, filters) =~= rewritten_segment(segment, filters));
}

/// Lines without an opening marker are scanned as plain lines, and come out
/// as they are.
proof fn lemma_scan_plain(lines: Seq<Seq<char>>, filters: Seq<Seq<char>>)
    requires
        forall|k: int| 0 <= k < lines.len() ==> #[trigger] lines[k] != begin_marker(),
    ensures
        scan(None, lines) == (None::<Seq<Seq<char>>>, plain_segments(lines)),
        rewritten_segments(plain_segments(lines), filters) == lines,
    decreases lines.len(),
{
    if lines.len() == 0 {
        assert(plain_segments(lines) =~= Seq::<SegmentView>::empty());
        assert(rewritten_segments(plain_segments(lines), filters) =~= lines);
    } else {
        let head = lines.drop_last();
        assert forall|k: int| 0 <= k < head.len() implies #[trigger] head[k] != begin_marker() by {
            assert(head[k] == lines[k]);
        }
        lemma_scan_plain(head, filters);
        assert(lines.last() == lines[lines.len() - 1]);
        assert(plain_segments(head).push(SegmentView::Line(lines.last())) =~= plain_segments(
            lines,
        ));
        assert(plain_segments(lines).drop_last() =~= plain_segments(head));
        assert(rewritten_segments(plain_segments(lines), filters) =~= lines);
    }
}

/// A document in which no line is an opening marker has no events. Its
/// output is its own lines, none dropped and none altered, each ended by a
/// carriage return and a line feed.
pub proof fn lemma_no_event_no_change(text: Seq<char>, filters: Seq<Seq<char>>)
    requires
        forall|k: int|
            0 <= k < lines_of(text).len() ==> #[trigger] lines_of(text)[k] != begin_marker(),
    ensures
        rewritten_lines(lines_of(text), filters) == lines_of(text),
        rewritten_text(text, filters) == joined(lines_of(text)),
{
    lemma_scan_plain(lines_of(text), filters);
}

/// An event whose start and end fall on the same calendar date keeps all its
/// lines as they are, the start and the end line too.
pub proof fn lemma_same_day_event_unchanged(
    block: Seq<Seq<char>>,
    start: CalendarInstant,
    end: CalendarInstant,
)
    requires
        first_with_prefix(block, start_name()) matches Some(i) && line_instant(block[i]) == Some(
            start,
        ),
        first_with_prefix(block, end_name()) matches Some(j) && line_instant(block[j]) == Some(
            end,
        ),
        start.spec_date() == end.spec_date(),
    ensures
        normalized(block) == block,
{
}

/// An event whose start and end fall on different calendar dates gets a start
/// line and an end line that name whole days: `DTSTART;VALUE=DATE:` and
/// `DTEND;VALUE=DATE:`, each followed by the eight digits of its own date,
/// which are read back as that date. No other line of the event changes.
pub proof fn lemma_multi_day_event_rewritten(
    block: Seq<Seq<char>>,
    start: CalendarInstant,
    end: CalendarInstant,
)
    requires
        first_with_prefix(block, start_name()) matches Some(i) && line_instant(block[i]) == Some(
            start,
        ),
        first_with_prefix(block, end_name()) matches Some(j) && line_instant(block[j]) == Some(
            end,
        ),
        start.spec_date() != end.spec_date(),
    ensures
        is_date_text(date_text(start.spec_date())),
        is_date_text(date_text(end.spec_date())),
        date_of_text(date_text(start.spec_date())) == Some(start.spec_date()),
        date_of_text(date_text(end.spec_date())) == Some(end.spec_date()),
        normalized(block).len() == block.len(),
        forall|k: int|
            0 <= k < block.len() ==> #[trigger] normalized(block)[k] == (if Some(k)
                == first_with_prefix(block, start_name()) {
                start_date_line(start.spec_date())
            } else if Some(k) == first_with_prefix(block, end_name()) {
                end_date_line(end.spec_date())
            } else {
                block[k]
            }),
{
    lemma_spanned_dates(block);
    lemma_date_text_is_read_back(start.spec_date());
    lemma_date_text_is_read_back(end.spec_date());
}

/// An event among other lines comes out as it would alone, and the lines
/// before and after it come out as they would without it: the output is that
/// of the lines before, then that of the event, then that of the lines after.
pub proof fn lemma_event_among_lines(
    before: Seq<Seq<char>>,
    block: Seq<Seq<char>>,
    after: Seq<Seq<char>>,
    filters: Seq<Seq<char>>,
)
    requires
        is_event(block),
    ensures
        rewritten_lines(before + block + after, filters) == rewritten_lines(before, filters)
            + rewritten_segment(SegmentView::Event(block), filters) + rewritten_lines(
            after,
            filters,
        ),
{
    let event = seq![SegmentView::Event(block)];
    lemma_scan_add(None, before + block, after);
    lemma_scan_add(None, before, block);
    lemma_scan_event(scan(None, before).0, block);
    assert(segments_of(before + block + after) == segments_of(before) + event + segments_of(
        after,
    ));
    lemma_rewritten_segments_add(segments_of(before) + event, segments_of(after), filters);
    lemma_rewritten_segments_add(segments_of(before), event, filters);
    lemma_rewritten_one(SegmentView::Event(block), filters);
}

/// An event of which no line holds a keyword stands in the output with its
/// normalized lines, between what comes out of the lines before and after it.
pub proof fn lemma_kept_event_is_normalized(
    before: Seq<Seq<char>>,
    block: Seq<Seq<char>>,
    after: Seq<Seq<char>>,
    filters: Seq<Seq<char>>,
)
    requires
        is_event(block),
        !excluded(block, filters),
    ensures
        rewritten_lines(before + block + after, filters) == rewritten_lines(before, filters)
            + normalized(block) + rewritten_lines(after, filters),
{
    lemma_event_among_lines(before, block, after, filters);
}

/// An event of which some line holds a keyword leaves no line in the output,
/// its markers neither, and changes nothing of what comes out of the lines
/// before and after it.
pub proof fn lemma_excluded_event_leaves_no_line(
    before: Seq<Seq<char>>,
    block: Seq<Seq<char>>,
    after: Seq<Seq<char>>,
    filters: Seq<Seq<char>>,
)
    requires
        is_event(block),
        excluded(block, filters),
    ensures
        rewritten_lines(before + block + after, filters) == rewritten_lines(before, filters)
            + rewritten_lines(after, filters),
{
    lemma_event_among_lines(before, block, after, filters);
    assert(rewritten_lines(before, filters) + Seq::<Seq<char>>::empty() + rewritten_lines(
        after,
        filters,
    ) =~= rewritten_lines(before, filters) + rewritten_lines(after, filters));
}

/// The scanner keeps its state sound and hands on sound segments only.
proof fn lemma_scan_is_sound(state: Option<Seq<Seq<char>>>, lines: Seq<Seq<char>>)
    requires
        is_sound_state(state),
        are_one_line(lines),
    ensures
        is_sound_state(scan(state, lines).0),
        forall|k: int|
            0 <= k < scan(state, lines).1.len() ==> is_sound_segment(
                #[trigger] scan(state, lines).1[k],
            ),
    decreases lines.len(),
{
    lemma_markers_differ();
    if lines.len() > 0 {
        let head = lines.drop_last();
        let line = lines.last();
        assert(is_one_line(line));
        assert forall|k: int| 0 <= k < head.len() implies is_one_line(#[trigger] head[k]) by {
            assert(head[k] == lines[k]);
        }
        lemma_scan_is_sound(state, head);
        let (middle, segments) = scan(state, head);
        let (next, found) = step(middle, line);
        if line == begin_marker() {
            assert(is_sound_state(next));
        } else {
            match middle {
                None => {},
                Some(block) => {
                    let more = block.push(line);
                    assert(forall|k: int| 0 <= k < block.len() ==> more[k] == block[k]);
                    assert(are_one_line(more));
                    if line == end_marker() {
                        assert(is_event(more));
                    } else {
                        assert(is_open_event(more));
                    }
                },
            }
        }
    }
}

/// The output of sound segments holds no line feed within a line.
proof fn lemma_rewritten_are_one_line(segments: Seq<SegmentView>, filters: Seq<Seq<char>>)
    requires
        forall|k: int| 0 <= k < segments.len() ==> is_sound_segment(#[trigger] segments[k]),
    ensures
        are_one_line(rewritten_segments(segments, filters)),
    decreases segments.len(),
{
    if segments.len() > 0 {
        let head = segments.drop_last();
        assert forall|k: int| 0 <= k < head.len() implies is_sound_segment(#[trigger] head[k]) by {
            assert(head[k] == segments[k]);
        }
        lemma_rewritten_are_one_line(head, filters);
        let last = segments.last();
        assert(is_sound_segment(last));
        match last {
            SegmentView::Line(_) => {},
            SegmentView::Event(block) => {
                lemma_normalized_is_event(block);
            },
        }
        assert(are_one_line(rewritten_segment(last, filters)));
    }
}

/// The output of sound segments is scanned back into segments of which it is
/// again the output, where every event that was kept stays kept.
proof fn lemma_rewritten_again(segments: Seq<SegmentView>, filters: Seq<Seq<char>>)
    requires
        forall|k: int| 0 <= k < segments.len() ==> is_sound_segment(#[trigger] segments[k]),
        forall|k: int| 0 <= k < segments.len() ==> stays_kept(#[trigger] segments[k], filters),
    ensures
        scan(None, rewritten_segments(segments, filters)).0 is None,
        rewritten_lines(rewritten_segments(segments, filters), filters) == rewritten_segments(
            segments,
            filters,
        ),
    decreases segments.len(),
{
    if segments.len() == 0 {
        assert(rewritten_lines(rewritten_segments(segments, filters), filters)
            =~= rewritten_segments(segments, filters));
    } else {
        let head = segments.drop_last();
        let last = segments.last();
        assert forall|k: int| 0 <= k < head.len() implies is_sound_segment(#[trigger] head[k])
            && stays_kept(head[k], filters) by {
            assert(head[k] == segments[k]);
        }
        assert(is_sound_segment(last) && stays_kept(last, filters));
        lemma_rewritten_again(head, filters);
        let done = rewritten_segments(head, filters);
        let more = rewritten_segment(last, filters);
        lemma_scan_add(None, done, more);
        let found = scan(None, done).1;
        match last {
            SegmentView::Line(line) => {
                assert(more.drop_last() =~= Seq::<Seq<char>>::empty());
                assert(scan(None, more.drop_last()) == (
                    None::<Seq<Seq<char>>>,
                    Seq::<SegmentView>::empty(),
                ));
                assert(more.last() == line);
                assert(scan(None, more) == (
                    None::<Seq<Seq<char>>>,
                    Seq::<SegmentView>::empty().push(SegmentView::Line(line)),
                ));
                assert(Seq::<SegmentView>::empty().push(SegmentView::Line(line)) =~= seq![
                    SegmentView::Line(line),
                ]);
                lemma_rewritten_segments_add(found, seq![SegmentView::Line(line)], filters);
                lemma_rewritten_one(SegmentView::Line(line), filters);
            },
            SegmentView::Event(block) => {
                if excluded(block, filters) {
                    assert(done + more =~= done);
                } else {
                    let once = normalized(block);
                    lemma_normalized_is_event(block);
                    lemma_normalized_twice(block);
                    lemma_scan_event(None, once);
                    lemma_rewritten_segments_add(found, seq![SegmentView::Event(once)], filters);
                    lemma_rewritten_one(SegmentView::Event(once), filters);
                }
            },
        }
    }
}

/// Rewriting the output of a rewrite, with the same keywords, changes nothing
/// more: plain lines stay, events that were dropped stay absent, events that
/// were normalized stay as they are.
///
/// This holds where every event that the keywords let pass is let pass again
/// once it is normalized. A keyword that stands in `DTSTART;VALUE=DATE:`, as
/// `value` does, is found in the new lines of an event that did not hold it
/// before; the second rewrite drops such an event.
pub proof fn lemma_rewrite_is_idempotent(text: Seq<char>, filters: Seq<Seq<char>>)
    requires
        rewrite_is_stable(lines_of(text), filters),
    ensures
        rewritten_text(rewritten_text(text, filters), filters) == rewritten_text(text, filters),
{
    let lines = lines_of(text);
    let segments = segments_of(lines);
    let once = rewritten_segments(segments, filters);
    lemma_lines_are_one_line(text);
    lemma_scan_is_sound(None, lines);
    lemma_rewritten_are_one_line(segments, filters);
    lemma_lines_of_joined(once);
    lemma_rewritten_again(segments, filters);
}

} // verus!
