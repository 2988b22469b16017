//! The rewrite of a whole document: a scanner with two states cuts the lines
//! into plain lines and events, each event is dropped or normalized, and what
//! is left is joined again.

use vstd::prelude::*;

use crate::event::{begin_marker, end_marker, excluded, normalized, EventBlock};
use crate::text::{chars_of, join_crlf, joined, lines_of, same_text, split_lines};

verus! {

/// One piece of a document, as the scanner hands it on.
#[derive(Debug)]
pub enum Segment {
    /// A line outside every event.
    Line(String),
    /// An event, from its opening to its closing marker.
    Event(EventBlock),
}

/// What a `Segment` holds.
pub enum SegmentView {
    Line(Seq<char>),
    Event(Seq<Seq<char>>),
}

impl View for Segment {
    type V = SegmentView;

    open spec fn view(&self) -> SegmentView {
        match self {
            Segment::Line(line) => SegmentView::Line(line@),
            Segment::Event(block) => SegmentView::Event(block@),
        }
    }
}

/// Where the scanner stands: outside every event, or inside one whose lines
/// so far it holds.
#[derive(Debug)]
pub enum ScanState {
    Outside,
    InEvent(EventBlock),
}

impl View for ScanState {
    type V = Option<Seq<Seq<char>>>;

    open spec fn view(&self) -> Option<Seq<Seq<char>>> {
        match self {
            ScanState::Outside => None,
            ScanState::InEvent(block) => Some(block@),
        }
    }
}

/// What a found segment holds, if one was found.
pub open spec fn found_view(found: Option<Segment>) -> Option<SegmentView> {
    match found {
        Some(segment) => Some(segment@),
        None => None,
    }
}

/// What each of `segments` holds.
pub open spec fn segment_views(segments: Seq<Segment>) -> Seq<SegmentView> {
    Seq::new(segments.len(), |i: int| segments[i]@)
}

/// One step of the scanner: the state after `line`, and the segment that
/// `line` completes, if any.
///
/// An opening marker starts a new event in either state; lines of an event
/// that was open are then lost. Outside an event every other line is a
/// segment of its own. Inside, a closing marker completes the event and every
/// other line joins it.
pub open spec fn step(state: Option<Seq<Seq<char>>>, line: Seq<char>) -> (
    Option<Seq<Seq<char>>>,
    Option<SegmentView>,
) {
    if line == begin_marker() {
        (Some(seq![line]), None)
    } else {
        match state {
            None => (None, Some(SegmentView::Line(line))),
            Some(block) => if line == end_marker() {
                (None, Some(SegmentView::Event(block.push(line))))
            } else {
                (Some(block.push(line)), None)
            },
        }
    }
}

/// The scanner's state after `lines`, begun in `state`, and the segments
/// found in them.
pub open spec fn scan(state: Option<Seq<Seq<char>>>, lines: Seq<Seq<char>>) -> (
    Option<Seq<Seq<char>>>,
    Seq<SegmentView>,
)
    decreases lines.len(),
{
    if lines.len() == 0 {
        (state, Seq::empty())
    } else {
        let (middle, segments) = scan(state, lines.drop_last());
        let (next, found) = step(middle, lines.last());
        (
            next,
            match found {
                Some(segment) => segments.push(segment),
                None => segments,
            },
        )
    }
}

/// The segments of a document. Lines of an event that is never closed belong
/// to no segment.
pub open spec fn segments_of(lines: Seq<Seq<char>>) -> Seq<SegmentView> {
    scan(None, lines).1
}

/// The output lines of one segment: a plain line as it is; an event not at
/// all if a keyword excludes it, else normalized.
pub open spec fn rewritten_segment(segment: SegmentView, filters: Seq<Seq<char>>) -> Seq<
    Seq<char>,
> {
    match segment {
        SegmentView::Line(line) => seq![line],
        SegmentView::Event(block) => if excluded(block, filters) {
            Seq::empty()
        } else {
            normalized(block)
        },
    }
}

/// The output lines of `segments`, in their order.
pub open spec fn rewritten_segments(segments: Seq<SegmentView>, filters: Seq<Seq<char>>) -> Seq<
    Seq<char>,
>
    decreases segments.len(),
{
    if segments.len() == 0 {
        Seq::empty()
    } else {
        rewritten_segments(segments.drop_last(), filters) + rewritten_segment(
            segments.last(),
            filters,
        )
    }
}

/// The output lines of a document.
pub open spec fn rewritten_lines(lines: Seq<Seq<char>>, filters: Seq<Seq<char>>) -> Seq<
    Seq<char>,
> {
    rewritten_segments(segments_of(lines), filters)
}

/// The output text of a document.
pub open spec fn rewritten_text(text: Seq<char>, filters: Seq<Seq<char>>) -> Seq<char> {
    joined(rewritten_lines(lines_of(text), filters))
}

impl ScanState {
    /// Feeds one line to the scanner.
    pub fn step(self, line: String) -> (r: (ScanState, Option<Segment>))
        ensures
            (r.0@, found_view(r.1)) == step(self@, line@),
    {
        let chars = chars_of(line.as_str());
        if same_text(&chars, &chars_of("BEGIN:VEVENT")) {
            let block = EventBlock::new().with_line(line);
            assert(block@ =~= seq![line@]);
            return (ScanState::InEvent(block), None);
        }
        match self {
            ScanState::Outside => (ScanState::Outside, Some(Segment::Line(line))),
            ScanState::InEvent(block) => {
                if same_text(&chars, &chars_of("END:VEVENT")) {
                    (ScanState::Outside, Some(Segment::Event(block.with_line(line))))
                } else {
                    (ScanState::InEvent(block.with_line(line)), None)
                }
            },
        }
    }
}

/// Cuts `lines` into plain lines and events.
pub fn extract_segments(lines: &Vec<String>) -> (segments: Vec<Segment>)
    ensures
        segment_views(segments@) == segments_of(lines.deep_view()),
{
    let mut state = ScanState::Outside;
    let mut segments: Vec<Segment> = Vec::new();
    let mut i: usize = 0;
    assert(lines.deep_view().take(0) =~= Seq::<Seq<char>>::empty());
    assert(segment_views(segments@) =~= Seq::<SegmentView>::empty());
    while i < lines.len()
        invariant
            i <= lines.len(),
            (state@, segment_views(segments@)) == scan(None, lines.deep_view().take(i as int)),
        decreases lines.len() - i,
    {
        let ghost before = segment_views(segments@);
        proof {
            let done = lines.deep_view().take(i + 1);
            assert(done.drop_last() =~= lines.deep_view().take(i as int));
            assert(done.last() == lines[i as int]@);
        }
        let (next, found) = state.step(lines[i].clone());
        state = next;
        if let Some(segment) = found {
            segments.push(segment);
            assert(segment_views(segments@) =~= before.push(segment@));
        }
        i += 1;
    }
    assert(lines.deep_view().take(lines.len() as int) =~= lines.deep_view());
    segments
}

/// The output lines of one segment.
pub fn rewrite_segment(segment: Segment, filters: &Vec<String>) -> (lines: Vec<String>)
    ensures
        lines.deep_view() == rewritten_segment(segment@, filters.deep_view()),
{
    match segment {
        Segment::Line(line) => {
            let mut lines: Vec<String> = Vec::new();
            lines.push(line);
            assert(lines.deep_view() =~= seq![line@]);
            lines
        },
        Segment::Event(block) => {
            if block.is_excluded(filters) {
                let lines: Vec<String> = Vec::new();
                assert(lines.deep_view() =~= Seq::<Seq<char>>::empty());
                lines
            } else {
                block.normalize()
            }
        },
    }
}

/// The output lines of a document: its plain lines and the events that no
/// keyword excludes, normalized, in their order.
pub fn rewrite_lines(lines: &Vec<String>, filters: &Vec<String>) -> (out: Vec<String>)
    ensures
        out.deep_view() == rewritten_lines(lines.deep_view(), filters.deep_view()),
{
    let mut state = ScanState::Outside;
    let mut out: Vec<String> = Vec::new();
    let ghost mut segments: Seq<SegmentView> = Seq::empty();
    let mut i: usize = 0;
    assert(lines.deep_view().take(0) =~= Seq::<Seq<char>>::empty());
    assert(out.deep_view() =~= Seq::<Seq<char>>::empty());
    while i < lines.len()
        invariant
            i <= lines.len(),
            (state@, segments) == scan(None, lines.deep_view().take(i as int)),
            out.deep_view() == rewritten_segments(segments, filters.deep_view()),
        decreases lines.len() - i,
    {
        proof {
            let done = lines.deep_view().take(i + 1);
            assert(done.drop_last() =~= lines.deep_view().take(i as int));
            assert(done.last() == lines[i as int]@);
        }
        let (next, found) = state.step(lines[i].clone());
        state = next;
        if let Some(segment) = found {
            let ghost before = out.deep_view();
            let ghost view = segment@;
            let mut more = rewrite_segment(segment, filters);
            let ghost added = more.deep_view();
            out.append(&mut more);
            proof {
                assert(out.deep_view() =~= before + added);
                assert(segments.push(view).drop_last() =~= segments);
                segments = segments.push(view);
            }
        }
        i += 1;
    }
    assert(lines.deep_view().take(lines.len() as int) =~= lines.deep_view());
    out
}

/// Rewrites the calendar document `ical_str`.
///
/// Lines outside events are kept. An event is dropped, markers included, if
/// one of its lines holds one of `filters`, compared in lower case. An event
/// that is kept and runs over more than one calendar date gets a start and an
/// end line that name whole days. Every output line ends with a carriage
/// return and a line feed.
pub fn modify_icalendar(ical_str: &str, filters: Vec<String>) -> (out: String)
    ensures
        out@ == rewritten_text(ical_str@, filters.deep_view()),
{
    let lines = split_lines(ical_str);
    let rewritten = rewrite_lines(&lines, &filters);
    join_crlf(&rewritten)
}

} // verus!
