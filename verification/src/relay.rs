//! The decisions of the relay around the rewrite: which requests are fetched,
//! which responses are rewritten, and what is answered when a step fails.
//!
//! Nothing here performs a request. `relay_step` takes what has happened and
//! says what to do next; the caller does it and reports back.

use vstd::prelude::*;
use vstd::string::StringExecFns;

use crate::engine::{modify_icalendar, rewritten_text};
use crate::text::{
    chars_of, first_index_of, has_prefix, has_substring, is_prefix, is_substring,
    lemma_first_index_is, matches_at, push_char, same_text, text_of,
};

verus! {

/// What the help page holds in place of the version.
pub open spec fn version_mark() -> Seq<char> {
    "{{VERSION}}"@
}

/// `text` with every `from` replaced by `to`, found from left to right; what
/// one replacement has consumed is not searched again. `from` is not empty.
pub open spec fn replaced(text: Seq<char>, from: Seq<char>, to: Seq<char>) -> Seq<char>
    recommends
        from.len() > 0,
    decreases text.len(),
{
    if from.len() == 0 || text.len() < from.len() {
        text
    } else if is_prefix(from, text) {
        to + replaced(text.skip(from.len() as int), from, to)
    } else {
        seq![text[0]] + replaced(text.skip(1), from, to)
    }
}

/// The fields of `text` that `separator` parts. A text without a separator is
/// one field, the empty text too.
pub open spec fn fields_of(text: Seq<char>, separator: char) -> Seq<Seq<char>>
    decreases text.len(),
{
    let n = first_index_of(text, separator) as int;
    if n >= text.len() {
        seq![text]
    } else {
        seq![text.take(n)] + fields_of(text.skip(n + 1), separator)
    }
}

/// The keywords that a request names: none where it has no list, else the
/// fields of its list between commas.
pub open spec fn exclusions_of(exclude: Option<Seq<char>>) -> Seq<Seq<char>> {
    match exclude {
        Some(list) => fields_of(list, ','),
        None => Seq::empty(),
    }
}

/// `url` begins with `http://` or with `https://`.
pub open spec fn is_http_url(url: Seq<char>) -> bool {
    is_prefix("http://"@, url) || is_prefix("https://"@, url)
}

/// A content type that names calendar data: it holds `text/calendar`, in
/// exactly these letters. No content type names none.
pub open spec fn is_calendar_type(content_type: Option<Seq<char>>) -> bool {
    match content_type {
        Some(value) => is_substring("text/calendar"@, value),
        None => false,
    }
}

/// `c` in lower case where it is one of the letters `A` to `Z`, else `c`.
pub open spec fn ascii_lowered(c: char) -> char {
    if 'A' <= c && c <= 'Z' {
        ((c as u8) + 32u8) as u8 as char
    } else {
        c
    }
}

/// `name` with its letters from `A` to `Z` in lower case.
pub open spec fn header_name(name: Seq<char>) -> Seq<char> {
    Seq::new(name.len(), |i: int| ascii_lowered(name[i]))
}

/// A header of the origin is handed on, but for `content-length`, in
/// whatever case it is written, where the body was rewritten: the new body
/// has a length of its own.
pub open spec fn header_kept(name: Seq<char>, rewritten: bool) -> bool {
    !(rewritten && header_name(name) == "content-length"@)
}

/// The help page: `template` with the version in place of every
/// `{{VERSION}}`.
pub fn generate_html(template: &str, version: &str) -> (page: String)
    ensures
        page@ == replaced(template@, version_mark(), version@),
{
    let chars = chars_of(template);
    let mark = chars_of("{{VERSION}}");
    proof {
        reveal_strlit("{{VERSION}}");
    }
    let mut page = String::new();
    let mut i: usize = 0;
    proof {
        assert(chars@.skip(0) =~= chars@);
        assert(page@ + replaced(chars@, mark@, version@) =~= replaced(chars@, mark@, version@));
    }
    while i < chars.len()
        invariant
            i <= chars.len(),
            mark@.len() == 11,
            page@ + replaced(chars@.skip(i as int), mark@, version@) == replaced(
                chars@,
                mark@,
                version@,
            ),
        decreases chars.len() - i,
    {
        let ghost rest = chars@.skip(i as int);
        let ghost before = page@;
        if matches_at(&chars, &mark, i) {
            page.append(version);
            proof {
                assert(rest.take(mark@.len() as int) =~= chars@.subrange(
                    i as int,
                    i + mark@.len(),
                ));
                assert(rest.skip(mark@.len() as int) =~= chars@.skip(i + mark@.len()));
                assert(page@ + replaced(chars@.skip(i + mark@.len()), mark@, version@) =~= before
                    + replaced(rest, mark@, version@));
            }
            i += mark.len();
        } else {
            push_char(&mut page, chars[i]);
            proof {
                if rest.len() >= mark@.len() {
                    assert(rest.take(mark@.len() as int) =~= chars@.subrange(
                        i as int,
                        i + mark@.len(),
                    ));
                    assert(rest.skip(1) =~= chars@.skip(i + 1));
                    assert(page@ + replaced(chars@.skip(i + 1), mark@, version@) =~= before
                        + replaced(rest, mark@, version@));
                } else {
                    assert(rest.skip(1) =~= chars@.skip(i + 1));
                    assert(replaced(rest.skip(1), mark@, version@) == rest.skip(1));
                    assert(page@ + rest.skip(1) =~= before + rest);
                }
            }
            i += 1;
        }
    }
    proof {
        assert(chars@.skip(chars@.len() as int) =~= Seq::<char>::empty());
        assert(page@ + Seq::<char>::empty() =~= page@);
    }
    page
}

/// The fields of `text` between commas.
pub fn split_fields(text: &str) -> (fields: Vec<String>)
    ensures
        fields.deep_view() == fields_of(text@, ','),
{
    let chars = chars_of(text);
    let mut fields: Vec<String> = Vec::new();
    let mut start: usize = 0;
    let mut i: usize = 0;
    proof {
        assert(chars@.skip(0) =~= chars@);
        assert(fields.deep_view() + fields_of(chars@, ',') =~= fields_of(chars@, ','));
    }
    while i < chars.len()
        invariant
            start <= i <= chars.len(),
            forall|k: int| start <= k < i ==> chars@[k] != ',',
            fields_of(chars@, ',') == fields.deep_view() + fields_of(
                chars@.skip(start as int),
                ',',
            ),
        decreases chars.len() - i,
    {
        if chars[i] == ',' {
            let field = text_of(&chars, start, i);
            proof {
                let rest = chars@.skip(start as int);
                let n = i - start;
                lemma_first_index_is(rest, ',', n);
                assert(rest.take(n) =~= field@);
                assert(rest.skip(n + 1) =~= chars@.skip(i + 1));
                assert(fields.deep_view().push(field@) + fields_of(chars@.skip(i + 1), ',')
                    =~= fields.deep_view() + fields_of(rest, ','));
            }
            let ghost before = fields.deep_view();
            fields.push(field);
            assert(fields.deep_view() =~= before.push(field@));
            start = i + 1;
        }
        i += 1;
    }
    let field = text_of(&chars, start, chars.len());
    proof {
        let rest = chars@.skip(start as int);
        lemma_first_index_is(rest, ',', rest.len() as int);
        assert(field@ =~= rest);
    }
    let ghost before = fields.deep_view();
    fields.push(field);
    proof {
        assert(fields.deep_view() =~= before.push(field@));
        assert(fields.deep_view() =~= before + seq![field@]);
    }
    fields
}

/// The keywords that a request names.
pub fn parse_exclusions(exclude: Option<&str>) -> (keywords: Vec<String>)
    ensures
        keywords.deep_view() == exclusions_of(
            match exclude {
                Some(list) => Some(list@),
                None => None,
            },
        ),
{
    match exclude {
        Some(list) => split_fields(list),
        None => {
            let keywords: Vec<String> = Vec::new();
            assert(keywords.deep_view() =~= Seq::<Seq<char>>::empty());
            keywords
        },
    }
}

/// Whether `url` may be fetched: it begins with `http://` or `https://`.
pub fn is_http_target(url: &str) -> (r: bool)
    ensures
        r == is_http_url(url@),
{
    let chars = chars_of(url);
    has_prefix(&chars, &chars_of("http://")) || has_prefix(&chars, &chars_of("https://"))
}

/// Whether a response with this content type is rewritten.
pub fn is_calendar_response(content_type: Option<&str>) -> (r: bool)
    ensures
        r == is_calendar_type(
            match content_type {
                Some(value) => Some(value@),
                None => None,
            },
        ),
{
    match content_type {
        Some(value) => has_substring(&chars_of(value), &chars_of("text/calendar")),
        None => false,
    }
}

/// Whether the header `name` of the origin is handed on.
pub fn keep_header(name: &str, rewritten: bool) -> (r: bool)
    ensures
        r == header_kept(name@, rewritten),
{
    if !rewritten {
        return true;
    }
    let chars = chars_of(name);
    let mut lowered: Vec<char> = Vec::new();
    let mut i: usize = 0;
    while i < chars.len()
        invariant
            i <= chars.len(),
            lowered@ == header_name(chars@.take(i as int)),
        decreases chars.len() - i,
    {
        let c = chars[i];
        let low = if 'A' <= c && c <= 'Z' {
            ((c as u8) + 32u8) as char
        } else {
            c
        };
        lowered.push(low);
        assert(lowered@ =~= header_name(chars@.take(i + 1)));
        i += 1;
    }
    assert(chars@.take(chars@.len() as int) =~= chars@);
    !same_text(&lowered, &chars_of("content-length"))
}

/// Why a request is answered with an error.
#[derive(Clone, Copy, Debug, PartialEq, Eq, Structural)]
pub enum Failure {
    /// The address begins with neither `http://` nor `https://`.
    InvalidScheme,
    /// No request could be formed from the address.
    InvalidUrl,
    /// The origin could not be reached.
    Upstream,
    /// The body of the origin's response could not be read in full.
    BodyRead,
    /// No response could be formed.
    ResponseBuild,
}

impl Failure {
    /// The status of the answer: 400 where the request is at fault, else 500.
    pub open spec fn spec_status(self) -> u16 {
        match self {
            Failure::InvalidScheme => 400,
            Failure::InvalidUrl => 400,
            Failure::Upstream => 500,
            Failure::BodyRead => 500,
            Failure::ResponseBuild => 500,
        }
    }

    /// The text of the answer.
    pub open spec fn spec_message(self) -> Seq<char> {
        match self {
            Failure::InvalidScheme => "Invalid URL. Must start with http:// or https://"@,
            Failure::InvalidUrl => "Invalid URL format"@,
            Failure::Upstream => "Failed to proxy request"@,
            Failure::BodyRead => "Failed to read response body"@,
            Failure::ResponseBuild => "Failed to create response"@,
        }
    }

    /// The status of the answer.
    #[verifier::when_used_as_spec(spec_status)]
    pub fn status(self) -> (code: u16)
        ensures
            code == self.spec_status(),
    {
        match self {
            Failure::InvalidScheme => 400,
            Failure::InvalidUrl => 400,
            Failure::Upstream => 500,
            Failure::BodyRead => 500,
            Failure::ResponseBuild => 500,
        }
    }

    /// The text of the answer.
    pub fn message(self) -> (text: String)
        ensures
            text@ == self.spec_message(),
    {
        match self {
            Failure::InvalidScheme => "Invalid URL. Must start with http:// or https://".to_owned(),
            Failure::InvalidUrl => "Invalid URL format".to_owned(),
            Failure::Upstream => "Failed to proxy request".to_owned(),
            Failure::BodyRead => "Failed to read response body".to_owned(),
            Failure::ResponseBuild => "Failed to create response".to_owned(),
        }
    }
}

/// How far the answer to one request has come.
#[derive(Debug)]
pub enum RelayState {
    /// No request has come in.
    Idle,
    /// The origin is being asked. `exclusions` are the keywords of the request.
    Fetching { exclusions: Vec<String> },
    /// The body of a calendar is being read, to be rewritten.
    ReadingCalendar { exclusions: Vec<String> },
    /// The body of another response is being read, to be handed on.
    ReadingOther,
    /// The response is being formed.
    Replying,
    /// The request is answered.
    Done,
}

/// What has happened since the last step.
#[derive(Debug)]
pub enum RelayEvent {
    /// A request came in, with the address to fetch and the list of keywords,
    /// as far as it names them.
    Request { url: Option<String>, exclude: Option<String> },
    /// No request to the origin could be formed from the address.
    RequestRefused,
    /// The origin could not be reached.
    FetchFailed,
    /// The head of the origin's response came in, with its content type as
    /// far as it has a readable one.
    Head { content_type: Option<String> },
    /// The body could not be read in full.
    BodyFailed,
    /// The body was read in full, and is at hand as text.
    Text { text: String },
    /// The body was read in full.
    Body,
    /// No response could be formed.
    ReplyRefused,
    /// The response was formed.
    Replied,
}

/// What to do next.
#[derive(Debug)]
pub enum RelayAction {
    /// Answer with the help page.
    ServeHelp,
    /// Ask the origin for `url`.
    Fetch { url: String },
    /// Read the body of the origin's response in full and as text.
    ReadText,
    /// Read the body of the origin's response in full.
    ReadBody,
    /// Answer with the status, the headers and the body of the origin.
    Forward,
    /// Answer with the status of the origin, its headers but for
    /// `content-length`, and `body`.
    Replace { body: String },
    /// Answer with an error.
    Fail(Failure),
    /// Nothing is left to do.
    Stop,
}

/// What a `RelayState` holds.
pub enum RelayStateView {
    Idle,
    Fetching { exclusions: Seq<Seq<char>> },
    ReadingCalendar { exclusions: Seq<Seq<char>> },
    ReadingOther,
    Replying,
    Done,
}

/// What a `RelayEvent` holds.
pub enum RelayEventView {
    Request { url: Option<Seq<char>>, exclude: Option<Seq<char>> },
    RequestRefused,
    FetchFailed,
    Head { content_type: Option<Seq<char>> },
    BodyFailed,
    Text { text: Seq<char> },
    Body,
    ReplyRefused,
    Replied,
}

/// What a `RelayAction` holds.
pub enum RelayActionView {
    ServeHelp,
    Fetch { url: Seq<char> },
    ReadText,
    ReadBody,
    Forward,
    Replace { body: Seq<char> },
    Fail(Failure),
    Stop,
}

/// The text that `text` holds, if any.
pub open spec fn text_view(text: Option<String>) -> Option<Seq<char>> {
    match text {
        Some(value) => Some(value@),
        None => None,
    }
}

impl View for RelayState {
    type V = RelayStateView;

    open spec fn view(&self) -> RelayStateView {
        match self {
            RelayState::Idle => RelayStateView::Idle,
            RelayState::Fetching { exclusions } => RelayStateView::Fetching {
                exclusions: exclusions.deep_view(),
            },
            RelayState::ReadingCalendar { exclusions } => RelayStateView::ReadingCalendar {
                exclusions: exclusions.deep_view(),
            },
            RelayState::ReadingOther => RelayStateView::ReadingOther,
            RelayState::Replying => RelayStateView::Replying,
            RelayState::Done => RelayStateView::Done,
        }
    }
}

impl View for RelayEvent {
    type V = RelayEventView;

    open spec fn view(&self) -> RelayEventView {
        match self {
            RelayEvent::Request { url, exclude } => RelayEventView::Request {
                url: text_view(*url),
                exclude: text_view(*exclude),
            },
            RelayEvent::RequestRefused => RelayEventView::RequestRefused,
            RelayEvent::FetchFailed => RelayEventView::FetchFailed,
            RelayEvent::Head { content_type } => RelayEventView::Head {
                content_type: text_view(*content_type),
            },
            RelayEvent::BodyFailed => RelayEventView::BodyFailed,
            RelayEvent::Text { text } => RelayEventView::Text { text: text@ },
            RelayEvent::Body => RelayEventView::Body,
            RelayEvent::ReplyRefused => RelayEventView::ReplyRefused,
            RelayEvent::Replied => RelayEventView::Replied,
        }
    }
}

impl View for RelayAction {
    type V = RelayActionView;

    open spec fn view(&self) -> RelayActionView {
        match self {
            RelayAction::ServeHelp => RelayActionView::ServeHelp,
            RelayAction::Fetch { url } => RelayActionView::Fetch { url: url@ },
            RelayAction::ReadText => RelayActionView::ReadText,
            RelayAction::ReadBody => RelayActionView::ReadBody,
            RelayAction::Forward => RelayActionView::Forward,
            RelayAction::Replace { body } => RelayActionView::Replace { body: body@ },
            RelayAction::Fail(failure) => RelayActionView::Fail(*failure),
            RelayAction::Stop => RelayActionView::Stop,
        }
    }
}

/// The state after `event`, and what to do next.
///
/// A request without an address is answered with the help page, one whose
/// address has no HTTP scheme with an error; any other is fetched. A response
/// that names calendar data is read as text and answered with the rewritten
/// text; any other is handed on as it came. Each step that fails ends the
/// exchange with its error. An event that the state does not await ends it
/// with nothing to do.
pub open spec fn relay_next(state: RelayStateView, event: RelayEventView) -> (
    RelayStateView,
    RelayActionView,
) {
    match (state, event) {
        (RelayStateView::Idle, RelayEventView::Request { url: None, .. }) => (
            RelayStateView::Done,
            RelayActionView::ServeHelp,
        ),
        (RelayStateView::Idle, RelayEventView::Request { url: Some(url), exclude }) => if is_http_url(
            url,
        ) {
            (
                RelayStateView::Fetching { exclusions: exclusions_of(exclude) },
                RelayActionView::Fetch { url },
            )
        } else {
            (RelayStateView::Done, RelayActionView::Fail(Failure::InvalidScheme))
        },
        (RelayStateView::Fetching { .. }, RelayEventView::RequestRefused) => (
            RelayStateView::Done,
            RelayActionView::Fail(Failure::InvalidUrl),
        ),
        (RelayStateView::Fetching { .. }, RelayEventView::FetchFailed) => (
            RelayStateView::Done,
            RelayActionView::Fail(Failure::Upstream),
        ),
        (RelayStateView::Fetching { exclusions }, RelayEventView::Head { content_type }) => if is_calendar_type(
            content_type,
        ) {
            (RelayStateView::ReadingCalendar { exclusions }, RelayActionView::ReadText)
        } else {
            (RelayStateView::ReadingOther, RelayActionView::ReadBody)
        },
        (RelayStateView::ReadingCalendar { .. }, RelayEventView::BodyFailed) => (
            RelayStateView::Done,
            RelayActionView::Fail(Failure::BodyRead),
        ),
        (RelayStateView::ReadingOther, RelayEventView::BodyFailed) => (
            RelayStateView::Done,
            RelayActionView::Fail(Failure::BodyRead),
        ),
        (RelayStateView::ReadingCalendar { exclusions }, RelayEventView::Text { text }) => (
            RelayStateView::Replying,
            RelayActionView::Replace { body: rewritten_text(text, exclusions) },
        ),
        (RelayStateView::ReadingOther, RelayEventView::Body) => (
            RelayStateView::Replying,
            RelayActionView::Forward,
        ),
        (RelayStateView::Replying, RelayEventView::ReplyRefused) => (
            RelayStateView::Done,
            RelayActionView::Fail(Failure::ResponseBuild),
        ),
        _ => (RelayStateView::Done, RelayActionView::Stop),
    }
}

/// One step of the relay: takes what has happened and says what to do next.
pub fn relay_step(state: RelayState, event: RelayEvent) -> (r: (RelayState, RelayAction))
    ensures
        (r.0@, r.1@) == relay_next(state@, event@),
{
    match (state, event) {
        (RelayState::Idle, RelayEvent::Request { url: None, .. }) => (
            RelayState::Done,
            RelayAction::ServeHelp,
        ),
        (RelayState::Idle, RelayEvent::Request { url: Some(url), exclude }) => {
            if is_http_target(url.as_str()) {
                let exclusions = match &exclude {
                    Some(list) => parse_exclusions(Some(list.as_str())),
                    None => parse_exclusions(None),
                };
                (RelayState::Fetching { exclusions }, RelayAction::Fetch { url })
            } else {
                (RelayState::Done, RelayAction::Fail(Failure::InvalidScheme))
            }
        },
        (RelayState::Fetching { .. }, RelayEvent::RequestRefused) => (
            RelayState::Done,
            RelayAction::Fail(Failure::InvalidUrl),
        ),
        (RelayState::Fetching { .. }, RelayEvent::FetchFailed) => (
            RelayState::Done,
            RelayAction::Fail(Failure::Upstream),
        ),
        (RelayState::Fetching { exclusions }, RelayEvent::Head { content_type }) => {
            let calendar = match &content_type {
                Some(value) => is_calendar_response(Some(value.as_str())),
                None => is_calendar_response(None),
            };
            if calendar {
                (RelayState::ReadingCalendar { exclusions }, RelayAction::ReadText)
            } else {
                (RelayState::ReadingOther, RelayAction::ReadBody)
            }
        },
        (RelayState::ReadingCalendar { .. }, RelayEvent::BodyFailed) => (
            RelayState::Done,
            RelayAction::Fail(Failure::BodyRead),
        ),
        (RelayState::ReadingOther, RelayEvent::BodyFailed) => (
            RelayState::Done,
            RelayAction::Fail(Failure::BodyRead),
        ),
        (RelayState::ReadingCalendar { exclusions }, RelayEvent::Text { text }) => {
            let body = modify_icalendar(text.as_str(), exclusions);
            (RelayState::Replying, RelayAction::Replace { body })
        },
        (RelayState::ReadingOther, RelayEvent::Body) => (
            RelayState::Replying,
            RelayAction::Forward,
        ),
        (RelayState::Replying, RelayEvent::ReplyRefused) => (
            RelayState::Done,
            RelayAction::Fail(Failure::ResponseBuild),
        ),
        _ => (RelayState::Done, RelayAction::Stop),
    }
}

} // verus!
