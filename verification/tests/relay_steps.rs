use cal_proxy::relay::{relay_step, Failure, RelayAction, RelayEvent, RelayState};

fn strings(lines: &[&str]) -> Vec<String> {
    lines.iter().map(|line| line.to_string()).collect()
}

fn request(url: Option<&str>, exclude: Option<&str>) -> RelayEvent {
    RelayEvent::Request { url: url.map(str::to_string), exclude: exclude.map(str::to_string) }
}

fn head(content_type: Option<&str>) -> RelayEvent {
    RelayEvent::Head { content_type: content_type.map(str::to_string) }
}

fn fetching(exclusions: &[&str]) -> RelayState {
    RelayState::Fetching { exclusions: strings(exclusions) }
}

#[test]
fn request_without_address_gets_the_help_page() {
    let (state, action) = relay_step(RelayState::Idle, request(None, Some("x")));
    assert!(matches!(state, RelayState::Done));
    assert!(matches!(action, RelayAction::ServeHelp));
}

#[test]
fn request_without_http_scheme_is_refused() {
    for url in ["ftp://example.org/a.ics", "example.org", "", "file:///etc/passwd"] {
        let (state, action) = relay_step(RelayState::Idle, request(Some(url), None));
        assert!(matches!(state, RelayState::Done));
        assert!(matches!(action, RelayAction::Fail(Failure::InvalidScheme)));
    }
}

#[test]
fn request_with_address_is_fetched() {
    let url = "https://example.org/a.ics";
    let (state, action) = relay_step(RelayState::Idle, request(Some(url), Some("standup,lunch")));
    assert!(matches!(state, RelayState::Fetching { ref exclusions }
        if exclusions == &strings(&["standup", "lunch"])));
    assert!(matches!(action, RelayAction::Fetch { url: ref fetched } if fetched == url));
}

#[test]
fn request_without_keywords_excludes_nothing() {
    let (state, _) = relay_step(RelayState::Idle, request(Some("http://example.org/"), None));
    assert!(matches!(state, RelayState::Fetching { ref exclusions } if exclusions.is_empty()));
}

#[test]
fn address_that_forms_no_request_is_refused() {
    let (state, action) = relay_step(fetching(&[]), RelayEvent::RequestRefused);
    assert!(matches!(state, RelayState::Done));
    assert!(matches!(action, RelayAction::Fail(Failure::InvalidUrl)));
}

#[test]
fn unreachable_origin_fails() {
    let (state, action) = relay_step(fetching(&["x"]), RelayEvent::FetchFailed);
    assert!(matches!(state, RelayState::Done));
    assert!(matches!(action, RelayAction::Fail(Failure::Upstream)));
}

#[test]
fn calendar_response_is_read_as_text() {
    let (state, action) =
        relay_step(fetching(&["x", "y"]), head(Some("text/calendar; charset=utf-8")));
    assert!(matches!(state, RelayState::ReadingCalendar { ref exclusions }
        if exclusions == &strings(&["x", "y"])));
    assert!(matches!(action, RelayAction::ReadText));
}

#[test]
fn other_response_is_read_to_be_handed_on() {
    for content_type in [Some("text/html"), Some("TEXT/CALENDAR"), None] {
        let (state, action) = relay_step(fetching(&["x"]), head(content_type));
        assert!(matches!(state, RelayState::ReadingOther));
        assert!(matches!(action, RelayAction::ReadBody));
    }
}

#[test]
fn unreadable_body_fails() {
    let reading = RelayState::ReadingCalendar { exclusions: Vec::new() };
    let (state, action) = relay_step(reading, RelayEvent::BodyFailed);
    assert!(matches!(state, RelayState::Done));
    assert!(matches!(action, RelayAction::Fail(Failure::BodyRead)));
    let (state, action) = relay_step(RelayState::ReadingOther, RelayEvent::BodyFailed);
    assert!(matches!(state, RelayState::Done));
    assert!(matches!(action, RelayAction::Fail(Failure::BodyRead)));
}

#[test]
fn calendar_body_is_rewritten() {
    let reading = RelayState::ReadingCalendar { exclusions: strings(&["lunch"]) };
    let text = "BEGIN:VEVENT\nSUMMARY:Lunch\nEND:VEVENT\nBEGIN:VEVENT\nDTSTART:20240101\nDTEND:20240103\nEND:VEVENT\n";
    let (state, action) = relay_step(reading, RelayEvent::Text { text: text.to_string() });
    assert!(matches!(state, RelayState::Replying));
    match action {
        RelayAction::Replace { body } => assert_eq!(
            body,
            "BEGIN:VEVENT\r\nDTSTART;VALUE=DATE:20240101\r\nDTEND;VALUE=DATE:20240103\r\nEND:VEVENT\r\n"
        ),
        _ => panic!("a calendar is answered with its rewritten text"),
    }
}

#[test]
fn other_body_is_forwarded() {
    let (state, action) = relay_step(RelayState::ReadingOther, RelayEvent::Body);
    assert!(matches!(state, RelayState::Replying));
    assert!(matches!(action, RelayAction::Forward));
}

#[test]
fn response_that_cannot_be_formed_fails() {
    let (state, action) = relay_step(RelayState::Replying, RelayEvent::ReplyRefused);
    assert!(matches!(state, RelayState::Done));
    assert!(matches!(action, RelayAction::Fail(Failure::ResponseBuild)));
}

#[test]
fn formed_response_ends_the_exchange() {
    let (state, action) = relay_step(RelayState::Replying, RelayEvent::Replied);
    assert!(matches!(state, RelayState::Done));
    assert!(matches!(action, RelayAction::Stop));
}

#[test]
fn events_that_are_not_awaited_end_the_exchange() {
    let cases = [
        (RelayState::Idle, RelayEvent::FetchFailed),
        (RelayState::Idle, head(Some("text/calendar"))),
        (fetching(&[]), request(Some("http://example.org/"), None)),
        (fetching(&[]), RelayEvent::Body),
        (RelayState::ReadingOther, RelayEvent::Text { text: String::new() }),
        (RelayState::ReadingCalendar { exclusions: Vec::new() }, RelayEvent::Body),
        (RelayState::Replying, RelayEvent::BodyFailed),
        (RelayState::Done, request(None, None)),
        (RelayState::Done, RelayEvent::Replied),
    ];
    for (state, event) in cases {
        let (state, action) = relay_step(state, event);
        assert!(matches!(state, RelayState::Done));
        assert!(matches!(action, RelayAction::Stop));
    }
}

#[test]
fn a_whole_exchange() {
    let (state, action) =
        relay_step(RelayState::Idle, request(Some("https://example.org/c.ics"), Some("standup")));
    assert!(matches!(action, RelayAction::Fetch { .. }));
    let (state, action) = relay_step(state, head(Some("text/calendar")));
    assert!(matches!(action, RelayAction::ReadText));
    let text = "BEGIN:VCALENDAR\r\nBEGIN:VEVENT\r\nSUMMARY:Standup\r\nEND:VEVENT\r\nEND:VCALENDAR\r\n";
    let (state, action) = relay_step(state, RelayEvent::Text { text: text.to_string() });
    assert!(matches!(action, RelayAction::Replace { ref body }
        if body == "BEGIN:VCALENDAR\r\nEND:VCALENDAR\r\n"));
    let (state, action) = relay_step(state, RelayEvent::Replied);
    assert!(matches!(state, RelayState::Done));
    assert!(matches!(action, RelayAction::Stop));
}

#[test]
fn failures_and_their_answers() {
    let answers = [
        (Failure::InvalidScheme, 400, "Invalid URL. Must start with http:// or https://"),
        (Failure::InvalidUrl, 400, "Invalid URL format"),
        (Failure::Upstream, 500, "Failed to proxy request"),
        (Failure::BodyRead, 500, "Failed to read response body"),
        (Failure::ResponseBuild, 500, "Failed to create response"),
    ];
    for (failure, status, message) in answers {
        assert_eq!(failure.status(), status);
        assert_eq!(failure.message(), message);
    }
}
