use cal_proxy::generate_html;
use cal_proxy::relay::{
    is_calendar_response, is_http_target, keep_header, parse_exclusions, split_fields,
};

fn strings(lines: &[&str]) -> Vec<String> {
    lines.iter().map(|line| line.to_string()).collect()
}

#[test]
fn help_page_carries_the_version() {
    assert_eq!(generate_html("<p>v{{VERSION}}</p>", "1.2.3"), "<p>v1.2.3</p>");
    assert_eq!(generate_html("{{VERSION}}{{VERSION}}", "7"), "77");
    assert_eq!(generate_html("{{VERSION}", "7"), "{{VERSION}");
    assert_eq!(generate_html("{{{VERSION}}}", "7"), "{7}");
    assert_eq!(generate_html("{{version}}", "7"), "{{version}}");
    assert_eq!(generate_html("no mark", "7"), "no mark");
    assert_eq!(generate_html("", "7"), "");
    assert_eq!(generate_html("a{{VERSION}}b", ""), "ab");
    assert_eq!(generate_html("{{VERSION}}", "{{VERSION}}"), "{{VERSION}}");
}

#[test]
fn help_page_agrees_with_the_standard_library() {
    let templates = ["{{VERSION}}", "x{{VERSION}}y{{VERSION}}", "{{{{VERSION}}}}", "{{VERSION}{{VERSION}}", "é{{VERSION}}ü"];
    for template in templates {
        assert_eq!(generate_html(template, "0.1.0"), template.replace("{{VERSION}}", "0.1.0"));
    }
}

#[test]
fn fields_between_commas() {
    assert_eq!(split_fields("a,b"), strings(&["a", "b"]));
    assert_eq!(split_fields("standup"), strings(&["standup"]));
    assert_eq!(split_fields(""), strings(&[""]));
    assert_eq!(split_fields(","), strings(&["", ""]));
    assert_eq!(split_fields("a,,b,"), strings(&["a", "", "b", ""]));
    assert_eq!(split_fields(" a , b "), strings(&[" a ", " b "]));
}

#[test]
fn exclusions_of_a_request() {
    assert_eq!(parse_exclusions(None), Vec::<String>::new());
    assert_eq!(parse_exclusions(Some("")), strings(&[""]));
    assert_eq!(parse_exclusions(Some("standup,lunch")), strings(&["standup", "lunch"]));
}

#[test]
fn targets_need_an_http_scheme() {
    assert!(is_http_target("http://example.org/cal.ics"));
    assert!(is_http_target("https://example.org/cal.ics"));
    assert!(is_http_target("http://"));
    assert!(!is_http_target("ftp://example.org"));
    assert!(!is_http_target("example.org"));
    assert!(!is_http_target("HTTP://example.org"));
    assert!(!is_http_target(" http://example.org"));
    assert!(!is_http_target("http:/example.org"));
    assert!(!is_http_target(""));
}

#[test]
fn calendar_responses() {
    assert!(is_calendar_response(Some("text/calendar")));
    assert!(is_calendar_response(Some("text/calendar; charset=utf-8")));
    assert!(is_calendar_response(Some("application/x-text/calendar")));
    assert!(!is_calendar_response(Some("Text/Calendar")));
    assert!(!is_calendar_response(Some("text/html")));
    assert!(!is_calendar_response(Some("")));
    assert!(!is_calendar_response(None));
}

#[test]
fn content_length_is_dropped_with_a_new_body() {
    assert!(!keep_header("content-length", true));
    assert!(!keep_header("Content-Length", true));
    assert!(!keep_header("CONTENT-LENGTH", true));
    assert!(keep_header("content-length", false));
    assert!(keep_header("Content-Length", false));
    assert!(keep_header("content_length", true));
    assert!(keep_header("content-lengt\u{0127}", true));
    assert!(keep_header("content-type", true));
    assert!(keep_header("content-type", false));
    assert!(keep_header("x-content-length", true));
    assert!(keep_header("", true));
}
