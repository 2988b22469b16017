use cal_proxy::text::{
    chars_of, has_prefix, has_substring, join_crlf, matches_at, same_text, split_lines, text_of,
};

fn chars(text: &str) -> Vec<char> {
    text.chars().collect()
}

fn strings(lines: &[&str]) -> Vec<String> {
    lines.iter().map(|line| line.to_string()).collect()
}

#[test]
fn characters_of_a_text() {
    assert_eq!(chars_of("a\u{e9}\u{1f600}"), vec!['a', '\u{e9}', '\u{1f600}']);
    assert_eq!(chars_of(""), Vec::<char>::new());
}

#[test]
fn text_of_a_range() {
    let all = chars("héllo");
    assert_eq!(text_of(&all, 0, 5), "héllo");
    assert_eq!(text_of(&all, 1, 3), "él");
    assert_eq!(text_of(&all, 2, 2), "");
}

#[test]
fn prefixes() {
    assert!(has_prefix(&chars("DTSTART:1"), &chars("DTSTART")));
    assert!(has_prefix(&chars("DTSTART"), &chars("DTSTART")));
    assert!(has_prefix(&chars("x"), &chars("")));
    assert!(has_prefix(&chars(""), &chars("")));
    assert!(!has_prefix(&chars("DTSTAR"), &chars("DTSTART")));
    assert!(!has_prefix(&chars(" DTSTART"), &chars("DTSTART")));
}

#[test]
fn substrings() {
    assert!(has_substring(&chars("daily standup"), &chars("stand")));
    assert!(has_substring(&chars("daily standup"), &chars("daily")));
    assert!(has_substring(&chars("daily standup"), &chars("up")));
    assert!(has_substring(&chars("daily standup"), &chars("")));
    assert!(has_substring(&chars(""), &chars("")));
    assert!(has_substring(&chars("aab"), &chars("ab")));
    assert!(!has_substring(&chars("daily standup"), &chars("Stand")));
    assert!(!has_substring(&chars("ab"), &chars("abc")));
    assert!(!has_substring(&chars(""), &chars("a")));
}

#[test]
fn occurrence_at_a_position() {
    let hay = chars("abcabc");
    assert!(matches_at(&hay, &chars("abc"), 0));
    assert!(matches_at(&hay, &chars("abc"), 3));
    assert!(matches_at(&hay, &chars(""), 6));
    assert!(!matches_at(&hay, &chars("abc"), 1));
    assert!(!matches_at(&hay, &chars("abc"), 4));
    assert!(!matches_at(&hay, &chars(""), 7));
    assert!(!matches_at(&hay, &chars("abc"), usize::MAX));
}

#[test]
fn equal_texts() {
    assert!(same_text(&chars("END:VEVENT"), &chars("END:VEVENT")));
    assert!(same_text(&chars(""), &chars("")));
    assert!(!same_text(&chars("END:VEVENT"), &chars("END:VEVENT ")));
    assert!(!same_text(&chars("END:VEVENT"), &chars("END:VEVENt")));
}

#[test]
fn lines_of_a_text() {
    assert_eq!(split_lines(""), Vec::<String>::new());
    assert_eq!(split_lines("a"), strings(&["a"]));
    assert_eq!(split_lines("a\n"), strings(&["a"]));
    assert_eq!(split_lines("a\r\n"), strings(&["a"]));
    assert_eq!(split_lines("a\nb"), strings(&["a", "b"]));
    assert_eq!(split_lines("a\r\nb\r\n"), strings(&["a", "b"]));
    assert_eq!(split_lines("\n"), strings(&[""]));
    assert_eq!(split_lines("\r\n"), strings(&[""]));
    assert_eq!(split_lines("\n\n"), strings(&["", ""]));
    assert_eq!(split_lines("a\n\nb"), strings(&["a", "", "b"]));
    assert_eq!(split_lines("a\rb"), strings(&["a\rb"]));
    assert_eq!(split_lines("a\r"), strings(&["a\r"]));
    assert_eq!(split_lines("a\r\r\n"), strings(&["a\r"]));
    assert_eq!(split_lines("\r"), strings(&["\r"]));
}

#[test]
fn lines_agree_with_the_standard_library() {
    let texts = ["", "a", "a\n", "a\r\nb", "\r\n\r\n", "x\r\r\ny\r", "\n\r\n\r", "é\n\u{1f600}\r\n"];
    for text in texts {
        let expected: Vec<String> = text.lines().map(|line| line.to_string()).collect();
        assert_eq!(split_lines(text), expected);
    }
}

#[test]
fn joined_lines() {
    assert_eq!(join_crlf(&Vec::new()), "");
    assert_eq!(join_crlf(&strings(&["a"])), "a\r\n");
    assert_eq!(join_crlf(&strings(&["a", "", "b\r"])), "a\r\n\r\nb\r\r\n");
}

#[test]
fn joining_then_splitting_gives_the_lines_back() {
    let lines = strings(&["BEGIN:VEVENT", "", "x\r", "END:VEVENT"]);
    assert_eq!(split_lines(&join_crlf(&lines)), lines);
}
