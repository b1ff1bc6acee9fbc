use tmcli::json::{encode_tasks, parse_tasks};
use tmcli::task::Task;
use tmcli::text::chars_of;

fn parse_str(text: &str) -> Option<Vec<Task>> {
    parse_tasks(&chars_of(text))
}

#[test]
fn encode_empty_list() {
    assert_eq!(encode_tasks(&Vec::new()), "[]");
}

#[test]
fn parse_empty_array() {
    let tasks = parse_str("[]").unwrap();
    assert_eq!(tasks.len(), 0);
}

#[test]
fn encode_escapes_quote_backslash_and_controls() {
    let task = Task::new("a\"b\\c".to_string(), "line1\nline2\ttab".to_string());
    let text = encode_tasks(&vec![task]);
    assert_eq!(
        text,
        "[{\"title\":\"a\\\"b\\\\c\",\"description\":\"line1\\u000aline2\\u0009tab\",\"completed\":\"false\"}]"
    );
}

#[test]
fn round_trip_keeps_every_field() {
    let mut done = Task::new("Café ☕".to_string(), "with \"quotes\" and \\slashes\\".to_string());
    done.mark_completed();
    let tasks = vec![
        done,
        Task::new("".to_string(), "empty title at the text level".to_string()),
        Task::new("spaced  out".to_string(), "".to_string()),
        Task::new("control\u{1}char".to_string(), "tab\there".to_string()),
    ];
    let text = encode_tasks(&tasks);
    let back = parse_str(&text).unwrap();
    assert_eq!(back.len(), tasks.len());
    for (a, b) in tasks.iter().zip(back.iter()) {
        assert_eq!(a.title, b.title);
        assert_eq!(a.description, b.description);
        assert_eq!(a.completed, b.completed);
    }
}

#[test]
fn parse_accepts_any_key_order() {
    let tasks =
        parse_str("[{\"completed\":\"true\",\"title\":\"A\",\"description\":\"B\"}]").unwrap();
    assert_eq!(tasks.len(), 1);
    assert_eq!(tasks[0].title, "A");
    assert_eq!(tasks[0].description, "B");
    assert!(tasks[0].completed);
}

#[test]
fn parse_accepts_bare_boolean_literals() {
    let tasks = parse_str(
        "[{\"title\":\"A\",\"description\":\"B\",\"completed\":true},{\"title\":\"C\",\"description\":\"D\",\"completed\":false}]",
    )
    .unwrap();
    assert!(tasks[0].completed);
    assert!(!tasks[1].completed);
}

#[test]
fn parse_decodes_short_and_hex_escapes() {
    let tasks = parse_str(
        "[{\"title\":\"a\\u0009b\\nc\\\"d\\\\e\\/f\",\"description\":\"\",\"completed\":\"false\"}]",
    )
    .unwrap();
    assert_eq!(tasks[0].title, "a\tb\nc\"d\\e/f");
}

#[test]
fn parse_rejects_malformed_text() {
    assert!(parse_str("").is_none());
    assert!(parse_str("{}").is_none());
    assert!(parse_str("[").is_none());
    assert!(parse_str("[]extra").is_none());
    assert!(parse_str("[{\"title\":\"A\"}]").is_none());
    assert!(parse_str("[{\"title\":\"A\",\"title\":\"B\",\"completed\":\"true\"}]").is_none());
    assert!(
        parse_str("[{\"title\":\"A\",\"description\":\"B\",\"completed\":\"maybe\"}]").is_none()
    );
    assert!(parse_str("[{\"title\":true,\"description\":\"B\",\"completed\":\"true\"}]").is_none());
    assert!(parse_str("[{\"title\":\"A\",\"description\":\"B\",\"completed\":\"true\"},]").is_none());
}
