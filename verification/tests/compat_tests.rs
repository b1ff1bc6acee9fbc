//! Cross-checks of the library's serialized form against a general JSON
//! implementation: what the library writes is plain JSON, and JSON written
//! the reference way (objects of three stringified fields, in whatever
//! key order the map yields) loads back into the library.

use std::collections::HashMap;

use tmcli::json::{encode_tasks, parse_tasks};
use tmcli::task::Task;
use tmcli::text::chars_of;

#[test]
fn library_output_is_plain_json() {
    let mut done = Task::new("Café ☕".to_string(), "with \"quotes\"".to_string());
    done.mark_completed();
    let tasks = vec![done, Task::new("plain".to_string(), "line1\nline2".to_string())];
    let text = encode_tasks(&tasks);

    let decoded: Vec<HashMap<String, String>> = serde_json::from_str(&text).unwrap();
    assert_eq!(decoded.len(), 2);
    assert_eq!(decoded[0]["title"], "Café ☕");
    assert_eq!(decoded[0]["description"], "with \"quotes\"");
    assert_eq!(decoded[0]["completed"], "true");
    assert_eq!(decoded[1]["title"], "plain");
    assert_eq!(decoded[1]["description"], "line1\nline2");
    assert_eq!(decoded[1]["completed"], "false");
}

#[test]
fn reference_style_json_loads_back() {
    let mut records: Vec<HashMap<String, String>> = Vec::new();
    let mut first = HashMap::new();
    first.insert("title".to_string(), "Büy milk ✓".to_string());
    first.insert("description".to_string(), "2 liters\nsoon".to_string());
    first.insert("completed".to_string(), "true".to_string());
    records.push(first);
    let mut second = HashMap::new();
    second.insert("title".to_string(), "B".to_string());
    second.insert("description".to_string(), "".to_string());
    second.insert("completed".to_string(), "false".to_string());
    records.push(second);

    let text = serde_json::to_string(&records).unwrap();
    let tasks = parse_tasks(&chars_of(&text)).unwrap();
    assert_eq!(tasks.len(), 2);
    assert_eq!(tasks[0].title, "Büy milk ✓");
    assert_eq!(tasks[0].description, "2 liters\nsoon");
    assert!(tasks[0].completed);
    assert_eq!(tasks[1].title, "B");
    assert_eq!(tasks[1].description, "");
    assert!(!tasks[1].completed);
}
