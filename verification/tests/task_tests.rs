use tmcli::task::Task;

#[test]
fn new_task_starts_incomplete() {
    let t = Task::new("Buy milk".to_string(), "2 liters".to_string());
    assert_eq!(t.title, "Buy milk");
    assert_eq!(t.description, "2 liters");
    assert!(!t.completed);
}

#[test]
fn marking_flips_the_flag() {
    let mut t = Task::new("A".to_string(), "".to_string());
    t.mark_completed();
    assert!(t.completed);
    t.mark_completed();
    assert!(t.completed);
    t.mark_incomplete();
    assert!(!t.completed);
}

#[test]
fn to_dict_gives_stringified_fields() {
    let mut t = Task::new("A".to_string(), "B".to_string());
    let d = t.to_dict();
    assert_eq!(
        d,
        vec![
            ("title".to_string(), "A".to_string()),
            ("description".to_string(), "B".to_string()),
            ("completed".to_string(), "false".to_string()),
        ]
    );
    t.mark_completed();
    assert_eq!(t.to_dict()[2], ("completed".to_string(), "true".to_string()));
}

#[test]
fn display_string_shows_glyph_title_and_description() {
    let mut t = Task::new("Buy milk".to_string(), "2 liters".to_string());
    assert_eq!(t.to_display_string(), "[✗] Buy milk: 2 liters");
    t.mark_completed();
    assert_eq!(t.to_display_string(), "[✓] Buy milk: 2 liters");
}
