use tmcli::store::{LoadError, TaskManager};

#[test]
fn load_missing_file_yields_empty() {
    let loaded = TaskManager::load_tasks(None).unwrap();
    assert_eq!(loaded.len(), 0);
    let mgr = TaskManager::new("tasks.json", None);
    assert_eq!(mgr.tasks().len(), 0);
}

#[test]
fn load_malformed_text_is_parse_error() {
    assert_eq!(TaskManager::load_tasks(Some("not json")).unwrap_err(), LoadError::Parse);
    assert_eq!(TaskManager::load_tasks(Some("")).unwrap_err(), LoadError::Parse);
    assert_eq!(TaskManager::load_tasks(Some("[{}]")).unwrap_err(), LoadError::Parse);
}

#[test]
fn construct_on_malformed_text_starts_empty() {
    let mgr = TaskManager::new("tasks.json", Some("{broken"));
    assert_eq!(mgr.tasks().len(), 0);
}

#[test]
fn create_rejects_blank_title() {
    let mut mgr = TaskManager::new("tasks.json", None);
    assert!(!mgr.create_task("", "x"));
    assert!(!mgr.create_task("   ", "x"));
    assert_eq!(mgr.tasks().len(), 0);
}

#[test]
fn create_appends_preserving_order() {
    let mut mgr = TaskManager::new("tasks.json", None);
    assert!(mgr.create_task("A", ""));
    assert!(mgr.create_task("B", ""));
    assert!(mgr.create_task("C", ""));
    let titles: Vec<&str> = mgr.tasks().iter().map(|t| t.title.as_str()).collect();
    assert_eq!(titles, vec!["A", "B", "C"]);
}

#[test]
fn create_trims_title_and_description() {
    let mut mgr = TaskManager::new("tasks.json", None);
    assert!(mgr.create_task("  Buy milk  ", "  2 liters  "));
    assert_eq!(mgr.tasks()[0].title, "Buy milk");
    assert_eq!(mgr.tasks()[0].description, "2 liters");
    assert!(!mgr.tasks()[0].completed);
}

#[test]
fn delete_is_case_insensitive_first_match() {
    let mut mgr = TaskManager::new("tasks.json", None);
    assert!(mgr.create_task("Buy milk", "first"));
    assert!(mgr.create_task("buy milk", "second"));
    let deleted = mgr.delete_task("BUY MILK");
    assert_eq!(deleted.as_deref(), Some("Buy milk"));
    assert_eq!(mgr.tasks().len(), 1);
    assert_eq!(mgr.tasks()[0].description, "second");
}

#[test]
fn delete_absent_title_changes_nothing() {
    let mut mgr = TaskManager::new("tasks.json", None);
    assert!(mgr.create_task("A", ""));
    assert_eq!(mgr.delete_task("Z"), None);
    assert_eq!(mgr.tasks().len(), 1);
    assert_eq!(mgr.tasks()[0].title, "A");
}

#[test]
fn delete_trims_search_title() {
    let mut mgr = TaskManager::new("tasks.json", None);
    assert!(mgr.create_task("chores", ""));
    assert_eq!(mgr.delete_task("  CHORES  ").as_deref(), Some("chores"));
    assert_eq!(mgr.tasks().len(), 0);
}

#[test]
fn list_empty_store_signals_no_tasks() {
    let mgr = TaskManager::new("tasks.json", None);
    assert_eq!(mgr.list_tasks(), vec!["No tasks available.".to_string()]);
}

#[test]
fn save_empty_store_is_empty_array() {
    let mgr = TaskManager::new("tasks.json", None);
    assert_eq!(mgr.save_tasks(), "[]");
}

#[test]
fn save_one_task_exact_text() {
    let mut mgr = TaskManager::new("tasks.json", None);
    assert!(mgr.create_task("A", "B"));
    assert_eq!(
        mgr.save_tasks(),
        "[{\"title\":\"A\",\"description\":\"B\",\"completed\":\"false\"}]"
    );
}

#[test]
fn save_then_load_restores_store() {
    let mut mgr = TaskManager::new("tasks.json", None);
    assert!(mgr.create_task("Buy milk", "2 liters"));
    assert!(mgr.create_task("Café ☕", "ünïcodé text"));
    assert!(mgr.create_task("inner  spaces", ""));
    let text = mgr.save_tasks();
    let reloaded = TaskManager::new("tasks.json", Some(&text));
    assert_eq!(reloaded.tasks().len(), 3);
    for (a, b) in mgr.tasks().iter().zip(reloaded.tasks().iter()) {
        assert_eq!(a.title, b.title);
        assert_eq!(a.description, b.description);
        assert_eq!(a.completed, b.completed);
    }
}

#[test]
fn end_to_end_create_and_list() {
    let mgr_text: Option<&str> = None;
    let mut mgr = TaskManager::new("tasks.json", mgr_text);
    assert!(mgr.create_task("Write report", "Q3 numbers"));
    let lines = mgr.list_tasks();
    assert_eq!(lines.len(), 1);
    assert!(lines[0].contains('✗'));
    assert!(lines[0].contains("Write report"));
    assert!(lines[0].contains("Q3 numbers"));
    assert_eq!(lines[0], "[✗] Write report: Q3 numbers");
}
