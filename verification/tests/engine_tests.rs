use task_ledger::boards::Board;
use task_ledger::engine::{App, Command};
use task_ledger::error::LedgerError;
use task_ledger::item::Item;
use task_ledger::ledger::Ledger;

fn item(content: &str, checked: bool, board: &str, note: bool) -> Item {
    Item {
        content: content.to_string(),
        checked,
        is_note: note,
        board_name: board.to_string(),
        created_at: "2024-01-01 12:00:00".to_string(),
    }
}

fn toks(words: &[&str]) -> Vec<String> {
    words.iter().map(|w| w.to_string()).collect()
}

#[test]
fn board_aggregation_counts_notes_in_total_only() {
    let l = Ledger {
        items: vec![
            item("T1", true, "Tasks", false),
            item("N1", false, "Tasks", true),
            item("T2", false, "Work", false),
        ],
    };
    let boards: Vec<Board> = l.get_boards();
    assert_eq!(boards.len(), 2);
    assert_eq!(boards[0].name, "Work");
    assert_eq!(boards[0].total, 1);
    assert_eq!(boards[0].completed, 0);
    assert_eq!(boards[1].name, "Tasks");
    assert_eq!(boards[1].total, 2);
    assert_eq!(boards[1].completed, 1);
    let tasks_items: Vec<&str> = boards[1].items.iter().map(|i| i.content.as_str()).collect();
    assert_eq!(tasks_items, vec!["T1", "N1"]);
}

#[test]
fn default_board_is_reported_even_when_empty() {
    let l = Ledger { items: vec![item("w", false, "Work", false)] };
    let boards = l.get_boards();
    assert_eq!(boards.len(), 2);
    assert_eq!(boards[1].name, "Tasks");
    assert_eq!(boards[1].total, 0);
    assert_eq!(boards[1].completed, 0);
}

#[test]
fn apply_add_asks_for_one_write() {
    let mut l = Ledger::new();
    let e = l.apply(Command::Add { args: toks(&["hello"]), is_note: false });
    assert!(e.error.is_none());
    assert!(e.write_active);
    assert!(!e.write_archive);
    assert_eq!(l.items.len(), 1);
}

#[test]
fn apply_refused_command_writes_nothing() {
    let mut l = Ledger { items: vec![item("a", false, "Tasks", false)] };
    let e = l.apply(Command::Delete { tokens: toks(&["7"]) });
    match e.error {
        Some(LedgerError::PositionOutOfRange(p)) => assert_eq!(p, 7),
        other => panic!("expected PositionOutOfRange, got {:?}", other),
    }
    assert!(!e.write_active);
    assert!(!e.write_archive);
    assert_eq!(l.items.len(), 1);
}

#[test]
fn apply_toggle_range_checks_the_interval() {
    let mut l = Ledger {
        items: vec![
            item("a", false, "Tasks", false),
            item("b", false, "Tasks", false),
            item("c", false, "Tasks", false),
        ],
    };
    let e = l.apply(Command::Toggle { tokens: toks(&["1-2"]) });
    assert!(e.error.is_none());
    assert!(l.items[0].checked);
    assert!(l.items[1].checked);
    assert!(!l.items[2].checked);
}

#[test]
fn apply_clear_twice_touches_files_once() {
    let mut l = Ledger {
        items: vec![
            item("A", true, "Tasks", false),
            item("B", false, "Tasks", false),
        ],
    };
    let first = l.apply(Command::Clear);
    assert!(first.error.is_none());
    assert!(first.write_active);
    assert!(first.write_archive);
    assert_eq!(first.archive_appendix.len(), 1);
    assert_eq!(first.archive_appendix[0].content, "A");
    let second = l.apply(Command::Clear);
    assert!(second.error.is_none());
    assert!(!second.write_active);
    assert!(!second.write_archive);
    assert!(second.archive_appendix.is_empty());
    assert_eq!(l.items.len(), 1);
}

#[test]
fn apply_bad_number_reports_the_token() {
    let mut l = Ledger::new();
    let e = l.apply(Command::Toggle { tokens: toks(&["0"]) });
    match e.error {
        Some(LedgerError::InvalidNumber(t)) => assert_eq!(t, "0"),
        other => panic!("expected InvalidNumber, got {:?}", other),
    }
}

#[test]
fn app_add_skips_the_note_verb() {
    let mut app = App { db: Ledger::new(), args: toks(&["n", "remember", "this"]) };
    app.add(true).unwrap();
    assert_eq!(app.db.items.len(), 1);
    assert_eq!(app.db.items[0].content, "remember this");
    assert!(app.db.items[0].is_note);
    assert_eq!(app.db.items[0].board_name, "Tasks");
}

#[test]
fn app_add_uses_every_token_for_a_task() {
    let mut app = App { db: Ledger::new(), args: toks(&["!Home", "water", "plants"]) };
    app.add(false).unwrap();
    assert_eq!(app.db.items[0].content, "water plants");
    assert_eq!(app.db.items[0].board_name, "Home");
}

#[test]
fn app_add_without_payload_is_refused() {
    let mut app = App { db: Ledger::new(), args: toks(&["n"]) };
    match app.add(true) {
        Err(LedgerError::MissingContent) => {}
        other => panic!("expected MissingContent, got {:?}", other),
    }
    assert!(app.db.items.is_empty());
}
