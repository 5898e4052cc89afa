use task_ledger::error::LedgerError;
use task_ledger::item::Item;
use task_ledger::ledger::Ledger;

fn item(content: &str, checked: bool, board: &str, note: bool) -> Item {
    Item {
        content: content.to_string(),
        checked,
        is_note: note,
        board_name: board.to_string(),
        created_at: "2024-01-01 12:00:00".to_string(),
    }
}

fn ledger_of(items: Vec<Item>) -> Ledger {
    Ledger { items }
}

fn toks(words: &[&str]) -> Vec<String> {
    words.iter().map(|w| w.to_string()).collect()
}

#[test]
fn add_without_marker_goes_to_default_board() {
    let mut l = Ledger::new();
    l.add_with_time(&toks(&["buy", "milk"]), false, "2024-01-01 12:00:00".to_string())
        .unwrap();
    assert_eq!(l.items.len(), 1);
    assert_eq!(l.items[0].content, "buy milk");
    assert_eq!(l.items[0].board_name, "Tasks");
    assert!(!l.items[0].checked);
    assert!(!l.items[0].is_note);
}

#[test]
fn add_with_marker_names_the_board() {
    let mut l = Ledger::new();
    l.add_with_time(&toks(&["!Work", "buy", "milk"]), false, "2024-01-01 12:00:00".to_string())
        .unwrap();
    assert_eq!(l.items[0].board_name, "Work");
    assert_eq!(l.items[0].content, "buy milk");
}

#[test]
fn add_with_marker_in_one_token_splits_at_first_space() {
    let mut l = Ledger::new();
    l.add_with_time(&toks(&["!Work buy milk"]), false, "2024-01-01 12:00:00".to_string())
        .unwrap();
    assert_eq!(l.items[0].board_name, "Work");
    assert_eq!(l.items[0].content, "buy milk");
}

#[test]
fn add_with_marker_alone_is_missing_content() {
    let mut l = Ledger::new();
    match l.add_with_time(&toks(&["!Work"]), false, "2024-01-01 12:00:00".to_string()) {
        Err(LedgerError::MissingContent) => {}
        other => panic!("expected MissingContent, got {:?}", other),
    }
    assert!(l.items.is_empty());
}

#[test]
fn toggle_flips_and_double_toggle_restores() {
    let mut l = ledger_of(vec![
        item("a", false, "Tasks", false),
        item("b", true, "Tasks", false),
        item("c", false, "Work", false),
    ]);
    l.toggle(&vec![1, 3]).unwrap();
    assert!(l.items[0].checked);
    assert!(l.items[1].checked);
    assert!(l.items[2].checked);
    l.toggle(&vec![1, 3]).unwrap();
    assert!(!l.items[0].checked);
    assert!(l.items[1].checked);
    assert!(!l.items[2].checked);
}

#[test]
fn toggle_a_note_is_refused_before_any_change() {
    let mut l = ledger_of(vec![
        item("a", false, "Tasks", false),
        item("memo", false, "Tasks", true),
    ]);
    match l.toggle(&vec![1, 2]) {
        Err(LedgerError::NotATask(p)) => assert_eq!(p, 2),
        other => panic!("expected NotATask, got {:?}", other),
    }
    assert!(!l.items[0].checked);
}

#[test]
fn toggle_out_of_range_is_not_a_task() {
    let mut l = ledger_of(vec![item("a", false, "Tasks", false)]);
    match l.toggle(&vec![2]) {
        Err(LedgerError::NotATask(p)) => assert_eq!(p, 2),
        other => panic!("expected NotATask, got {:?}", other),
    }
}

#[test]
fn delete_removes_requested_items_despite_order_and_duplicates() {
    let mut asc = ledger_of(vec![
        item("one", false, "Tasks", false),
        item("two", false, "Tasks", false),
        item("three", false, "Tasks", false),
        item("four", false, "Tasks", false),
        item("five", false, "Tasks", false),
    ]);
    let mut desc = ledger_of(vec![
        item("one", false, "Tasks", false),
        item("two", false, "Tasks", false),
        item("three", false, "Tasks", false),
        item("four", false, "Tasks", false),
        item("five", false, "Tasks", false),
    ]);
    asc.delete(&vec![2, 4, 2]).unwrap();
    desc.delete(&vec![4, 2]).unwrap();
    let left: Vec<&str> = asc.items.iter().map(|i| i.content.as_str()).collect();
    assert_eq!(left, vec!["one", "three", "five"]);
    let left2: Vec<&str> = desc.items.iter().map(|i| i.content.as_str()).collect();
    assert_eq!(left2, vec!["one", "three", "five"]);
    assert_eq!(asc.len(), 3);
}

#[test]
fn delete_position_zero_fails_distinctly() {
    let mut l = ledger_of(vec![item("a", false, "Tasks", false)]);
    match l.delete(&vec![0]) {
        Err(LedgerError::InvalidNumber(t)) => assert_eq!(t, "0"),
        other => panic!("expected InvalidNumber, got {:?}", other),
    }
    match l.delete(&vec![9]) {
        Err(LedgerError::PositionOutOfRange(p)) => assert_eq!(p, 9),
        other => panic!("expected PositionOutOfRange, got {:?}", other),
    }
    assert_eq!(l.items.len(), 1);
}

#[test]
fn delete_everything_leaves_an_empty_ledger() {
    let mut l = ledger_of(vec![
        item("a", false, "Tasks", false),
        item("b", false, "Tasks", false),
    ]);
    l.delete(&vec![1, 2]).unwrap();
    assert!(l.items.is_empty());
}

#[test]
fn clear_partitions_and_preserves_order() {
    let mut l = ledger_of(vec![
        item("A", true, "Tasks", false),
        item("B", false, "Tasks", false),
        item("C", true, "Work", false),
    ]);
    let moved = l.clear();
    let active: Vec<&str> = l.items.iter().map(|i| i.content.as_str()).collect();
    let archived: Vec<&str> = moved.iter().map(|i| i.content.as_str()).collect();
    assert_eq!(active, vec!["B"]);
    assert_eq!(archived, vec!["A", "C"]);
    let moved_again = l.clear();
    assert!(moved_again.is_empty());
    assert_eq!(l.items.len(), 1);
}

#[test]
fn sort_on_load_orders_default_then_custom_boards() {
    let mut l = ledger_of(vec![
        item("w1", false, "Work", false),
        item("t1", false, "Tasks", false),
        item("x1", false, "Xen", false),
        item("w2", false, "Work", false),
    ]);
    let changed = l.sort_on_load();
    let order: Vec<&str> = l.items.iter().map(|i| i.content.as_str()).collect();
    assert_eq!(order, vec!["t1", "w1", "w2", "x1"]);
    assert!(changed);
    let changed_again = l.sort_on_load();
    assert!(!changed_again);
}

#[test]
fn toggle_applies_each_occurrence() {
    let mut l = ledger_of(vec![
        item("a", false, "Tasks", false),
        item("b", false, "Tasks", false),
    ]);
    l.toggle(&vec![1, 1]).unwrap();
    assert!(!l.items[0].checked);
    l.toggle(&vec![2, 2, 2]).unwrap();
    assert!(l.items[1].checked);
}

#[test]
fn add_strips_every_marker_from_the_board_name() {
    let mut l = Ledger::new();
    l.add_with_time(&toks(&["!Wo!rk!", "x"]), false, "2024-01-01 12:00:00".to_string())
        .unwrap();
    assert_eq!(l.items[0].board_name, "Work");
    assert_eq!(l.items[0].content, "x");
}

#[test]
fn totals_exclude_notes_from_tasks() {
    let l = ledger_of(vec![
        item("t1", true, "Tasks", false),
        item("n1", false, "Tasks", true),
        item("t2", false, "Work", false),
    ]);
    assert_eq!(l.len(), 3);
    assert_eq!(l.total_notes(), 1);
    assert_eq!(l.total_tasks(), 2);
    assert_eq!(l.total_checked(), 1);
}
