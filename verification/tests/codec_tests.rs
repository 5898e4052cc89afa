use task_ledger::codec::{parse_store, render_store};
use task_ledger::error::LedgerError;
use task_ledger::item::Item;

fn item(content: &str, checked: bool, board: &str, note: bool, date: &str) -> Item {
    Item {
        content: content.to_string(),
        checked,
        is_note: note,
        board_name: board.to_string(),
        created_at: date.to_string(),
    }
}

#[test]
fn empty_text_is_an_empty_ledger() {
    let items = parse_store("").unwrap();
    assert!(items.is_empty());
}

#[test]
fn unparsable_text_is_a_corrupt_store() {
    match parse_store("hello world") {
        Err(LedgerError::CorruptStore) => {}
        other => panic!("expected CorruptStore, got {:?}", other),
    }
    match parse_store("[[tasks]]\nitem = \"unterminated") {
        Err(LedgerError::CorruptStore) => {}
        other => panic!("expected CorruptStore, got {:?}", other),
    }
}

#[test]
fn one_record_renders_exactly() {
    let v = vec![item("buy milk", false, "Tasks", false, "2024-01-01 12:00:00")];
    let text = render_store(&v);
    assert_eq!(
        text,
        "[[tasks]]\nitem = \"buy milk\"\nchecked = false\nboard_name = \"Tasks\"\nnote = false\ndate = \"2024-01-01 12:00:00\"\n"
    );
}

#[test]
fn rendered_text_parses_back() {
    let v = vec![
        item("say \"hi\"", true, "Work", false, "2024-02-02 08:30:00"),
        item("line\nbreak\tand \\slash\r", false, "Tasks", true, "2023-12-31 23:59:59"),
    ];
    let text = render_store(&v);
    let back = parse_store(text.as_str()).unwrap();
    assert_eq!(back.len(), 2);
    assert_eq!(back[0].content, "say \"hi\"");
    assert!(back[0].checked);
    assert_eq!(back[0].board_name, "Work");
    assert!(!back[0].is_note);
    assert_eq!(back[0].created_at, "2024-02-02 08:30:00");
    assert_eq!(back[1].content, "line\nbreak\tand \\slash\r");
    assert!(back[1].is_note);
    assert!(!back[1].checked);
}

#[test]
fn parse_reads_a_handwritten_record() {
    let text = "[[tasks]]\nitem = \"a \\\"quoted\\\" word\"\nchecked = true\nboard_name = \"Tasks\"\nnote = false\ndate = \"2024-01-01 00:00:00\"\n";
    let items = parse_store(text).unwrap();
    assert_eq!(items.len(), 1);
    assert_eq!(items[0].content, "a \"quoted\" word");
    assert!(items[0].checked);
}

#[test]
fn trailing_garbage_corrupts_the_store() {
    let v = vec![item("a", false, "Tasks", false, "2024-01-01 12:00:00")];
    let mut text = render_store(&v);
    text.push_str("extra");
    match parse_store(text.as_str()) {
        Err(LedgerError::CorruptStore) => {}
        other => panic!("expected CorruptStore, got {:?}", other),
    }
}

#[test]
fn bad_escape_corrupts_the_store() {
    let text = "[[tasks]]\nitem = \"bad \\x escape\"\nchecked = false\nboard_name = \"Tasks\"\nnote = false\ndate = \"d\"\n";
    match parse_store(text) {
        Err(LedgerError::CorruptStore) => {}
        other => panic!("expected CorruptStore, got {:?}", other),
    }
}

#[test]
fn string_helpers_round_trip() {
    let v = task_ledger::text::chars_of("héllo ☀");
    let s = task_ledger::text::string_of(&v);
    assert_eq!(s, "héllo ☀");
}
