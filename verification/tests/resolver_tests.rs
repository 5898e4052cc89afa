use task_ledger::error::LedgerError;
use task_ledger::resolve::resolve;

fn toks(words: &[&str]) -> Vec<String> {
    words.iter().map(|w| w.to_string()).collect()
}

#[test]
fn range_on_ten_item_ledger() {
    let r = resolve(&toks(&["3-5"])).unwrap();
    assert_eq!(r, vec![3, 4, 5]);
}

#[test]
fn range_reversed_is_invalid() {
    match resolve(&toks(&["5-3"])) {
        Err(LedgerError::InvalidRange(a, b)) => {
            assert_eq!(a, 5);
            assert_eq!(b, 3);
        }
        other => panic!("expected InvalidRange, got {:?}", other),
    }
}

#[test]
fn zero_is_never_a_position() {
    match resolve(&toks(&["0"])) {
        Err(LedgerError::InvalidNumber(t)) => assert_eq!(t, "0"),
        other => panic!("expected InvalidNumber, got {:?}", other),
    }
}

#[test]
fn range_split_over_tokens() {
    let r = resolve(&toks(&["3", "-", "5"])).unwrap();
    assert_eq!(r, vec![3, 4, 5]);
}

#[test]
fn range_with_spaces_inside_token() {
    let r = resolve(&toks(&["2 - 4"])).unwrap();
    assert_eq!(r, vec![2, 3, 4]);
}

#[test]
fn single_positions_keep_order_and_duplicates() {
    let r = resolve(&toks(&["2", "7", "2"])).unwrap();
    assert_eq!(r, vec![2, 7, 2]);
}

#[test]
fn first_bad_token_aborts() {
    match resolve(&toks(&["2", "x", "0"])) {
        Err(LedgerError::InvalidNumber(t)) => assert_eq!(t, "x"),
        other => panic!("expected InvalidNumber, got {:?}", other),
    }
}

#[test]
fn empty_token_is_invalid() {
    match resolve(&toks(&[""])) {
        Err(LedgerError::InvalidNumber(t)) => assert_eq!(t, ""),
        other => panic!("expected InvalidNumber, got {:?}", other),
    }
}

#[test]
fn zero_range_end_is_invalid_number() {
    match resolve(&toks(&["0-3"])) {
        Err(LedgerError::InvalidNumber(t)) => assert_eq!(t, "0"),
        other => panic!("expected InvalidNumber, got {:?}", other),
    }
}

#[test]
fn huge_number_is_invalid() {
    match resolve(&toks(&["99999999999999999999999999"])) {
        Err(LedgerError::InvalidNumber(t)) => assert_eq!(t, "99999999999999999999999999"),
        other => panic!("expected InvalidNumber, got {:?}", other),
    }
}

#[test]
fn no_tokens_resolve_to_nothing() {
    let r = resolve(&Vec::new()).unwrap();
    assert!(r.is_empty());
}
