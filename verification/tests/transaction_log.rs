use transaction_log::cursor::ListIterator;
use transaction_log::log::TransactionLog;

/// Collect the remaining values of a cursor by advancing it forward.
fn collect_forward(it: &mut ListIterator) -> Vec<String> {
    let mut values: Vec<String> = Vec::new();
    while let Some(value) = it.next() {
        values.push(value);
    }
    values
}

/// Collect the remaining values of a cursor by advancing it backward.
fn collect_backward(it: &mut ListIterator) -> Vec<String> {
    let mut values: Vec<String> = Vec::new();
    while let Some(value) = it.next_back() {
        values.push(value);
    }
    values
}

#[test]
fn new_transaction_log_can_be_created() {
    let tl = TransactionLog::new();

    assert_eq!(tl.length, 0);
}

#[test]
fn items_can_be_appended_and_popped_from_transaction_log() {
    let mut tl = TransactionLog::new();
    tl.append("Log Item 1".to_string());
    tl.append("Log Item 2".to_string());
    tl.append("Log Item 3".to_string());

    assert_eq!(tl.length, 3);
    assert_eq!(tl.pop(), Some("Log Item 1".to_string()));
    assert_eq!(tl.pop(), Some("Log Item 2".to_string()));
    assert_eq!(tl.pop(), Some("Log Item 3".to_string()));
    assert_eq!(tl.pop(), None);
}

#[test]
fn transaction_log_can_be_forward_iterated() {
    let mut tl = TransactionLog::new();
    tl.append("Log Item 1".to_string());
    tl.append("Log Item 2".to_string());
    tl.append("Log Item 3".to_string());

    let mut it = tl.iter();
    let collected = collect_forward(&mut it);
    assert_eq!(collected.len(), 3);
    let expected = [
        "Log Item 1".to_string(),
        "Log Item 2".to_string(),
        "Log Item 3".to_string(),
    ];
    for t in collected.iter().zip(expected.iter()) {
        assert_eq!(t.0, t.1)
    }
}

#[test]
fn transaction_log_can_be_backward_iterated() {
    let mut tl = TransactionLog::new();
    tl.append("Log Item 1".to_string());
    tl.append("Log Item 2".to_string());
    tl.append("Log Item 3".to_string());

    let mut it = tl.back_iter();
    let collected = collect_backward(&mut it);
    assert_eq!(collected.len(), 3);
    let expected = [
        "Log Item 3".to_string(),
        "Log Item 2".to_string(),
        "Log Item 1".to_string(),
    ];
    for t in collected.iter().zip(expected.iter()) {
        assert_eq!(t.0, t.1)
    }
}

#[test]
fn length_counts_appended_but_not_popped_entries() {
    let mut tl = TransactionLog::new();
    for i in 0..5 {
        assert_eq!(tl.length, i);
        tl.append(format!("entry {}", i));
        assert_eq!(tl.length, i + 1);
    }
    tl.pop();
    assert_eq!(tl.length, 4);
    tl.pop();
    assert_eq!(tl.length, 3);
    tl.append("one more".to_string());
    assert_eq!(tl.length, 4);
}

#[test]
fn pops_follow_append_order() {
    let mut tl = TransactionLog::new();
    let values = ["w", "x", "y", "z"];
    for v in values.iter() {
        tl.append(v.to_string());
    }
    for v in values.iter() {
        assert_eq!(tl.pop(), Some(v.to_string()));
    }
    assert_eq!(tl.pop(), None);
}

#[test]
fn popping_an_empty_log_signals_empty_and_keeps_length_zero() {
    let mut tl = TransactionLog::new();

    assert_eq!(tl.pop(), None);
    assert_eq!(tl.length, 0);
    assert_eq!(tl.pop(), None);
    assert_eq!(tl.length, 0);
}

#[test]
fn forward_collection_is_reverse_of_backward_collection() {
    let mut tl = TransactionLog::new();
    tl.append("one".to_string());
    tl.append("two".to_string());
    tl.append("three".to_string());

    let forward = collect_forward(&mut tl.iter());
    let mut backward = collect_backward(&mut tl.back_iter());
    backward.reverse();
    assert_eq!(forward, backward);

    let empty = TransactionLog::new();
    let forward = collect_forward(&mut empty.iter());
    let mut backward = collect_backward(&mut empty.back_iter());
    backward.reverse();
    assert_eq!(forward, backward);
    assert_eq!(forward.len(), 0);
}

#[test]
fn advancing_an_exhausted_cursor_is_idempotent() {
    let mut tl = TransactionLog::new();
    tl.append("only".to_string());

    let mut it = tl.iter();
    assert_eq!(it.next(), Some("only".to_string()));
    for _ in 0..3 {
        assert_eq!(it.next(), None);
        assert_eq!(it.next_back(), None);
    }

    let empty = TransactionLog::new();
    let mut it = empty.iter();
    for _ in 0..3 {
        assert_eq!(it.next(), None);
        assert_eq!(it.next_back(), None);
    }
    let mut back = empty.back_iter();
    assert_eq!(back.next_back(), None);
    assert_eq!(back.next(), None);
}

#[test]
fn append_pop_scenario_abc() {
    let mut tl = TransactionLog::new();
    tl.append("A".to_string());
    tl.append("B".to_string());
    tl.append("C".to_string());

    assert_eq!(tl.length, 3);
    assert_eq!(tl.pop(), Some("A".to_string()));
    assert_eq!(tl.pop(), Some("B".to_string()));
    assert_eq!(tl.pop(), Some("C".to_string()));
    assert_eq!(tl.pop(), None);
}

#[test]
fn iteration_scenario_abc() {
    let mut tl = TransactionLog::new();
    tl.append("A".to_string());
    tl.append("B".to_string());
    tl.append("C".to_string());

    let forward = collect_forward(&mut tl.iter());
    assert_eq!(
        forward,
        vec!["A".to_string(), "B".to_string(), "C".to_string()]
    );
    let backward = collect_backward(&mut tl.back_iter());
    assert_eq!(
        backward,
        vec!["C".to_string(), "B".to_string(), "A".to_string()]
    );
}

#[test]
fn head_and_tail_reset_after_draining_to_empty() {
    let mut tl = TransactionLog::new();
    tl.append("A".to_string());
    assert_eq!(tl.pop(), Some("A".to_string()));

    tl.append("B".to_string());
    assert_eq!(tl.length, 1);
    assert_eq!(tl.pop(), Some("B".to_string()));
    assert_eq!(tl.pop(), None);
    assert_eq!(tl.length, 0);
}

#[test]
fn freed_node_storage_is_reused_without_corrupting_the_chain() {
    let mut tl = TransactionLog::new();
    tl.append("A".to_string());
    tl.append("B".to_string());
    tl.append("C".to_string());
    assert_eq!(tl.pop(), Some("A".to_string()));
    assert_eq!(tl.pop(), Some("B".to_string()));
    tl.append("D".to_string());
    tl.append("E".to_string());

    assert_eq!(tl.length, 3);
    let forward = collect_forward(&mut tl.iter());
    assert_eq!(
        forward,
        vec!["C".to_string(), "D".to_string(), "E".to_string()]
    );
    assert_eq!(tl.pop(), Some("C".to_string()));
    assert_eq!(tl.pop(), Some("D".to_string()));
    assert_eq!(tl.pop(), Some("E".to_string()));
    assert_eq!(tl.pop(), None);
}

#[test]
fn a_cursor_reads_the_current_entry_before_moving_in_either_direction() {
    let mut tl = TransactionLog::new();
    tl.append("A".to_string());
    tl.append("B".to_string());
    tl.append("C".to_string());

    let mut it = tl.iter();
    assert_eq!(it.next(), Some("A".to_string()));
    assert_eq!(it.next(), Some("B".to_string()));
    assert_eq!(it.next_back(), Some("C".to_string()));
    assert_eq!(it.next(), Some("B".to_string()));
    assert_eq!(it.next_back(), Some("C".to_string()));
}
