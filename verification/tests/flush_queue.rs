use private_node::flush::flush_revocation_queue;

fn ids(v: &[&str]) -> Vec<String> {
    v.iter().map(|s| s.to_string()).collect()
}

#[test]
fn partition_keeps_first_and_fails_duplicates_and_prefix() {
    let result = flush_revocation_queue(ids(&["a", "fail-b", "a"]));
    assert_eq!(result.flushed_ids, ids(&["a"]));
    assert_eq!(result.failed_ids, ids(&["fail-b", "a"]));
}

#[test]
fn blank_identifiers_fail_under_a_marker() {
    let result = flush_revocation_queue(ids(&["", "   "]));
    assert_eq!(result.flushed_ids, Vec::<String>::new());
    assert_eq!(result.failed_ids, ids(&["<empty>", "<empty>"]));
}

#[test]
fn identifiers_are_trimmed_before_the_rules_apply() {
    let result = flush_revocation_queue(ids(&[" x ", "x", "  fail-z  "]));
    assert_eq!(result.flushed_ids, ids(&["x"]));
    assert_eq!(result.failed_ids, ids(&["x", "fail-z"]));
}

#[test]
fn an_empty_batch_gives_two_empty_halves() {
    let result = flush_revocation_queue(Vec::new());
    assert!(result.flushed_ids.is_empty());
    assert!(result.failed_ids.is_empty());
}

#[test]
fn order_of_arrival_is_kept() {
    let result = flush_revocation_queue(ids(&["c", "b", "fail-a", "b", "a"]));
    assert_eq!(result.flushed_ids, ids(&["c", "b", "a"]));
    assert_eq!(result.failed_ids, ids(&["fail-a", "b"]));
}
