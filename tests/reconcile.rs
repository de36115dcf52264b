use oxigration::reconcile::{compute_changeset, ChangeKind};

fn strings(v: &[&str]) -> Vec<String> {
    v.iter().map(|s| s.to_string()).collect()
}

#[test]
fn empty_ledger_yields_whole_order() {
    let desired = strings(&["a.t.x.c1", "a.t.y.c2", "a.t.z.c3"]);
    let cs = compute_changeset(&desired, &vec![]);
    let keys: Vec<String> = cs.iter().map(|c| c.key.clone()).collect();
    assert_eq!(keys, desired);
    assert!(cs.iter().all(|c| c.kind == ChangeKind::Apply));
}

#[test]
fn second_reconciliation_is_empty() {
    let desired = strings(&["k1", "k2", "k3"]);
    let mut ledger = strings(&["k2"]);
    let first = compute_changeset(&desired, &ledger);
    let keys: Vec<String> = first.iter().map(|c| c.key.clone()).collect();
    assert_eq!(keys, strings(&["k1", "k3"]));
    ledger.extend(keys);
    assert!(compute_changeset(&desired, &ledger).is_empty());
}

#[test]
fn filtering_keeps_relative_order() {
    let desired = strings(&["d", "a", "c", "b"]);
    let cs = compute_changeset(&desired, &strings(&["a", "zzz"]));
    let keys: Vec<String> = cs.iter().map(|c| c.key.clone()).collect();
    assert_eq!(keys, strings(&["d", "c", "b"]));
}

use oxigration::reconcile::{content_hash, detect_drift, AppliedChange};

#[test]
fn content_hash_is_fnv1a() {
    assert_eq!(content_hash(""), 0xcbf29ce484222325);
    assert_eq!(content_hash("a"), 0xaf63dc4c8601ec8c);
    assert_eq!(content_hash("CREATE TABLE t (id INT);"), content_hash("CREATE TABLE t (id INT);"));
    assert_ne!(content_hash("CREATE TABLE t (id INT);"), content_hash("CREATE TABLE t (id BIGINT);"));
}

#[test]
fn drift_is_reported_not_reapplied() {
    let ledger = vec![
        AppliedChange { change_name: "k1".to_string(), content_hash: content_hash("SELECT 1;") },
        AppliedChange { change_name: "k2".to_string(), content_hash: content_hash("SELECT 2;") },
    ];
    let current = vec![
        ("k1".to_string(), "SELECT 1;".to_string()),
        ("k2".to_string(), "SELECT 22;".to_string()),
        ("k3".to_string(), "SELECT 3;".to_string()),
    ];
    assert_eq!(detect_drift(&current, &ledger), vec!["k2".to_string()]);
    let desired: Vec<String> = current.iter().map(|p| p.0.clone()).collect();
    let applied: Vec<String> = ledger.iter().map(|e| e.change_name.clone()).collect();
    let keys: Vec<String> = compute_changeset(&desired, &applied).iter().map(|c| c.key.clone()).collect();
    assert_eq!(keys, vec!["k3".to_string()]);
}
