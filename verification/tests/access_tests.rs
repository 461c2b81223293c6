use secret_silo::access::AccessControl;

#[test]
fn grant_then_check() {
    let mut gate = AccessControl::new();
    gate.grant_access("user-1".to_string(), "secure_data/doc.txt".to_string());
    assert!(gate.has_access("user-1", "secure_data/doc.txt"));
    assert!(!gate.has_access("user-1", "secure_data/other.txt"));
    assert!(!gate.has_access("user-2", "secure_data/doc.txt"));
}

#[test]
fn empty_gate_denies_everything() {
    let gate = AccessControl::new();
    assert!(!gate.has_access("anyone", "anything"));
    assert!(!gate.has_access("", ""));
}

#[test]
fn grant_is_idempotent_and_additive() {
    let mut gate = AccessControl::new();
    gate.grant_access("id".to_string(), "path".to_string());
    gate.grant_access("id".to_string(), "path".to_string());
    assert!(gate.has_access("id", "path"));
    gate.grant_access("id".to_string(), "path2".to_string());
    assert!(gate.has_access("id", "path"));
    assert!(gate.has_access("id", "path2"));
    assert!(!gate.has_access("id2", "path2"));
}

#[test]
fn exact_match_no_prefixes() {
    let mut gate = AccessControl::new();
    gate.grant_access("id".to_string(), "dir/file".to_string());
    assert!(!gate.has_access("id", "dir"));
    assert!(!gate.has_access("id", "dir/file/deeper"));
    assert!(!gate.has_access("id", "dir/File"));
}
