use tree_status::ingester::{rand_string, role_or_default, select_instruction_keys, IngesterRole, MissingAccounts};

#[test]
fn role_names() {
    assert_eq!(IngesterRole::All.to_string(), "all");
    assert_eq!(IngesterRole::Backfiller.to_string(), "backfiller");
    assert_eq!(IngesterRole::BackgroundTaskRunner.to_string(), "background_task_runner");
    assert_eq!(IngesterRole::Ingester.to_string(), "ingester");
}

#[test]
fn default_role_is_all() {
    assert_eq!(role_or_default(None), IngesterRole::All);
    assert_eq!(role_or_default(Some(IngesterRole::Ingester)), IngesterRole::Ingester);
}

#[test]
fn random_names_are_alphanumeric() {
    let a = rand_string();
    let b = rand_string();
    assert_eq!(a.len(), 30);
    assert_eq!(a.chars().count(), 30);
    assert!(a.chars().all(|c| c.is_ascii_alphanumeric()));
    assert!(b.chars().all(|c| c.is_ascii_alphanumeric()));
    assert_ne!(a, b);
}

#[test]
fn instruction_keys_by_position() {
    let keys = vec![[0u8; 32], [1u8; 32], [2u8; 32]];
    assert_eq!(select_instruction_keys(&keys, &vec![2, 0]), Ok(vec![[2u8; 32], [0u8; 32]]));
    // Position 3 equals the key count: skipped, not an error.
    assert_eq!(select_instruction_keys(&keys, &vec![1, 3]), Ok(vec![[1u8; 32]]));
    assert_eq!(select_instruction_keys(&keys, &vec![4]), Err(MissingAccounts));
    assert_eq!(select_instruction_keys(&keys, &vec![]), Ok(vec![]));
}
