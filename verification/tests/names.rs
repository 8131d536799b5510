use provider_sync::names::{
    displaced_file_name, downstream_file_name, is_database_file_name, is_rollout_file_name,
    provider_sync_temp_name_belongs, rejected_file_name, restore_file_name,
    names_drive, rollout_relative_path, rollout_thread_id_from_filename, slashed, staged_file_name,
    validated_backup_relative_path, validated_rollout_relative_path, RolloutPathError,
};

#[test]
fn orphan_cleanup_requires_an_exact_transaction_temp_name() {
    let transaction_id = "0123456789abcdef0123456789abcdef";
    assert!(provider_sync_temp_name_belongs(
        ".rollout-a.jsonl.provider-sync-0123456789abcdef0123456789abcdef-4.tmp",
        transaction_id
    ));
    assert!(provider_sync_temp_name_belongs(
        ".rollout-a.jsonl.provider-sync-displaced-0123456789abcdef0123456789abcdef-4.tmp",
        transaction_id
    ));
    assert!(provider_sync_temp_name_belongs(
        ".rollout-a.jsonl.provider-sync-restore-0123456789abcdef0123456789abcdef.tmp",
        transaction_id
    ));
    assert!(!provider_sync_temp_name_belongs(
        ".user.provider-sync-note-0123456789abcdef0123456789abcdef.tmp",
        transaction_id
    ));
    assert!(!provider_sync_temp_name_belongs(
        ".rollout-a.jsonl.provider-sync-0123456789abcdef0123456789abcdef-x.tmp",
        transaction_id
    ));
}

const ID: &str = "0123456789abcdef0123456789abcdef";

#[test]
fn own_temporary_names_are_recognised() {
    let name = "rollout-a.jsonl";
    assert_eq!(
        staged_file_name(name, ID, 4),
        ".rollout-a.jsonl.provider-sync-0123456789abcdef0123456789abcdef-4.tmp"
    );
    assert_eq!(
        displaced_file_name(name, ID, 10),
        ".rollout-a.jsonl.provider-sync-displaced-0123456789abcdef0123456789abcdef-10.tmp"
    );
    assert_eq!(
        rejected_file_name(name, ID, 0),
        ".rollout-a.jsonl.provider-sync-rejected-0123456789abcdef0123456789abcdef-0.tmp"
    );
    assert_eq!(
        restore_file_name(name, ID),
        ".rollout-a.jsonl.provider-sync-restore-0123456789abcdef0123456789abcdef.tmp"
    );
    assert_eq!(
        downstream_file_name("state.sqlite", ID),
        ".state.sqlite.provider-sync-downstream-0123456789abcdef0123456789abcdef.tmp"
    );
    for index in [0, 7, 12345] {
        assert!(provider_sync_temp_name_belongs(&staged_file_name(name, ID, index), ID));
        assert!(provider_sync_temp_name_belongs(&displaced_file_name(name, ID, index), ID));
        assert!(provider_sync_temp_name_belongs(&rejected_file_name(name, ID, index), ID));
    }
    assert!(provider_sync_temp_name_belongs(&restore_file_name(name, ID), ID));
}

#[test]
fn temporary_names_belong_to_one_transaction() {
    let other = "fedcba9876543210fedcba9876543210";
    assert!(!provider_sync_temp_name_belongs(&staged_file_name("rollout-a.jsonl", ID, 4), other));
    assert!(!provider_sync_temp_name_belongs(&restore_file_name("rollout-a.jsonl", ID), other));
    assert!(!provider_sync_temp_name_belongs("rollout-a.jsonl", ID));
    assert!(!provider_sync_temp_name_belongs("", ID));
}

#[test]
fn rollout_names_give_the_thread() {
    let id = "0190aaaa-bbbb-7ccc-8ddd-eeeeffff0000";
    let name = format!("rollout-2025-01-01T00-00-00-{id}.jsonl");
    assert_eq!(rollout_thread_id_from_filename(&name), Some(id.to_string()));
    assert_eq!(
        rollout_thread_id_from_filename(&format!("rollout-{id}.jsonl")),
        Some(id.to_string())
    );
    assert_eq!(rollout_thread_id_from_filename("rollout-short.jsonl"), None);
    assert_eq!(
        rollout_thread_id_from_filename("rollout-0190aaaa_bbbb-7ccc-8ddd-eeeeffff0000.jsonl"),
        None
    );
    assert_eq!(rollout_thread_id_from_filename(&format!("rollout-{id}.json")), None);
    assert!(is_rollout_file_name(&name));
    assert!(is_rollout_file_name("rollout-.jsonl"));
    assert!(!is_rollout_file_name("session-1.jsonl"));
}

#[test]
fn database_names_are_told_by_their_extension() {
    assert!(is_database_file_name("state_5.sqlite"));
    assert!(is_database_file_name("codex.db"));
    assert!(!is_database_file_name(".db"));
    assert!(!is_database_file_name("state.sqlite-wal"));
    assert!(!is_database_file_name("sqlite"));
}

#[test]
fn recorded_rollout_paths_lie_in_a_rollout_directory() {
    assert_eq!(
        validated_rollout_relative_path("sessions/2025/rollout-a.jsonl", false),
        Ok("sessions".to_string())
    );
    assert_eq!(
        validated_rollout_relative_path("archived_sessions/rollout-a.jsonl", false),
        Ok("archived_sessions".to_string())
    );
    assert_eq!(
        validated_rollout_relative_path("../sessions/rollout-a.jsonl", false),
        Err(RolloutPathError::Invalid)
    );
    assert_eq!(
        validated_rollout_relative_path("/sessions/rollout-a.jsonl", false),
        Err(RolloutPathError::Invalid)
    );
    assert_eq!(validated_rollout_relative_path("", false), Err(RolloutPathError::Empty));
    assert_eq!(
        validated_rollout_relative_path("other/rollout-a.jsonl", false),
        Err(RolloutPathError::OutsideRoots)
    );
    assert_eq!(
        rollout_relative_path("sessions\\2025\\rollout-a.jsonl", false),
        Ok("sessions/2025/rollout-a.jsonl".to_string())
    );
}

#[test]
fn backup_paths_lead_down() {
    assert!(validated_backup_relative_path("db/state_5.sqlite", false));
    assert!(validated_backup_relative_path("a/./b", false));
    assert!(!validated_backup_relative_path("./a", false));
    assert!(!validated_backup_relative_path("a/../b", false));
    assert!(!validated_backup_relative_path("/etc/state", false));
}

#[test]
fn windows_paths_have_backslashes_and_drives() {
    assert!(validated_backup_relative_path("a\\..\\b", false));
    assert!(!validated_backup_relative_path("a\\..\\b", true));
    assert!(validated_backup_relative_path("sqlite\\state_5.sqlite", true));
    assert!(!validated_backup_relative_path("\\a", true));
    assert!(!validated_backup_relative_path(".\\a", true));
    assert!(validated_backup_relative_path("C:a", false));
    assert!(!validated_backup_relative_path("C:a", true));
    assert!(!validated_backup_relative_path("C:\\a", true));
    assert_eq!(
        validated_rollout_relative_path("sessions\\rollout-a.jsonl", true),
        Ok("sessions".to_string())
    );
    assert_eq!(
        validated_rollout_relative_path("sessions\\rollout-a.jsonl", false),
        Err(RolloutPathError::OutsideRoots)
    );
    assert_eq!(
        rollout_relative_path("sessions\\..\\rollout-a.jsonl", true),
        Err(RolloutPathError::Invalid)
    );
    assert_eq!(
        validated_rollout_relative_path("sessions/..\\..\\x", true),
        Err(RolloutPathError::Invalid)
    );
    assert_eq!(slashed("a\\b/c", true), "a/b/c");
    assert_eq!(slashed("a\\b/c", false), "a\\b/c");
    assert!(names_drive("z:"));
    assert!(!names_drive("1:"));
}
