use provider_sync::backup::{
    backup_db_files, backup_dir_name, backup_global_state_files, backup_is_managed,
    backup_metadata_text, backups_to_prune, check_actual_db_files, check_expected_db_files,
    check_file_evidence, check_global_state_files, check_recorded_files, file_matches,
    recorded_keys, restore_provider_sync_downstream_backup, session_index_backup_metadata,
    BackupDescription, BackupDraft, BackupError, BackupFile, DatabaseFile, RestoreRun, RestoreStep,
};
use provider_sync::json::{get_text, parse, to_compact};
use provider_sync::transaction::SessionTransactionMode;

fn texts(v: &[&str]) -> Vec<String> {
    v.iter().map(|s| s.to_string()).collect()
}

fn draft() -> BackupDraft {
    let mut draft = BackupDraft::new();
    draft.add_file("config.toml", 1, "c".repeat(64));
    draft.add_file(".codex-global-state.json", 2, "a".repeat(64));
    assert_eq!(
        draft.add_db_file("sqlite\\state_5.sqlite", 3, "b".repeat(64), false),
        Ok(())
    );
    draft
}

fn description(draft: BackupDraft) -> BackupDescription {
    BackupDescription {
        codex_home: "/h".to_string(),
        target_provider: "custom".to_string(),
        created_at: "now".to_string(),
        db_files: draft.db_files,
        global_state_files: draft.global_state_files,
        backup_files: draft.files,
        changed_session_files: 4,
    }
}

#[test]
fn backup_directories_are_named_by_time() {
    assert_eq!(backup_dir_name("20250101000000", 0), "20250101000000");
    assert_eq!(backup_dir_name("20250101000000", 12), "20250101000000-12");
}

#[test]
fn a_made_backup_passes_its_checks() {
    let mut bad = BackupDraft::new();
    assert_eq!(
        bad.add_db_file("../x", 1, String::new(), false),
        Err(BackupError::InvalidPath)
    );
    let d = description(draft());
    let text = backup_metadata_text(&d);
    assert!(backup_is_managed(&text));
    let metadata = parse(&text).unwrap();
    let db_files = backup_db_files(&metadata, false).unwrap();
    assert_eq!(db_files, texts(&["sqlite/state_5.sqlite"]));
    let globals = backup_global_state_files(&metadata).unwrap();
    assert_eq!(globals, texts(&[".codex-global-state.json"]));
    let keys = recorded_keys(&db_files);
    assert_eq!(check_expected_db_files(&keys, &texts(&["sqlite/state_5.sqlite"])), Ok(()));
    assert_eq!(check_actual_db_files(&keys, &keys), Ok(()));
    assert_eq!(check_global_state_files(&globals, &globals), Ok(()));
    assert_eq!(check_recorded_files(&d.backup_files, &keys, &globals), Ok(()));
    assert_eq!(get_text(&metadata, "namespace"), Some("provider-sync".to_string()));
    assert!(String::from_utf8(to_compact(&metadata))
        .unwrap()
        .contains("\"changedSessionFiles\":4"));
}

#[test]
fn a_damaged_description_is_refused() {
    let read = |text: &str| parse(text).unwrap();
    assert_eq!(backup_db_files(&read("{}"), false), Err(BackupError::MissingDbFiles));
    assert_eq!(
        backup_db_files(&read("{\"dbFiles\":[\"a\",1,\"../b\"]}"), false),
        Err(BackupError::InvalidDbFilesEntry)
    );
    assert_eq!(
        backup_db_files(&read("{\"dbFiles\":[\"a\",\"../b\",1]}"), false),
        Err(BackupError::InvalidPath)
    );
    assert_eq!(
        backup_global_state_files(&read("{\"globalStateFiles\":1}")),
        Err(BackupError::MissingGlobalStateFiles)
    );
    assert_eq!(
        backup_global_state_files(&read("{\"globalStateFiles\":[null]}")),
        Err(BackupError::InvalidGlobalStateFilesEntry)
    );
}

#[test]
fn files_that_do_not_fit_are_refused() {
    let keys = texts(&["a.sqlite"]);
    assert_eq!(
        check_expected_db_files(&keys, &texts(&["b.sqlite"])),
        Err(BackupError::UnexpectedDbFile)
    );
    assert_eq!(
        check_actual_db_files(&keys, &texts(&["a.sqlite", "b.sqlite"])),
        Err(BackupError::DbFilesMismatch)
    );
    assert_eq!(
        check_global_state_files(&texts(&["config.toml"]), &Vec::new()),
        Err(BackupError::UnexpectedGlobalStateFile)
    );
    assert_eq!(
        check_global_state_files(&texts(&[".codex-global-state.json"]), &Vec::new()),
        Err(BackupError::GlobalStateFilesMismatch)
    );
    let file = |name: &str, sha256: &str| BackupFile {
        name: name.to_string(),
        size: 3,
        sha256: sha256.to_string(),
    };
    let good = "a".repeat(64);
    assert_eq!(
        check_recorded_files(&vec![file("a.sqlite", &good)], &keys, &Vec::new()),
        Err(BackupError::BackupFilesMismatch)
    );
    assert_eq!(check_file_evidence(&file("db/a.sqlite", &good), false), Ok(()));
    assert_eq!(check_file_evidence(&file("db/a.sqlite", "a"), false), Err(BackupError::InvalidHash));
    assert_eq!(check_file_evidence(&file("../a", &good), false), Err(BackupError::InvalidPath));
    assert!(file_matches(&file("x", &good), &good, 3));
    assert!(!file_matches(&file("x", &good), &good, 4));
}

fn databases() -> Vec<DatabaseFile> {
    [("state.sqlite", true, true), ("state.sqlite-wal", false, true), ("state.sqlite-shm", false, false)]
        .into_iter()
        .map(|(path, is_main, exists)| DatabaseFile {
            path: path.to_string(),
            is_main,
            exists,
        })
        .collect()
}

fn evidence() -> Vec<BackupFile> {
    vec![
        BackupFile {
            name: "db/state.sqlite".to_string(),
            size: 3,
            sha256: "a".repeat(64),
        },
        BackupFile {
            name: ".codex-global-state.json".to_string(),
            size: 4,
            sha256: "b".repeat(64),
        },
    ]
}

const METADATA: &str =
    "{\"dbFiles\":[\"state.sqlite\"],\"globalStateFiles\":[\".codex-global-state.json\"]}";

fn begin(
    mode: SessionTransactionMode,
    metadata: &str,
    kept_db: &[&str],
    kept_global: &[&str],
    evidence: Vec<BackupFile>,
) -> Result<RestoreRun, BackupError> {
    restore_provider_sync_downstream_backup(
        mode,
        &parse(metadata).unwrap(),
        &databases(),
        &texts(kept_db),
        &texts(kept_global),
        &evidence,
        false,
    )
}

#[test]
fn restoring_removes_newer_files_and_puts_old_ones_back() {
    let mut run = begin(
        SessionTransactionMode::Full,
        METADATA,
        &["state.sqlite"],
        &[".codex-global-state.json"],
        evidence(),
    )
    .ok()
    .unwrap();
    assert_eq!(run.db_files(), &texts(&["state.sqlite"]));
    assert!(run.steps(true, true).is_none());
    run.note_prepared(1, &"b".repeat(64), 4);
    assert!(run.steps(true, true).is_none());
    run.note_prepared(0, &"a".repeat(64), 3);
    let steps = run.steps(true, true).unwrap();
    assert_eq!(steps.len(), 4);
    assert!(matches!(&steps[0], RestoreStep::Remove { target } if target == "state.sqlite-wal"));
    assert!(matches!(
        &steps[1],
        RestoreStep::Restore { source, target }
            if source == "db/state.sqlite" && target == "state.sqlite"
    ));
    assert!(matches!(
        &steps[2],
        RestoreStep::Restore { source, target }
            if source == ".codex-global-state.json" && target == ".codex-global-state.json"
    ));
    assert!(matches!(
        &steps[3],
        RestoreStep::Remove { target } if target == ".codex-global-state.json.bak"
    ));
    assert_eq!(run.steps(true, false).unwrap().len(), 3);
}

#[test]
fn a_file_unlike_its_evidence_ends_a_restore() {
    for (sha256, size) in [("a".repeat(64), 4), ("c".repeat(64), 3)] {
        let mut run = begin(
            SessionTransactionMode::Full,
            METADATA,
            &["state.sqlite"],
            &[".codex-global-state.json"],
            evidence(),
        )
        .ok()
        .unwrap();
        run.note_prepared(0, &sha256, size);
        assert!(run.has_failed());
        run.note_prepared(0, &"a".repeat(64), 3);
        run.note_prepared(1, &"b".repeat(64), 4);
        assert!(run.has_failed());
        assert!(run.steps(true, true).is_none());
    }
}

#[test]
fn a_restore_is_refused_by_the_first_check_that_fails() {
    let full = SessionTransactionMode::Full;
    let db: &[&str] = &["state.sqlite"];
    let global: &[&str] = &[".codex-global-state.json"];
    let refused = |r: Result<RestoreRun, BackupError>| r.err().unwrap();
    assert_eq!(
        refused(begin(SessionTransactionMode::Remote, "{}", &[], &[], Vec::new())),
        BackupError::NotFull
    );
    assert_eq!(
        refused(begin(full, "{}", &[], &[], Vec::new())),
        BackupError::MissingDbFiles
    );
    assert_eq!(
        refused(begin(full, "{\"dbFiles\":[1]}", &[], &[], Vec::new())),
        BackupError::InvalidDbFilesEntry
    );
    assert_eq!(
        refused(begin(full, "{\"dbFiles\":[\"../state.sqlite\"]}", db, global, evidence())),
        BackupError::InvalidPath
    );
    assert_eq!(
        refused(begin(full, "{\"dbFiles\":[\"other.sqlite\"]}", db, global, evidence())),
        BackupError::UnexpectedDbFile
    );
    assert_eq!(
        refused(begin(full, METADATA, &[], global, evidence())),
        BackupError::DbFilesMismatch
    );
    assert_eq!(
        refused(begin(full, "{\"dbFiles\":[\"state.sqlite\"]}", db, global, evidence())),
        BackupError::MissingGlobalStateFiles
    );
    assert_eq!(
        refused(begin(
            full,
            "{\"dbFiles\":[\"state.sqlite\"],\"globalStateFiles\":[1]}",
            db,
            global,
            evidence()
        )),
        BackupError::InvalidGlobalStateFilesEntry
    );
    assert_eq!(
        refused(begin(
            full,
            "{\"dbFiles\":[\"state.sqlite\"],\"globalStateFiles\":[\"config.toml\"]}",
            db,
            global,
            evidence()
        )),
        BackupError::UnexpectedGlobalStateFile
    );
    assert_eq!(
        refused(begin(full, METADATA, db, &[], evidence())),
        BackupError::GlobalStateFilesMismatch
    );
    assert_eq!(
        refused(begin(full, METADATA, db, global, Vec::new())),
        BackupError::BackupFilesMismatch
    );
    let mut bad = evidence();
    bad[1].sha256 = "b".to_string();
    assert_eq!(
        refused(begin(full, METADATA, db, global, bad)),
        BackupError::InvalidHash
    );
}

#[test]
fn windows_backups_are_checked_with_backslashes() {
    let metadata = parse("{\"dbFiles\":[\"a\\\\..\\\\b\"]}").unwrap();
    assert_eq!(backup_db_files(&metadata, false), Ok(texts(&["a\\..\\b"])));
    assert_eq!(backup_db_files(&metadata, true), Err(BackupError::InvalidPath));
    let mut draft = BackupDraft::new();
    assert_eq!(
        draft.add_db_file("C:state.sqlite", 1, "a".repeat(64), true),
        Err(BackupError::InvalidPath)
    );
}

#[test]
fn the_newest_backups_are_kept() {
    let all = texts(&["3", "1", "7", "5", "2", "6", "4"]);
    assert_eq!(backups_to_prune(&all), texts(&["2", "1"]));
    assert!(backups_to_prune(&texts(&["1", "2", "3", "4", "5"])).is_empty());
    assert!(!backup_is_managed("{\"managedBy\":\"someone\"}"));
    assert!(!backup_is_managed("not json"));
    let index = session_index_backup_metadata("/h", "now", "abc", 2);
    assert_eq!(
        String::from_utf8(to_compact(&index)).unwrap(),
        "{\"codexHome\":\"/h\",\"createdAt\":\"now\",\"managedBy\":\"Codex++ provider sync\",\"namespace\":\"provider-sync-session-index-cleanup\",\"prunedSessionIndexEntries\":2,\"snapshotSha256\":\"abc\",\"version\":1}"
    );
}
