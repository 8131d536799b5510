use provider_sync::collect::{
    collect_session_change_for_path, collect_session_changes_with_scanner, cwd_by_thread_id,
    rewrite_changes, rollout_file_matches_provider, scan_state_is_usable,
    thread_ids_with_user_events, RolloutFile, ScanOutcome, SessionChanges,
};
use provider_sync::digest::sha256_hex_text;
use provider_sync::rollout::{
    scan_rollout_session_meta_providers, stage_next_session_file, RolloutRewrite,
    SessionRewriteMode,
};
use provider_sync::scan_state::{
    check_scan_state, committed_provider_sync_scan_state, copy_state,
    provider_sync_cached_state_can_skip_body, provider_sync_scan_rules_sha256,
    provider_sync_scan_state_matches, rewrite_needed_for_providers,
    rollout_rewrite_from_scan_state, scan_state_manifest, scan_state_of, scan_state_size_fits,
    system_time_parts,
    valid_scan_state_entry, FileObservation, ModifiedTime, ProviderSyncRolloutScanState,
    ProviderSyncRolloutScanStateManifest, ScanStateError, ScanWitness,
    PROVIDER_SYNC_SCAN_STATE_MAX_BYTES, PROVIDER_SYNC_SCAN_STATE_NAMESPACE,
    PROVIDER_SYNC_SCAN_STATE_VERSION,
};
use provider_sync::transaction::{
    commit_session_transaction, new_session_transaction, set_session_transaction_phase,
    RolloutRoot, SessionTransactionMode, SessionTransactionPhase,
};
use std::cell::Cell;

const NONE: Vec<String> = Vec::new();

fn scan(content: &str, target: &str) -> RolloutRewrite {
    scan_rollout_session_meta_providers(
        content.as_bytes(),
        target,
        &SessionRewriteMode::AllProviders,
    )
    .unwrap()
}

fn modified() -> ModifiedTime {
    ModifiedTime {
        secs: 100,
        nanos: 7,
    }
}

fn witness(content: &str) -> ScanWitness {
    ScanWitness {
        size: content.len() as u64,
        modified: Some(modified()),
        identity: Some("file-1".to_string()),
    }
}

fn observation(content: &str, identity: &str) -> FileObservation {
    FileObservation {
        is_file: true,
        size: content.len() as u64,
        modified: Some(modified()),
        identity: identity.to_string(),
    }
}

fn state_for(path: &str, content: &str, target: &str) -> ProviderSyncRolloutScanState {
    scan_state_of(
        path,
        &scan(content, target),
        &witness(content),
        &witness(content),
        &witness(content),
    )
    .unwrap()
}

fn file(relative: &str) -> RolloutFile {
    RolloutFile {
        path: format!("/h/{relative}"),
        relative_path: relative.to_string(),
    }
}

fn found(content: &str, target: &str, relative: &str) -> ScanOutcome {
    ScanOutcome::Found {
        found: scan(content, target),
        mtime: Some(modified()),
        state: Some(state_for(relative, content, target)),
    }
}

const CACHED: &str = "{\"payload\":{\"cwd\":\"C:/cached\",\"id\":\"thread-cached\",\"model_provider\":\"openai\"},\"type\":\"session_meta\"}\n{\"payload\":{\"type\":\"user_message\"},\"type\":\"event_msg\"}\n";

#[test]
fn unchanged_rollout_reuses_committed_scan_state_without_reading_the_body() {
    let relative = "sessions/rollout-cached.jsonl";
    let state = state_for(relative, CACHED, "openai");

    let collected = collect_session_changes_with_scanner(
        &vec![file(relative)],
        "openai",
        &NONE,
        &NONE,
        vec![copy_state(&state)],
        |_| Some(observation(CACHED, "file-1")),
        |_| -> ScanOutcome { panic!("unchanged rollout body should not be opened") },
    )
    .unwrap();

    assert_eq!(collected.changes.len(), 1);
    assert!(!collected.changes[0].rewrite_needed);
    assert!(collected.changes[0].has_user_event);
    assert_eq!(collected.changes[0].cwd.as_deref(), Some("C:/cached"));
    assert_eq!(collected.scan_state_entries.len(), 1);
    assert_eq!(
        format!("{:?}", collected.scan_state_entries[0]),
        format!("{state:?}")
    );
}

const RESCAN: &str = "{\"payload\":{\"id\":\"thread-rescan\",\"model_provider\":\"openai\"},\"type\":\"session_meta\"}\n";

#[test]
fn changed_target_or_missing_mtime_forces_a_full_rollout_scan() {
    let relative = "sessions/rollout-rescan.jsonl";
    let state = state_for(relative, RESCAN, "openai");
    let scans = Cell::new(0);
    let collected = collect_session_changes_with_scanner(
        &vec![file(relative)],
        "custom",
        &NONE,
        &NONE,
        vec![copy_state(&state)],
        |_| Some(observation(RESCAN, "file-1")),
        |_| {
            scans.set(scans.get() + 1);
            found(RESCAN, "custom", relative)
        },
    )
    .unwrap();
    assert_eq!(scans.get(), 1);
    assert!(collected.changes[0].rewrite_needed);

    let mut legacy = state;
    legacy.modified_secs = None;
    legacy.modified_nanos = None;
    let scans = Cell::new(0);
    let again = collect_session_changes_with_scanner(
        &vec![file(relative)],
        "openai",
        &NONE,
        &NONE,
        vec![legacy],
        |_| Some(observation(RESCAN, "file-1")),
        |_| {
            scans.set(scans.get() + 1);
            found(RESCAN, "openai", relative)
        },
    );
    assert!(again.is_ok());
    assert_eq!(scans.get(), 1);
}

#[test]
fn same_path_size_and_mtime_still_reject_a_replaced_file_instance() {
    let content = "{\"payload\":{\"id\":\"thread-replaced\",\"model_provider\":\"openai\"},\"type\":\"session_meta\"}\n";
    let state = state_for("sessions/rollout-replaced.jsonl", content, "openai");
    assert!(provider_sync_scan_state_matches(
        &Some(observation(content, "file-1")),
        &state
    ));
    assert!(!provider_sync_scan_state_matches(
        &Some(observation(content, "file-2")),
        &state
    ));
    assert!(!provider_sync_scan_state_matches(&None, &state));
}

fn roots(identity: &str) -> Vec<RolloutRoot> {
    vec![RolloutRoot {
        name: "sessions".to_string(),
        canonical_path: "/h/sessions".to_string(),
        identity: identity.to_string(),
    }]
}

fn manifest(rules: String, entries: Vec<ProviderSyncRolloutScanState>) -> ProviderSyncRolloutScanStateManifest {
    ProviderSyncRolloutScanStateManifest {
        version: PROVIDER_SYNC_SCAN_STATE_VERSION,
        namespace: PROVIDER_SYNC_SCAN_STATE_NAMESPACE.to_string(),
        rules_sha256: rules,
        rollout_roots: roots("dev-1"),
        entries,
    }
}

#[test]
fn scan_rule_digest_or_corrupt_state_invalidates_the_entire_cache() {
    let rules = provider_sync_scan_rules_sha256("1.0.0");
    assert_eq!(
        check_scan_state(manifest("0".repeat(64), Vec::new()), &rules, &roots("dev-1"), false).err(),
        Some(ScanStateError::Unsupported)
    );
    assert!(check_scan_state(manifest(rules.clone(), Vec::new()), &rules, &roots("dev-1"), false).is_ok());
    assert!(!scan_state_size_fits(PROVIDER_SYNC_SCAN_STATE_MAX_BYTES + 1));
    assert!(scan_state_size_fits(PROVIDER_SYNC_SCAN_STATE_MAX_BYTES));
    let mut bad = state_for("sessions/rollout-a.jsonl", RESCAN, "openai");
    bad.sha256 = "x".to_string();
    assert!(!valid_scan_state_entry(&bad, false));
    assert_eq!(
        check_scan_state(manifest(rules.clone(), vec![bad]), &rules, &roots("dev-1"), false).err(),
        Some(ScanStateError::InvalidEntry)
    );
    let entry = state_for("sessions/rollout-a.jsonl", RESCAN, "openai");
    let twice = vec![copy_state(&entry), entry];
    assert_eq!(
        check_scan_state(manifest(rules.clone(), twice), &rules, &roots("dev-1"), false).err(),
        Some(ScanStateError::InvalidEntry)
    );
}

#[test]
fn replacing_a_rollout_root_invalidates_the_entire_cache() {
    let rules = provider_sync_scan_rules_sha256("1.0.0");
    let entry = state_for("sessions/rollout-root.jsonl", RESCAN, "openai");
    assert_eq!(
        check_scan_state(manifest(rules.clone(), vec![entry]), &rules, &roots("dev-2"), false).err(),
        Some(ScanStateError::Unsupported)
    );
}

#[test]
fn the_scan_rules_depend_on_the_version() {
    let rules = "provider-sync-rollout-scan/v1;utf8-jsonl;session_meta-payload-id-cwd-model_provider;user_message-or-user_input;encrypted_content-byte-marker;non-root-agent-source;missing-provider-sentinel";
    let mut bytes = rules.as_bytes().to_vec();
    bytes.push(0);
    bytes.extend_from_slice(b"1.2.3");
    assert_eq!(provider_sync_scan_rules_sha256("1.2.3"), sha256_hex_text(&bytes));
    assert_ne!(
        provider_sync_scan_rules_sha256("1.2.3"),
        provider_sync_scan_rules_sha256("1.2.4")
    );
}

#[test]
fn a_record_is_written_in_the_order_of_paths() {
    let entries = vec![
        state_for("sessions/rollout-b.jsonl", RESCAN, "openai"),
        state_for("sessions/rollout-a.jsonl", RESCAN, "openai"),
    ];
    let m = scan_state_manifest(&entries, "r".to_string(), roots("dev-1")).unwrap();
    assert_eq!(m.entries[0].relative_path, "sessions/rollout-a.jsonl");
    assert_eq!(m.entries[1].relative_path, "sessions/rollout-b.jsonl");
    assert_eq!(m.version, 1);
}

#[test]
fn a_scan_is_recorded_only_if_the_file_stayed_the_same() {
    let result = scan(RESCAN, "openai");
    let same = witness(RESCAN);
    let other = ScanWitness {
        identity: Some("file-2".to_string()),
        ..witness(RESCAN)
    };
    assert!(scan_state_of("sessions/rollout-a.jsonl", &result, &same, &same, &same).is_some());
    assert!(scan_state_of("sessions/rollout-a.jsonl", &result, &same, &same, &other).is_none());
    assert!(scan_state_of("sessions/rollout-a.jsonl", &result, &same, &other, &same).is_none());
}

#[test]
fn a_record_says_what_a_scan_says() {
    let state = state_for("sessions/rollout-cached.jsonl", CACHED, "openai");
    for target in ["openai", "custom"] {
        let again = rollout_rewrite_from_scan_state(&state, target, &SessionRewriteMode::AllProviders);
        let fresh = scan(CACHED, target);
        assert_eq!(again.rewrite_needed, fresh.rewrite_needed);
        assert_eq!(again.thread_id, fresh.thread_id);
        assert_eq!(again.cwd, fresh.cwd);
        assert_eq!(again.providers, fresh.providers);
        assert_eq!(again.original_sha256, fresh.original_sha256);
    }
    assert!(provider_sync_cached_state_can_skip_body(&state, "openai", &NONE, &NONE));
    assert!(!provider_sync_cached_state_can_skip_body(&state, "custom", &NONE, &NONE));
    let excluded = vec!["thread-cached".to_string()];
    assert!(provider_sync_cached_state_can_skip_body(&state, "custom", &excluded, &NONE));
    let providers = vec!["(missing)".to_string()];
    assert!(rewrite_needed_for_providers(
        &providers,
        "x",
        &SessionRewriteMode::SourceProvider {
            source_provider: "openai".to_string()
        }
    ));
    assert!(scan_state_is_usable(
        &state,
        &Some(observation(CACHED, "file-1")),
        "openai",
        &NONE,
        &NONE
    ));
}

#[test]
fn committed_files_are_recorded_with_their_next_version() {
    let relative = "sessions/rollout-rescan.jsonl";
    let staged = stage_next_session_file(
        RESCAN.as_bytes(),
        "custom",
        &SessionRewriteMode::AllProviders,
    )
    .unwrap();
    let mut t = new_session_transaction(
        "0123456789abcdef0123456789abcdef".to_string(),
        SessionTransactionMode::Full,
        roots("dev-1"),
    );
    t.entries
        .push(provider_sync::apply::staged_entry(relative, &staged.file, Some(modified())));
    let entries = vec![state_for(relative, RESCAN, "custom")];
    let next = String::from_utf8(staged.next.clone()).unwrap();
    let observed = || vec![Some(observation(&next, "file-9"))];
    assert_eq!(
        committed_provider_sync_scan_state(&t, "custom", &entries, &observed(), false).err(),
        Some(ScanStateError::NotCommitted)
    );
    for phase in [
        SessionTransactionPhase::RolloutsApplied,
        SessionTransactionPhase::DownstreamStarted,
        SessionTransactionPhase::CommitDecided,
    ] {
        assert_eq!(set_session_transaction_phase(&mut t, phase), Ok(()));
    }
    assert_eq!(commit_session_transaction(&mut t), Ok(()));
    let committed = committed_provider_sync_scan_state(&t, "custom", &entries, &observed(), false).unwrap();
    assert_eq!(committed.len(), 1);
    assert_eq!(committed[0].sha256, staged.file.next_sha256);
    assert_eq!(committed[0].providers, vec!["custom".to_string()]);
    assert_eq!(committed[0].file_identity, "file-9");
}

#[test]
fn collection_retains_metadata_instead_of_rollout_payloads() {
    let chunk = "A".repeat(64 * 1024);
    let contents: Vec<String> = (0..8)
        .map(|index| {
            format!(
                "{{\"payload\":{{\"cwd\":\"C:/workspace\",\"id\":\"thread-{index}\",\"model_provider\":\"openai\"}},\"type\":\"session_meta\"}}\n{{\"type\":\"event_msg\",\"payload\":{{\"blob\":\"{}\"}}}}\n",
                chunk.repeat(16)
            )
        })
        .collect();
    let files: Vec<RolloutFile> = (0..8)
        .map(|index| file(&format!("sessions/rollout-{index}.jsonl")))
        .collect();

    let collected = collect_session_changes_with_scanner(
        &files,
        "custom",
        &NONE,
        &NONE,
        Vec::new(),
        |i| Some(observation(&contents[i], "file-1")),
        |i| found(&contents[i], "custom", &files[i].relative_path),
    )
    .unwrap();

    assert_eq!(collected.changes.len(), 8);
    let retained_bytes = collected
        .changes
        .iter()
        .map(|change| {
            change.original_sha256.len()
                + change.thread_id.as_ref().map_or(0, String::len)
                + change.cwd.as_ref().map_or(0, String::len)
        })
        .sum::<usize>();
    assert!(retained_bytes < 64 * 1024);
}

#[test]
fn locked_files_are_skipped_and_failures_end_the_collection() {
    let files = vec![
        file("sessions/rollout-a.jsonl"),
        file("sessions/rollout-b.jsonl"),
    ];
    let collected = collect_session_changes_with_scanner(
        &files,
        "custom",
        &NONE,
        &NONE,
        Vec::new(),
        |_| None,
        |i| {
            if i == 0 {
                ScanOutcome::Locked
            } else {
                found(RESCAN, "custom", "sessions/rollout-b.jsonl")
            }
        },
    )
    .unwrap();
    assert_eq!(
        collected.skipped_locked_rollout_files,
        vec!["/h/sessions/rollout-a.jsonl".to_string()]
    );
    assert_eq!(collected.changes.len(), 1);
    let failed = collect_session_changes_with_scanner(
        &files,
        "custom",
        &NONE,
        &NONE,
        Vec::new(),
        |_| None,
        |_| ScanOutcome::Failed("broken".to_string()),
    );
    assert_eq!(failed.err(), Some("broken".to_string()));
}

#[test]
fn subagents_are_not_rewritten() {
    let content = "{\"type\":\"session_meta\",\"payload\":{\"id\":\"t1\",\"model_provider\":\"openai\",\"source\":{\"subagent\":\"x\"}}}\n{\"encrypted_content\":1}\n";
    let mut collected = SessionChanges::new();
    collected.take_in("/h/a", scan(content, "custom"), Some(modified()), None, &NONE, &NONE);
    assert_eq!(collected.subagent_thread_ids, vec!["t1".to_string()]);
    assert!(rewrite_changes(&collected.changes).is_empty());
    let content = content.replace(",\"source\":{\"subagent\":\"x\"}", "");
    let ids = vec!["t1".to_string()];
    let mut collected = SessionChanges::new();
    collected.take_in("/h/a", scan(&content, "custom"), Some(modified()), None, &ids, &NONE);
    assert!(collected.changes.is_empty());
    let mut collected = SessionChanges::new();
    collected.take_in("/h/a", scan(&content, "custom"), Some(modified()), None, &ids, &ids);
    assert!(collected.subagent_thread_ids.is_empty());
    assert_eq!(rewrite_changes(&collected.changes).len(), 1);
    assert_eq!(collected.encrypted_content_counts.len(), 1);
    assert_eq!(collected.encrypted_content_counts[0].provider, "openai");
    assert_eq!(collected.encrypted_content_counts[0].count, 1);
}

#[test]
fn user_events_and_directories_are_taken_from_changes() {
    let mut collected = SessionChanges::new();
    collected.take_in("/h/a", scan(CACHED, "custom"), Some(modified()), None, &NONE, &NONE);
    assert_eq!(
        thread_ids_with_user_events(&collected.changes),
        vec!["thread-cached".to_string()]
    );
    let cwds = cwd_by_thread_id(&collected.changes, &NONE);
    assert_eq!(cwds.len(), 1);
    assert_eq!(cwds[0].cwd, "C:/cached");
    assert!(cwd_by_thread_id(&collected.changes, &vec!["thread-cached".to_string()]).is_empty());
}

#[test]
fn one_file_is_collected_for_one_thread() {
    let mode = SessionRewriteMode::SourceProvider {
        source_provider: "openai".to_string(),
    };
    let result =
        scan_rollout_session_meta_providers(RESCAN.as_bytes(), "custom", &mode).unwrap();
    assert!(!rollout_file_matches_provider(&result, "thread-rescan", "custom"));
    assert!(rollout_file_matches_provider(&result, "thread-rescan", "openai"));
    assert!(!rollout_file_matches_provider(&result, "other", "openai"));
    let changes =
        collect_session_change_for_path("/h/a", result, Some(modified()), "openai", "thread-rescan");
    assert_eq!(rewrite_changes(&changes.changes).len(), 1);
    let result =
        scan_rollout_session_meta_providers(RESCAN.as_bytes(), "custom", &mode).unwrap();
    let none = collect_session_change_for_path("/h/a", result, Some(modified()), "openai", "other");
    assert!(rewrite_changes(&none.changes).is_empty());
}

#[test]
fn a_written_record_is_read_again() {
    let rules = provider_sync_scan_rules_sha256("1.0.0");
    let entries = vec![
        state_for("sessions/rollout-b.jsonl", RESCAN, "openai"),
        state_for("sessions/rollout-a.jsonl", CACHED, "openai"),
    ];
    let m = scan_state_manifest(&entries, rules.clone(), roots("dev-1")).unwrap();
    let read = check_scan_state(m, &rules, &roots("dev-1"), false).unwrap();
    assert_eq!(read.len(), 2);
    assert_eq!(format!("{:?}", read[0]), format!("{:?}", entries[1]));
    assert_eq!(format!("{:?}", read[1]), format!("{:?}", entries[0]));
}

#[test]
fn a_second_collection_rewrites_nothing() {
    let relative = "sessions/rollout-rescan.jsonl";
    let collect = |content: &str| {
        let collected = collect_session_changes_with_scanner(
            &vec![file(relative)],
            "custom",
            &NONE,
            &NONE,
            Vec::new(),
            |_| None,
            |_| found(content, "custom", relative),
        )
        .unwrap();
        rewrite_changes(&collected.changes).len()
    };
    assert_eq!(collect(RESCAN), 1);
    let staged = stage_next_session_file(
        RESCAN.as_bytes(),
        "custom",
        &SessionRewriteMode::AllProviders,
    )
    .unwrap();
    assert_eq!(collect(&String::from_utf8(staged.next).unwrap()), 0);
}

#[test]
fn windows_records_name_paths_that_lead_down() {
    let mut entry = state_for("sessions/rollout-a.jsonl", RESCAN, "openai");
    entry.relative_path = "sessions/..\\x".to_string();
    assert!(valid_scan_state_entry(&entry, false));
    assert!(!valid_scan_state_entry(&entry, true));
}

#[test]
fn times_before_1970_are_told_apart_and_not_recorded() {
    let result = scan(RESCAN, "openai");
    let at = |secs: i64| ScanWitness {
        modified: Some(ModifiedTime { secs, nanos: 7 }),
        ..witness(RESCAN)
    };
    let path = "sessions/rollout-a.jsonl";
    assert!(scan_state_of(path, &result, &at(-5), &at(-5), &at(-6)).is_none());
    assert!(scan_state_of(path, &result, &at(-5), &at(-6), &at(-6)).is_none());
    let state = scan_state_of(path, &result, &at(-5), &at(-5), &at(-5)).unwrap();
    assert_eq!(state.modified_secs, None);
    assert_eq!(state.modified_nanos, None);
    assert_eq!(system_time_parts(Some(ModifiedTime { secs: -1, nanos: 9 })), (None, None));
    assert_eq!(
        system_time_parts(Some(ModifiedTime { secs: 0, nanos: 9 })),
        (Some(0), Some(9))
    );
    assert_eq!(system_time_parts(None), (None, None));
    let early = Some(ModifiedTime { secs: -5, nanos: 7 });
    let collected = collect_session_change_for_path("/h/a", result, early, "openai", "thread-rescan");
    assert_eq!(collected.changes[0].original_mtime, early);
}
