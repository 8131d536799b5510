use provider_sync::apply::{
    apply_next, apply_session_changes, is_version, kept_file_name, session_meta_backup_manifest, staged_as_found,
    staged_entry, AppliedSessionChanges, ApplyEvent, ApplyStep, ReplacementStep, SessionChange,
};
use provider_sync::json::to_compact;
use provider_sync::rollout::{SessionRewriteMode, StagedSessionFile};
use provider_sync::scan_state::ModifiedTime;
use provider_sync::transaction::{
    check_session_transaction, commit_session_transaction, is_committed, is_in_progress,
    is_sha256_text, is_transaction_id_text, new_session_transaction, rebuilt_original,
    record_external, recorded_root, recovery_action, rollback_finish, rollback_goes_on,
    rollback_next, rollback_session_transaction, rollback_start, root_unchanged, set_session_transaction_phase, FileEvidence, Observation,
    PhaseError, RecoveryAction, RollbackError, RollbackProgress, RollbackStart,
    RollbackStep, RolloutRoot,
    SessionTransactionEntry, SessionTransactionManifest, SessionTransactionMode,
    SessionTransactionPhase, TransactionError,
};

const ID: &str = "0123456789abcdef0123456789abcdef";

fn hash(c: char) -> String {
    c.to_string().repeat(64)
}

fn roots() -> Vec<RolloutRoot> {
    vec![RolloutRoot {
        name: "sessions".to_string(),
        canonical_path: "/h/sessions".to_string(),
        identity: "dev-1".to_string(),
    }]
}

fn transaction(mode: SessionTransactionMode) -> SessionTransactionManifest {
    new_session_transaction(ID.to_string(), mode, roots())
}

fn entry() -> SessionTransactionEntry {
    SessionTransactionEntry {
        relative_path: "sessions/rollout-a.jsonl".to_string(),
        original_sha256: hash('a'),
        next_sha256: hash('b'),
        original_size: 10,
        next_size: 20,
        session_meta_backup_sha256: hash('c'),
        original_mtime_secs: Some(1),
        original_mtime_nanos: Some(2),
        external_sha256: None,
        external_size: None,
    }
}

fn present(sha256: String, size: u64) -> Observation {
    Observation::Present(FileEvidence { sha256, size })
}

#[test]
fn a_transaction_goes_through_its_phases() {
    let mut t = transaction(SessionTransactionMode::Full);
    assert_eq!(t.version, 1);
    assert!(is_in_progress(&t));
    assert_eq!(t.phase, SessionTransactionPhase::RolloutsApplying);
    assert_eq!(
        set_session_transaction_phase(&mut t, SessionTransactionPhase::CommitDecided),
        Err(PhaseError::InvalidTransition)
    );
    assert_eq!(commit_session_transaction(&mut t), Err(PhaseError::NoCommitDecision));
    for phase in [
        SessionTransactionPhase::RolloutsApplied,
        SessionTransactionPhase::DownstreamStarted,
        SessionTransactionPhase::CommitDecided,
    ] {
        assert_eq!(set_session_transaction_phase(&mut t, phase), Ok(()));
    }
    assert_eq!(recovery_action(&t), RecoveryAction::Commit);
    assert_eq!(commit_session_transaction(&mut t), Ok(()));
    assert!(is_committed(&t));
    assert!(!is_in_progress(&t));
    assert_eq!(recovery_action(&t), RecoveryAction::Nothing);
    assert_eq!(
        set_session_transaction_phase(&mut t, SessionTransactionPhase::RolloutsApplied),
        Err(PhaseError::NotActive)
    );
}

#[test]
fn a_remote_transaction_may_commit_without_downstream() {
    let mut t = transaction(SessionTransactionMode::Remote);
    assert_eq!(recovery_action(&t), RecoveryAction::Rollback);
    assert_eq!(
        set_session_transaction_phase(&mut t, SessionTransactionPhase::RolloutsApplied),
        Ok(())
    );
    assert_eq!(
        set_session_transaction_phase(&mut t, SessionTransactionPhase::RolloutsApplying),
        Err(PhaseError::InvalidTransition)
    );
    assert_eq!(
        set_session_transaction_phase(&mut t, SessionTransactionPhase::CommitDecided),
        Ok(())
    );
    assert_eq!(commit_session_transaction(&mut t), Ok(()));
}

#[test]
fn an_interrupted_full_transaction_restores_downstream_first() {
    let mut t = transaction(SessionTransactionMode::Full);
    assert_eq!(recovery_action(&t), RecoveryAction::Rollback);
    t.phase = SessionTransactionPhase::DownstreamStarted;
    assert_eq!(recovery_action(&t), RecoveryAction::RestoreDownstreamThenRollback);
    assert_eq!(rollback_start(&t), RollbackStart::Proceed);
    rollback_finish(&mut t);
    assert_eq!(t.status, "rolled_back");
    assert_eq!(rollback_start(&t), RollbackStart::Nothing);
    t.status = "odd".to_string();
    assert_eq!(rollback_start(&t), RollbackStart::UnknownStatus);
}

#[test]
fn a_transaction_that_was_read_is_checked() {
    let mut t = transaction(SessionTransactionMode::Full);
    t.entries.push(entry());
    assert_eq!(check_session_transaction(&t, true), Ok(()));
    assert_eq!(check_session_transaction(&t, false), Err(TransactionError::InvalidRoot));
    t.entries[0].next_sha256 = "b".to_string();
    assert_eq!(check_session_transaction(&t, true), Err(TransactionError::InvalidHash));
    t.entries[0].next_sha256 = hash('b');
    t.entries[0].external_size = Some(1);
    assert_eq!(
        check_session_transaction(&t, true),
        Err(TransactionError::IncompleteExternal)
    );
    t.entries.clear();
    t.transaction_id = "short".to_string();
    assert_eq!(check_session_transaction(&t, true), Err(TransactionError::InvalidId));
    t.version = 2;
    assert_eq!(check_session_transaction(&t, true), Err(TransactionError::Unsupported));
    assert!(is_sha256_text(&hash('F')));
    assert!(!is_sha256_text(&hash('g')));
    assert!(is_transaction_id_text(ID));
    assert!(!is_transaction_id_text(""));
}

#[test]
fn a_root_is_known_again_by_path_and_identity() {
    let all = roots();
    let root = recorded_root(&all, "sessions").unwrap();
    assert!(root_unchanged(root, "/h/sessions", "dev-1"));
    assert!(!root_unchanged(root, "/h/sessions", "dev-2"));
    assert!(!root_unchanged(root, "/other", "dev-1"));
    assert!(recorded_root(&all, "archived_sessions").is_none());
}

#[test]
fn a_rollback_puts_the_original_back() {
    let e = entry();
    assert_eq!(
        rollback_next(&e, &Observation::Unknown, &Observation::Unknown),
        RollbackStep::InspectDisplaced
    );
    assert_eq!(
        rollback_next(&e, &Observation::Unknown, &Observation::Absent),
        RollbackStep::InspectCurrent
    );
    assert_eq!(
        rollback_next(&e, &present(hash('a'), 10), &Observation::Absent),
        RollbackStep::Done
    );
    assert_eq!(
        rollback_next(&e, &present(hash('b'), 20), &present(hash('a'), 10)),
        RollbackStep::RestoreDisplaced { restore_mtime: true }
    );
    assert_eq!(
        rollback_next(&e, &present(hash('a'), 10), &present(hash('a'), 10)),
        RollbackStep::RemoveDisplaced
    );
    assert_eq!(
        rollback_next(&e, &present(hash('b'), 20), &Observation::Absent),
        RollbackStep::RebuildOriginal
    );
}

#[test]
fn a_rollback_keeps_versions_that_it_does_not_know() {
    let e = entry();
    assert_eq!(
        rollback_next(&e, &present(hash('d'), 5), &present(hash('a'), 10)),
        RollbackStep::KeepCurrentAndRemoveDisplaced
    );
    assert_eq!(
        rollback_next(&e, &present(hash('b'), 20), &present(hash('d'), 5)),
        RollbackStep::KeepDisplacedAndRestore
    );
    assert_eq!(
        rollback_next(&e, &present(hash('d'), 5), &Observation::Absent),
        RollbackStep::Fail(RollbackError::CurrentChanged)
    );
    assert_eq!(
        rollback_next(&e, &present(hash('d'), 5), &present(hash('e'), 6)),
        RollbackStep::Fail(RollbackError::BothChanged)
    );
    assert_eq!(
        rollback_next(&e, &Observation::Absent, &Observation::Absent),
        RollbackStep::Fail(RollbackError::CurrentMissing)
    );
}

#[test]
fn external_versions_are_recorded() {
    let mut e = entry();
    record_external(
        &mut e,
        FileEvidence {
            sha256: hash('d'),
            size: 5,
        },
    );
    assert_eq!(e.external_sha256, Some(hash('d')));
    assert_eq!(e.external_size, Some(5));
    assert_eq!(
        rollback_next(&e, &Observation::Absent, &Observation::Absent),
        RollbackStep::Fail(RollbackError::ExternalMissing)
    );
    assert_eq!(
        rollback_next(&e, &present(hash('d'), 5), &present(hash('a'), 10)),
        RollbackStep::RemoveDisplaced
    );
    assert_eq!(
        rollback_next(&e, &present(hash('d'), 5), &present(hash('e'), 1)),
        RollbackStep::Fail(RollbackError::DisplacedChangedAfterExternalRestore)
    );
    assert_eq!(
        rollback_next(&e, &present(hash('e'), 1), &Observation::Unknown),
        RollbackStep::Fail(RollbackError::CurrentChangedAfterExternalDecision)
    );
    assert_eq!(
        rollback_next(&e, &Observation::Absent, &present(hash('e'), 1)),
        RollbackStep::Fail(RollbackError::DisplacedExternalChanged)
    );
    assert!(rebuilt_original(&e, &hash('a'), 10));
    assert!(!rebuilt_original(&e, &hash('a'), 11));
}

#[test]
fn a_replacement_records_before_it_replaces() {
    let mut step = ApplyStep::OpenSource;
    let mut seen = Vec::new();
    while !matches!(step, ApplyStep::Applied | ApplyStep::Skipped | ApplyStep::Failed) {
        seen.push(step);
        step = apply_next(step, ApplyEvent::Succeeded).next;
    }
    assert_eq!(step, ApplyStep::Applied);
    let at = |s: ApplyStep| seen.iter().position(|x| *x == s).unwrap();
    assert!(at(ApplyStep::CompareStaged) < at(ApplyStep::RecordEntry));
    assert!(at(ApplyStep::RecordEntry) < at(ApplyStep::Replace));
    assert!(at(ApplyStep::Replace) < at(ApplyStep::CheckTarget));
}

#[test]
fn a_locked_or_changed_file_is_left_alone() {
    let outcome = apply_next(ApplyStep::LockSource, ApplyEvent::Locked);
    assert_eq!(outcome.next, ApplyStep::Skipped);
    let outcome = apply_next(ApplyStep::CompareStaged, ApplyEvent::Mismatch);
    assert_eq!(outcome.next, ApplyStep::Skipped);
    assert!(outcome.remove_staged && outcome.remove_kept);
    let outcome = apply_next(ApplyStep::RecordEntry, ApplyEvent::Failed);
    assert_eq!(outcome.next, ApplyStep::Failed);
}

#[test]
fn staged_files_become_entries() {
    let staged = StagedSessionFile {
        original_sha256: hash('a'),
        next_sha256: hash('b'),
        original_size: 10,
        next_size: 20,
        session_meta_backup_sha256: hash('c'),
    };
    let change = SessionChange {
        path: "/h/sessions/rollout-a.jsonl".to_string(),
        original_sha256: hash('a'),
        original_size: 10,
        thread_id: None,
        cwd: None,
        has_user_event: false,
        rewrite_needed: true,
        original_mtime: None,
        rewrite_mode: SessionRewriteMode::AllProviders,
    };
    assert!(staged_as_found(&staged, &change));
    assert!(is_version(&hash('a'), 10, &hash('a'), 10));
    assert!(!is_version(&hash('a'), 10, &hash('a'), 9));
    let e = staged_entry("sessions/rollout-a.jsonl", &staged, Some(ModifiedTime { secs: 1, nanos: 2 }));
    assert_eq!(e.original_mtime_secs, Some(1));
    assert_eq!(e.original_mtime_nanos, Some(2));
    let early = staged_entry("sessions/rollout-a.jsonl", &staged, Some(ModifiedTime { secs: -1, nanos: 2 }));
    assert_eq!(early.original_mtime_secs, None);
    assert_eq!(early.original_mtime_nanos, None);
    assert_eq!(e.relative_path, "sessions/rollout-a.jsonl");
    assert_eq!(e.next_sha256, hash('b'));
    assert_eq!(e.external_sha256, None);
    let mut t = transaction(SessionTransactionMode::Full);
    t.entries.push(e);
    assert_eq!(check_session_transaction(&t, true), Ok(()));
    let listed = String::from_utf8(to_compact(&session_meta_backup_manifest(&t.entries))).unwrap();
    assert!(listed.contains(&kept_file_name(0)));
    assert!(listed.contains("\"originalSize\":10"));
    let mut applied = AppliedSessionChanges::new();
    applied.count_changed();
    applied.list_skipped("/h/x");
    assert_eq!(applied.changed_files, 1);
    assert_eq!(applied.skipped_locked_rollout_files, vec!["/h/x".to_string()]);
}

fn change(path: &str) -> SessionChange {
    SessionChange {
        path: path.to_string(),
        original_sha256: hash('a'),
        original_size: 10,
        thread_id: None,
        cwd: None,
        has_user_event: false,
        rewrite_needed: true,
        original_mtime: None,
        rewrite_mode: SessionRewriteMode::AllProviders,
    }
}

#[test]
fn files_are_replaced_one_after_the_other() {
    let mut run = apply_session_changes(&vec![change("a"), change("b"), change("c")]);
    assert_eq!(run.step, ReplacementStep::ForgetScanState);
    run.note_done();
    assert_eq!(run.step, ReplacementStep::ReadTransaction);
    run.note_done();
    assert_eq!(run.step, ReplacementStep::Replace { change: 0 });
    run.note_replaced();
    assert_eq!(run.step, ReplacementStep::Replace { change: 1 });
    run.note_skipped("b");
    assert_eq!(run.step, ReplacementStep::Replace { change: 2 });
    run.note_replaced();
    assert_eq!(run.step, ReplacementStep::Finished);
    assert_eq!(run.applied.changed_files, 2);
    assert_eq!(run.applied.skipped_locked_rollout_files, vec!["b".to_string()]);
}

#[test]
fn nothing_is_forgotten_where_nothing_is_replaced() {
    let mut run = apply_session_changes(&vec![]);
    assert_eq!(run.step, ReplacementStep::ReadTransaction);
    run.note_done();
    assert_eq!(run.step, ReplacementStep::Finished);
}

#[test]
fn a_failed_replacement_is_rolled_back() {
    let mut run = apply_session_changes(&vec![change("a"), change("b")]);
    run.note_done();
    run.note_done();
    run.note_replaced();
    run.note_failure();
    assert_eq!(run.step, ReplacementStep::RollBack);
    run.note_failure();
    assert_eq!(run.step, ReplacementStep::Failed);
    let mut run = apply_session_changes(&vec![change("a")]);
    run.note_failure();
    assert_eq!(run.step, ReplacementStep::RollBack);
    run.note_done();
    assert_eq!(run.step, ReplacementStep::Failed);
}

#[test]
fn entries_are_rolled_back_from_the_last_to_the_first() {
    let mut t = transaction(SessionTransactionMode::Full);
    assert_eq!(
        rollback_session_transaction(&t),
        Some(RollbackProgress::RemoveTemporaryFiles)
    );
    t.entries.push(entry());
    t.entries.push(entry());
    let mut progress = rollback_session_transaction(&t).unwrap();
    let mut seen = Vec::new();
    while progress != RollbackProgress::Finished {
        seen.push(progress);
        progress = rollback_goes_on(progress);
    }
    assert_eq!(
        seen,
        vec![
            RollbackProgress::RollBackEntry { entry: 1 },
            RollbackProgress::RollBackEntry { entry: 0 },
            RollbackProgress::RemoveTemporaryFiles,
            RollbackProgress::RecordRolledBack,
        ]
    );
    assert_eq!(rollback_goes_on(progress), RollbackProgress::Finished);
    rollback_finish(&mut t);
    assert_eq!(
        rollback_session_transaction(&t),
        Some(RollbackProgress::Finished)
    );
    t.status = "paused".to_string();
    assert_eq!(rollback_session_transaction(&t), None);
}

#[test]
fn an_interrupted_replacement_is_undone() {
    let e = entry();
    let original = || present(hash('a'), 10);
    let next = || present(hash('b'), 20);
    assert_eq!(
        rollback_next(&e, &original(), &Observation::Absent),
        RollbackStep::Done
    );
    assert_eq!(
        rollback_next(&e, &Observation::Absent, &original()),
        RollbackStep::RestoreDisplaced { restore_mtime: true }
    );
    assert_eq!(
        rollback_next(&e, &next(), &original()),
        RollbackStep::RestoreDisplaced { restore_mtime: true }
    );
    assert_eq!(
        rollback_next(&e, &next(), &Observation::Absent),
        RollbackStep::RebuildOriginal
    );
}
