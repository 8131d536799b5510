use provider_sync::collect::ProviderCount;
use provider_sync::remote::{
    minimum_created_at, remote_control_session_recovery_candidate_exists, requested_thread,
    run_remote_control_session_catalog_recovery_for_thread_with_target,
    run_remote_control_session_finalization_for_thread_with_target, FinalizationStep, RecoveryStep,
};
use provider_sync::repair::{CatalogRepairCounts, SqliteUpdateCounts};
use provider_sync::sync::{
    app_running_message, build_encrypted_content_warning, ensure_codex_app_stopped,
    provider_sync_db_paths, provider_sync_message_with_audit, result, run_provider_sync,
    run_provider_sync_with_target, PendingChanges, ProviderSyncStatus, SyncRun, SyncStep,
};
use provider_sync::threads::{ProviderSyncAudit, RemoteControlRolloutLookup};

fn texts(v: &[&str]) -> Vec<String> {
    v.iter().map(|s| s.to_string()).collect()
}

fn pending(rewrites: usize) -> PendingChanges {
    PendingChanges {
        rewrites,
        sqlite_updates: 0,
        catalog_repairs: 0,
        global_state_updates: 0,
    }
}

fn audit(n: usize) -> ProviderSyncAudit {
    ProviderSyncAudit {
        catalog_only_sessions: n,
        catalog_only_with_current_rollout: n,
        catalog_only_with_backup_database: 0,
        catalog_only_without_recovery_source: 0,
    }
}

fn until_collected(require_stopped_app: bool) -> SyncRun {
    let mut run = run_provider_sync_with_target(require_stopped_app, Some("custom"));
    run.note_home(true, "/h");
    run.note_config(None);
    if require_stopped_app {
        assert_eq!(run.step, SyncStep::CheckApp);
        run.note_app(&Vec::new());
    }
    run.note_lock(true, "/h/tmp/provider-sync.lock");
    if require_stopped_app {
        assert_eq!(run.step, SyncStep::RecheckApp);
        run.note_app(&Vec::new());
    }
    assert_eq!(run.step, SyncStep::RecoverTransactions);
    run.note_done();
    assert_eq!(run.step, SyncStep::Collect);
    run
}

#[test]
fn a_run_without_changes_is_up_to_date() {
    let mut run = until_collected(true);
    run.note_collected(pending(0), texts(&["/h/x"]), Some("w".to_string()), audit(0));
    assert_eq!(run.step, SyncStep::CheckAppBeforeReport);
    run.note_app(&Vec::new());
    assert_eq!(run.step, SyncStep::PersistScanState);
    run.note_done();
    assert_eq!(run.step, SyncStep::UpToDate);
    let report = run.finish(false);
    assert_eq!(report.status, ProviderSyncStatus::Synced);
    assert_eq!(report.message, "Provider sync already up to date");
    assert_eq!(report.target_provider, "custom");
    assert_eq!(report.skipped_locked_rollout_files, texts(&["/h/x"]));
    assert_eq!(report.encrypted_content_warning, Some("w".to_string()));
    assert_eq!(report.backup_dir, None);
}

#[test]
fn a_run_with_changes_commits_them() {
    let mut run = until_collected(false);
    run.note_collected(pending(1), texts(&["/h/b", "/h/a"]), None, audit(2));
    assert_eq!(run.step, SyncStep::CreateBackup);
    run.note_backup("/h/backup".to_string());
    run.note_rollouts(3, &texts(&["/h/b"]));
    run.note_done();
    run.note_done();
    assert_eq!(run.step, SyncStep::ApplyDownstream);
    let mut counts = SqliteUpdateCounts::none();
    counts.provider_rows = 4;
    counts.cwd_rows = 1;
    run.note_downstream(counts, 2);
    assert_eq!(run.step, SyncStep::MarkCommitDecided);
    run.note_done();
    run.note_done();
    run.note_done();
    assert_eq!(run.step, SyncStep::PruneBackups);
    run.note_done();
    let report = run.finish(false);
    assert_eq!(report.status, ProviderSyncStatus::Synced);
    assert_eq!(
        report.message,
        "Provider sync complete；审计发现 2 条仅存在于本地会话目录的记录，其中 2 条仍有当前 rollout、0 条只能在历史数据库备份中找到，0 条没有可用恢复来源；未自动重建缺失的 canonical 会话。"
    );
    assert_eq!(report.backup_dir, Some("/h/backup".to_string()));
    assert_eq!(report.changed_session_files, 3);
    assert_eq!(report.skipped_locked_rollout_files, texts(&["/h/a", "/h/b"]));
    assert_eq!(report.sqlite_rows_updated, 5);
    assert_eq!(report.sqlite_provider_rows_updated, 4);
    assert_eq!(report.sqlite_cwd_rows_updated, 1);
    assert_eq!(report.updated_workspace_roots, 2);
    assert_eq!(report.repair_audit, audit(2));
}

fn at_downstream() -> SyncRun {
    let mut run = until_collected(false);
    run.note_collected(pending(1), Vec::new(), None, audit(0));
    run.note_backup("/h/backup".to_string());
    run.note_rollouts(1, &Vec::new());
    run.note_done();
    run.note_done();
    run
}

#[test]
fn a_failure_downstream_is_taken_back() {
    let mut run = at_downstream();
    run.note_failure("disk full");
    assert_eq!(run.step, SyncStep::RestoreDownstream);
    run.note_done();
    assert_eq!(run.step, SyncStep::RollBack);
    run.note_done();
    let report = run.finish(false);
    assert_eq!(report.status, ProviderSyncStatus::Skipped);
    assert_eq!(report.message, "Provider sync skipped: disk full");
    assert_eq!(report.backup_dir, None);
    assert_eq!(report.changed_session_files, 0);

    let mut run = at_downstream();
    run.note_failure("disk full");
    run.note_failure("still full");
    assert_eq!(run.step, SyncStep::Skipped);
    assert_eq!(
        run.finish(false).message,
        "Provider sync skipped: provider-sync downstream update failed (disk full); backup restore also failed: still full"
    );
}

#[test]
fn a_run_is_skipped_where_it_cannot_go_on() {
    let mut run = run_provider_sync(true);
    assert_eq!(run.explicit_target, None);
    run.note_home(false, "/h");
    let report = run.finish(false);
    assert_eq!(report.message, "Codex home not found: /h");
    assert_eq!(report.target_provider, "openai");

    let mut run = run_provider_sync_with_target(true, Some("a b"));
    run.note_home(true, "/h");
    run.note_config(None);
    assert_eq!(run.step, SyncStep::Skipped);
    assert_eq!(run.finish(false).message, "Invalid provider sync target: \"a b\"");

    let mut run = run_provider_sync(true);
    run.note_home(true, "/h");
    run.note_config(Some("model_provider = \"custom\"\n"));
    run.note_app(&vec![7, 8]);
    let report = run.finish(false);
    assert_eq!(report.target_provider, "custom");
    assert_eq!(
        report.message,
        "Codex App / ChatGPT 仍在运行（进程：7, 8）；请完全退出 App 后再修复历史会话"
    );

    let mut run = run_provider_sync(false);
    run.note_home(true, "/h");
    run.note_config(None);
    run.note_lock(false, "/h/tmp/provider-sync.lock");
    assert_eq!(
        run.finish(false).message,
        "Provider sync lock exists: /h/tmp/provider-sync.lock"
    );

    let mut run = until_collected(true);
    run.note_collected(pending(1), Vec::new(), None, audit(0));
    assert_eq!(run.step, SyncStep::CheckAppBeforeChange);
    run.note_app(&vec![1]);
    assert_eq!(
        run.finish(false).message,
        "Provider sync skipped: Codex App / ChatGPT started while provider sync was scanning rollouts"
    );

    let mut run = until_collected(false);
    run.note_failure("no");
    assert_eq!(run.finish(false).message, "Provider sync skipped: no");
}

#[test]
fn warnings_name_other_providers() {
    let count = |provider: &str, count: usize| ProviderCount {
        provider: provider.to_string(),
        count,
    };
    assert_eq!(build_encrypted_content_warning(&vec![count("custom", 3)], "custom"), None);
    assert_eq!(
        build_encrypted_content_warning(
            &vec![count("a", 1), count("custom", 2), count("b", 4), count("c", 0)],
            "custom"
        ),
        Some("检测到 7 个会话文件包含来自 a, b 的 encrypted_content。可见会话元数据已同步到 custom，但继续或压缩这些历史可能出现 invalid_encrypted_content；需要可靠续聊时请切回原供应商/账号或开启新会话。".to_string())
    );
    assert_eq!(ensure_codex_app_stopped(&Vec::new()), Ok(()));
    assert_eq!(
        ensure_codex_app_stopped(&vec![3]),
        Err("Codex App / ChatGPT 仍在运行（进程：3）；请完全退出 App 后重新预览并确认清理".to_string())
    );
    assert!(app_running_message(&vec![12]).contains("12"));
    assert_eq!(provider_sync_message_with_audit("m", &audit(0)), "m");
    assert_eq!(
        provider_sync_db_paths(&texts(&["a", "b"]), &texts(&["b", "c", "b/"]), false),
        texts(&["a", "b", "c"])
    );
    let plain = result(ProviderSyncStatus::Disabled, "m", "t", None, 1, 2);
    assert_eq!(plain.changed_session_files, 1);
    assert_eq!(plain.sqlite_rows_updated, 2);
    assert_eq!(plain.repair_audit, ProviderSyncAudit::default());
}

#[test]
fn remote_requests_are_checked() {
    assert_eq!(requested_thread(" t "), Some("t".to_string()));
    assert_eq!(requested_thread(&"é".repeat(64)), Some("é".repeat(64)));
    assert_eq!(requested_thread(&"é".repeat(65)), None);
    assert_eq!(requested_thread(" "), None);
    assert!(remote_control_session_recovery_candidate_exists("t", &vec![false, true]));
    assert!(!remote_control_session_recovery_candidate_exists(" ", &vec![true]));
    assert!(!remote_control_session_recovery_candidate_exists("t", &vec![false]));
    assert_eq!(minimum_created_at(1000), 100);
    let refused =
        run_remote_control_session_catalog_recovery_for_thread_with_target(true, " ", "custom")
            .unwrap_err();
    assert_eq!(refused.message, "Remote Control session recovery requires a valid thread id");
    let refused =
        run_remote_control_session_catalog_recovery_for_thread_with_target(true, "t", " openai ")
            .unwrap_err();
    assert_eq!(
        refused.message,
        "Remote Control session recovery requires a non-openai target provider"
    );
    assert_eq!(refused.target_provider, "openai");
    let refused =
        run_remote_control_session_finalization_for_thread_with_target(true, "t", "").unwrap_err();
    assert_eq!(
        refused.message,
        "Remote Control session finalization requires a thread id and target provider"
    );
}

#[test]
fn a_row_of_the_catalog_is_recovered() {
    let start = || {
        run_remote_control_session_catalog_recovery_for_thread_with_target(true, " t ", "custom")
            .unwrap()
    };
    let mut run = start();
    assert_eq!(run.thread_id, "t");
    run.note_lock(true, "/l");
    run.note_app(false);
    run.note_recovered();
    run.note_threads(1);
    run.note_repairs(CatalogRepairCounts {
        inserted_rows: 1,
        removed_rows: 0,
    });
    run.note_providers(2);
    assert_eq!(run.step, RecoveryStep::Complete);
    let report = run.finish();
    assert_eq!(report.message, "Remote Control session catalog recovery complete");
    assert_eq!(report.sqlite_rows_updated, 3);
    assert_eq!(report.sqlite_catalog_rows_inserted, 1);
    let mut run = start();
    run.note_lock(true, "/l");
    run.note_app(true);
    assert_eq!(
        run.finish().message,
        "Remote Control session catalog recovery requires Codex App / ChatGPT to be stopped"
    );
    let mut run = start();
    run.note_lock(true, "/l");
    run.note_app(false);
    run.note_recovered();
    run.note_threads(0);
    assert_eq!(run.finish().message, "Remote Control session catalog already up to date");
    let mut run = start();
    run.note_lock(true, "/l");
    run.note_app(false);
    run.note_failure("no");
    assert_eq!(run.finish().message, "Remote Control session catalog recovery skipped: no");
}

#[test]
fn a_thread_is_finalized() {
    let start = || {
        let mut run =
            run_remote_control_session_finalization_for_thread_with_target(false, "t", "custom")
                .unwrap();
        run.note_lock(true, "/l");
        run.note_done();
        assert_eq!(run.step, FinalizationStep::FindRollout);
        run
    };
    let applied = || {
        let mut run = start();
        run.note_rollout(RemoteControlRolloutLookup::Ready("/h/r".to_string()));
        assert_eq!(run.rollout_path, "/h/r");
        run.note_backup("/b".to_string());
        run.note_applied(1, texts(&["/h/s"]));
        run.note_done();
        assert_eq!(run.step, FinalizationStep::CheckRollout);
        run
    };
    let mut run = applied();
    run.note_checked(true);
    run.note_done();
    run.note_done();
    run.note_repairs(CatalogRepairCounts {
        inserted_rows: 1,
        removed_rows: 1,
    });
    run.note_providers(3);
    run.note_done();
    let report = run.finish();
    assert_eq!(report.message, "Remote Control session finalization complete");
    assert_eq!(report.sqlite_rows_updated, 5);
    assert_eq!(report.backup_dir, Some("/b".to_string()));

    let mut run = applied();
    run.note_checked(false);
    assert_eq!(run.step, FinalizationStep::RollBack);
    run.note_done();
    let report = run.finish();
    assert_eq!(report.status, ProviderSyncStatus::Skipped);
    assert_eq!(report.skipped_locked_rollout_files, texts(&["/h/s"]));
    assert_eq!(
        report.message,
        "Remote Control session finalization deferred for a changed or locked rollout"
    );

    let mut run = start();
    run.note_rollout(RemoteControlRolloutLookup::Archived);
    let report = run.finish();
    assert_eq!(report.status, ProviderSyncStatus::Synced);
    assert_eq!(
        report.message,
        "Remote Control session finalization ignored an archived thread"
    );
    let mut run = start();
    run.note_rollout(RemoteControlRolloutLookup::UnsupportedProvider);
    assert_eq!(run.step, FinalizationStep::Ignored);
    let mut run = start();
    run.note_rollout(RemoteControlRolloutLookup::Missing);
    let report = run.finish();
    assert_eq!(report.status, ProviderSyncStatus::Skipped);
    assert_eq!(
        report.message,
        "Remote Control session finalization deferred until the thread rollout is available"
    );
    let mut run = start();
    run.note_failure("no");
    assert_eq!(run.finish().message, "Remote Control session finalization skipped: no");
}
