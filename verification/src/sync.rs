//! A synchronisation as a whole: the steps that it takes, in which order and under
//! which conditions, and what is reported at its end.

use crate::collect;
use crate::collect::ProviderCount;
use crate::paths;
use crate::provider;
use crate::provider::DEFAULT_PROVIDER;
use crate::repair::SqliteUpdateCounts;
use crate::scan_state::{FileObservation, StateView};
use crate::text;
use crate::threads::ProviderSyncAudit;
use vstd::prelude::*;

verus! {

// ---------------------------------------------------------------------------
// Reports
// ---------------------------------------------------------------------------
#[derive(Debug, Clone, Copy, PartialEq, Eq, Structural)]
pub enum ProviderSyncStatus {
    Disabled,
    Skipped,
    Synced,
}

/// What is reported at the end of a synchronisation.
#[derive(Debug, PartialEq, Eq)]
pub struct ProviderSyncResult {
    pub status: ProviderSyncStatus,
    pub message: String,
    pub target_provider: String,
    pub backup_dir: Option<String>,
    pub changed_session_files: usize,
    pub skipped_locked_rollout_files: Vec<String>,
    pub sqlite_rows_updated: usize,
    pub sqlite_provider_rows_updated: usize,
    pub sqlite_user_event_rows_updated: usize,
    pub sqlite_cwd_rows_updated: usize,
    pub sqlite_catalog_rows_inserted: usize,
    pub sqlite_catalog_rows_removed: usize,
    pub updated_workspace_roots: usize,
    pub encrypted_content_warning: Option<String>,
    pub repair_audit: ProviderSyncAudit,
}

/// What a report says.
#[verifier::ext_equal]
pub struct ResultView {
    pub status: ProviderSyncStatus,
    pub message: Seq<char>,
    pub target_provider: Seq<char>,
    pub backup_dir: Option<Seq<char>>,
    pub changed_session_files: nat,
    pub skipped: Seq<Seq<char>>,
    pub rows: nat,
    pub provider_rows: nat,
    pub user_event_rows: nat,
    pub cwd_rows: nat,
    pub catalog_insert_rows: nat,
    pub catalog_remove_rows: nat,
    pub workspace_roots: nat,
    pub warning: Option<Seq<char>>,
    pub audit: ProviderSyncAudit,
}

impl View for ProviderSyncResult {
    type V = ResultView;

    open spec fn view(&self) -> ResultView {
        ResultView {
            status: self.status,
            message: self.message@,
            target_provider: self.target_provider@,
            backup_dir: text::text_of(self.backup_dir),
            changed_session_files: self.changed_session_files as nat,
            skipped: text::texts(self.skipped_locked_rollout_files@),
            rows: self.sqlite_rows_updated as nat,
            provider_rows: self.sqlite_provider_rows_updated as nat,
            user_event_rows: self.sqlite_user_event_rows_updated as nat,
            cwd_rows: self.sqlite_cwd_rows_updated as nat,
            catalog_insert_rows: self.sqlite_catalog_rows_inserted as nat,
            catalog_remove_rows: self.sqlite_catalog_rows_removed as nat,
            workspace_roots: self.updated_workspace_roots as nat,
            warning: text::text_of(self.encrypted_content_warning),
            audit: self.repair_audit,
        }
    }
}

pub open spec fn no_audit() -> ProviderSyncAudit {
    ProviderSyncAudit {
        catalog_only_sessions: 0,
        catalog_only_with_current_rollout: 0,
        catalog_only_with_backup_database: 0,
        catalog_only_without_recovery_source: 0,
    }
}

/// A report that says little more than how it ended.
pub open spec fn plain_report(
    status: ProviderSyncStatus,
    message: Seq<char>,
    target_provider: Seq<char>,
    backup_dir: Option<Seq<char>>,
    changed_session_files: nat,
    rows: nat,
) -> ResultView {
    ResultView {
        status,
        message,
        target_provider,
        backup_dir,
        changed_session_files,
        skipped: Seq::empty(),
        rows,
        provider_rows: 0,
        user_event_rows: 0,
        cwd_rows: 0,
        catalog_insert_rows: 0,
        catalog_remove_rows: 0,
        workspace_roots: 0,
        warning: None,
        audit: no_audit(),
    }
}

/// A report with nothing but these in it.
pub fn result(
    status: ProviderSyncStatus,
    message: &str,
    target_provider: &str,
    backup_dir: Option<String>,
    changed_session_files: usize,
    sqlite_rows_updated: usize,
) -> (r: ProviderSyncResult)
    ensures
        r@ == plain_report(
            status,
            message@,
            target_provider@,
            text::text_of(backup_dir),
            changed_session_files as nat,
            sqlite_rows_updated as nat,
        ),
{
    let r = ProviderSyncResult {
        status,
        message: text::copy_text(message),
        target_provider: text::copy_text(target_provider),
        backup_dir,
        changed_session_files,
        skipped_locked_rollout_files: Vec::new(),
        sqlite_rows_updated,
        sqlite_provider_rows_updated: 0,
        sqlite_user_event_rows_updated: 0,
        sqlite_cwd_rows_updated: 0,
        sqlite_catalog_rows_inserted: 0,
        sqlite_catalog_rows_removed: 0,
        updated_workspace_roots: 0,
        encrypted_content_warning: None,
        repair_audit: ProviderSyncAudit::default(),
    };
    assert(r@.skipped =~= Seq::<Seq<char>>::empty());
    r
}

/// A report that a synchronisation did not happen.
pub open spec fn skip_report(message: Seq<char>, target_provider: Seq<char>) -> ResultView {
    plain_report(ProviderSyncStatus::Skipped, message, target_provider, None, 0, 0)
}

/// A message, with what the audit found where it found anything.
pub open spec fn audited(message: Seq<char>, a: ProviderSyncAudit) -> Seq<char> {
    if a.catalog_only_sessions == 0 {
        message
    } else {
        message + "；审计发现 "@ + text::decimal(a.catalog_only_sessions as nat)
            + " 条仅存在于本地会话目录的记录，其中 "@ + text::decimal(
            a.catalog_only_with_current_rollout as nat,
        ) + " 条仍有当前 rollout、"@ + text::decimal(a.catalog_only_with_backup_database as nat)
            + " 条只能在历史数据库备份中找到，"@ + text::decimal(
            a.catalog_only_without_recovery_source as nat,
        ) + " 条没有可用恢复来源；未自动重建缺失的 canonical 会话。"@
    }
}

/// A message with what an audit found.
pub fn provider_sync_message_with_audit(message: &str, audit: &ProviderSyncAudit) -> (r: String)
    ensures
        r@ == audited(message@, *audit),
{
    let mut out = text::copy_text(message);
    if audit.catalog_only_sessions == 0 {
        return out;
    }
    text::append_text(&mut out, "；审计发现 ");
    text::append_text(&mut out, text::decimal_text(audit.catalog_only_sessions as u64).as_str());
    text::append_text(&mut out, " 条仅存在于本地会话目录的记录，其中 ");
    text::append_text(
        &mut out,
        text::decimal_text(audit.catalog_only_with_current_rollout as u64).as_str(),
    );
    text::append_text(&mut out, " 条仍有当前 rollout、");
    text::append_text(
        &mut out,
        text::decimal_text(audit.catalog_only_with_backup_database as u64).as_str(),
    );
    text::append_text(&mut out, " 条只能在历史数据库备份中找到，");
    text::append_text(
        &mut out,
        text::decimal_text(audit.catalog_only_without_recovery_source as u64).as_str(),
    );
    text::append_text(
        &mut out,
        " 条没有可用恢复来源；未自动重建缺失的 canonical 会话。",
    );
    out
}

// ---------------------------------------------------------------------------
// Warnings
// ---------------------------------------------------------------------------
/// The providers other than the target that encrypted content comes from.
pub open spec fn risky_providers(counts: Seq<ProviderCount>, target: Seq<char>) -> Seq<Seq<char>>
    decreases counts.len(),
{
    if counts.len() == 0 {
        Seq::empty()
    } else {
        let before = risky_providers(counts.drop_last(), target);
        if counts.last().provider@ != target && counts.last().count > 0 {
            before.push(counts.last().provider@)
        } else {
            before
        }
    }
}

pub open spec fn count_sum(counts: Seq<ProviderCount>) -> nat
    decreases counts.len(),
{
    if counts.len() == 0 {
        0
    } else {
        count_sum(counts.drop_last()) + counts.last().count as nat
    }
}

pub open spec fn encrypted_warning(counts: Seq<ProviderCount>, target: Seq<char>) -> Option<
    Seq<char>,
> {
    let risky = risky_providers(counts, target);
    if risky.len() == 0 {
        None
    } else {
        Some(
            "检测到 "@ + text::decimal(count_sum(counts)) + " 个会话文件包含来自 "@
                + text::separated(risky, ", "@)
                + " 的 encrypted_content。可见会话元数据已同步到 "@ + target
                + "，但继续或压缩这些历史可能出现 invalid_encrypted_content；需要可靠续聊时请切回原供应商/账号或开启新会话。"@,
        )
    }
}

proof fn lemma_count_sum_grows(counts: Seq<ProviderCount>, i: int)
    requires
        0 <= i <= counts.len(),
    ensures
        count_sum(counts.take(i)) <= count_sum(counts),
    decreases counts.len(),
{
    if i < counts.len() {
        assert(counts.drop_last().take(i) =~= counts.take(i));
        lemma_count_sum_grows(counts.drop_last(), i);
    } else {
        assert(counts.take(i) =~= counts);
    }
}

/// Warns of encrypted content that another provider than the target made.
pub fn build_encrypted_content_warning(
    encrypted_content_counts: &Vec<ProviderCount>,
    target_provider: &str,
) -> (r: Option<String>)
    requires
        count_sum(encrypted_content_counts@) <= usize::MAX,
    ensures
        text::text_of(r) == encrypted_warning(encrypted_content_counts@, target_provider@),
{
    let counts = encrypted_content_counts;
    let mut risky: Vec<String> = Vec::new();
    let mut total: usize = 0;
    let mut i: usize = 0;
    assert(text::texts(risky@) =~= Seq::<Seq<char>>::empty());
    while i < counts.len()
        invariant
            i <= counts.len(),
            counts@ == encrypted_content_counts@,
            count_sum(counts@) <= usize::MAX,
            text::texts(risky@) == risky_providers(counts@.take(i as int), target_provider@),
            total == count_sum(counts@.take(i as int)),
        decreases counts.len() - i,
    {
        proof {
            assert(counts@.take(i + 1).drop_last() =~= counts@.take(i as int));
            lemma_count_sum_grows(counts@, i + 1);
        }
        if !text::same_text(counts[i].provider.as_str(), target_provider) && counts[i].count > 0 {
            let ghost before = text::texts(risky@);
            risky.push(text::copy_text(counts[i].provider.as_str()));
            assert(text::texts(risky@) =~= before.push(counts@[i as int].provider@));
        }
        total = total + counts[i].count;
        i += 1;
    }
    assert(counts@.take(i as int) =~= counts@);
    assert(text::texts(risky@).len() == risky@.len());
    if risky.len() == 0 {
        return None;
    }
    let mut out = text::join_text("检测到 ", text::decimal_text(total as u64).as_str());
    text::append_text(&mut out, " 个会话文件包含来自 ");
    text::append_text(&mut out, text::separate_texts(&risky, ", ").as_str());
    text::append_text(&mut out, " 的 encrypted_content。可见会话元数据已同步到 ");
    text::append_text(&mut out, target_provider);
    text::append_text(
        &mut out,
        "，但继续或压缩这些历史可能出现 invalid_encrypted_content；需要可靠续聊时请切回原供应商/账号或开启新会话。",
    );
    Some(out)
}

/// Process numbers as they are shown.
pub open spec fn shown_processes(pids: Seq<u32>) -> Seq<char> {
    text::separated(pids.map_values(|p: u32| text::decimal(p as nat)), ", "@)
}

fn show_processes(pids: &Vec<u32>) -> (r: String)
    ensures
        r@ == shown_processes(pids@),
{
    let ghost all = pids@.map_values(|p: u32| text::decimal(p as nat));
    let mut shown: Vec<String> = Vec::new();
    let mut i: usize = 0;
    while i < pids.len()
        invariant
            i <= pids.len(),
            all == pids@.map_values(|p: u32| text::decimal(p as nat)),
            text::texts(shown@) == all.take(i as int),
        decreases pids.len() - i,
    {
        let ghost before = text::texts(shown@);
        shown.push(text::decimal_text(pids[i] as u64));
        assert(text::texts(shown@) =~= before.push(all[i as int]));
        i += 1;
    }
    assert(text::texts(shown@) =~= all);
    text::separate_texts(&shown, ", ")
}

pub open spec fn running_message(pids: Seq<u32>) -> Seq<char> {
    "Codex App / ChatGPT 仍在运行（进程："@ + shown_processes(pids)
        + "）；请完全退出 App 后再修复历史会话"@
}

/// Says which processes of the application keep a synchronisation from happening.
pub fn app_running_message(pids: &Vec<u32>) -> (r: String)
    ensures
        r@ == running_message(pids@),
{
    let mut out = text::join_text(
        "Codex App / ChatGPT 仍在运行（进程：",
        show_processes(pids).as_str(),
    );
    text::append_text(&mut out, "）；请完全退出 App 后再修复历史会话");
    out
}

/// Says which processes of the application keep the index of sessions from being
/// cleaned up, if any do.
pub fn ensure_codex_app_stopped(pids: &Vec<u32>) -> (r: Result<(), String>)
    ensures
        match r {
            Ok(_) => pids@.len() == 0,
            Err(message) => pids@.len() > 0 && message@ == "Codex App / ChatGPT 仍在运行（进程："@
                + shown_processes(pids@) + "）；请完全退出 App 后重新预览并确认清理"@,
        },
{
    if pids.len() == 0 {
        return Ok(());
    }
    let mut out = text::join_text(
        "Codex App / ChatGPT 仍在运行（进程：",
        show_processes(pids).as_str(),
    );
    text::append_text(&mut out, "）；请完全退出 App 后重新预览并确认清理");
    Err(out)
}

/// The databases of sessions, then those that refer to threads, unless they are listed
/// already, in whatever spelling.
pub fn provider_sync_db_paths(
    session_paths: &Vec<String>,
    reference_paths: &Vec<String>,
    windows: bool,
) -> (r: Vec<String>)
    ensures
        text::texts(r@) == paths::with_paths(
            text::texts(session_paths@),
            text::texts(reference_paths@),
            windows,
        ),
{
    let mut out = text::copy_texts(session_paths);
    paths::insert_paths(&mut out, reference_paths, windows);
    out
}

// ---------------------------------------------------------------------------
// The steps
// ---------------------------------------------------------------------------
/// What is to be done next.
#[derive(Debug, Clone, Copy, PartialEq, Eq, Structural)]
pub enum SyncStep {
    FindHome,
    ResolveTarget,
    CheckApp,
    AcquireLock,
    RecheckApp,
    RecoverTransactions,
    Collect,
    CheckAppBeforeReport,
    PersistScanState,
    CheckAppBeforeChange,
    CreateBackup,
    ApplyRollouts,
    MarkRolloutsApplied,
    MarkDownstreamStarted,
    ApplyDownstream,
    RestoreDownstream,
    RollBack,
    MarkCommitDecided,
    Commit,
    PersistCommittedScanState,
    PruneBackups,
    /// Nothing was done, or what was done is taken back now or by the next run.
    Skipped,
    UpToDate,
    Complete,
}

/// What came of a step.
#[derive(Debug, Clone, Copy, PartialEq, Eq, Structural)]
pub enum SyncOutcome {
    Good,
    Bad,
    /// Everything is as it should be.
    NothingToDo,
}

/// The step that follows on a step.
pub open spec fn next_step(s: SyncStep, o: SyncOutcome, require_stopped_app: bool) -> SyncStep {
    let good = !(o is Bad);
    match s {
        SyncStep::FindHome => if good {
            SyncStep::ResolveTarget
        } else {
            SyncStep::Skipped
        },
        SyncStep::ResolveTarget => if !good {
            SyncStep::Skipped
        } else if require_stopped_app {
            SyncStep::CheckApp
        } else {
            SyncStep::AcquireLock
        },
        SyncStep::CheckApp => if good {
            SyncStep::AcquireLock
        } else {
            SyncStep::Skipped
        },
        SyncStep::AcquireLock => if !good {
            SyncStep::Skipped
        } else if require_stopped_app {
            SyncStep::RecheckApp
        } else {
            SyncStep::RecoverTransactions
        },
        SyncStep::RecheckApp => if good {
            SyncStep::RecoverTransactions
        } else {
            SyncStep::Skipped
        },
        SyncStep::RecoverTransactions => if good {
            SyncStep::Collect
        } else {
            SyncStep::Skipped
        },
        SyncStep::Collect => match o {
            SyncOutcome::Bad => SyncStep::Skipped,
            SyncOutcome::NothingToDo => if require_stopped_app {
                SyncStep::CheckAppBeforeReport
            } else {
                SyncStep::PersistScanState
            },
            SyncOutcome::Good => if require_stopped_app {
                SyncStep::CheckAppBeforeChange
            } else {
                SyncStep::CreateBackup
            },
        },
        SyncStep::CheckAppBeforeReport => if good {
            SyncStep::PersistScanState
        } else {
            SyncStep::Skipped
        },
        SyncStep::PersistScanState => SyncStep::UpToDate,
        SyncStep::CheckAppBeforeChange => if good {
            SyncStep::CreateBackup
        } else {
            SyncStep::Skipped
        },
        SyncStep::CreateBackup => if good {
            SyncStep::ApplyRollouts
        } else {
            SyncStep::Skipped
        },
        SyncStep::ApplyRollouts => if good {
            SyncStep::MarkRolloutsApplied
        } else {
            SyncStep::Skipped
        },
        SyncStep::MarkRolloutsApplied => if good {
            SyncStep::MarkDownstreamStarted
        } else {
            SyncStep::Skipped
        },
        SyncStep::MarkDownstreamStarted => if good {
            SyncStep::ApplyDownstream
        } else {
            SyncStep::Skipped
        },
        SyncStep::ApplyDownstream => if good {
            SyncStep::MarkCommitDecided
        } else {
            SyncStep::RestoreDownstream
        },
        SyncStep::RestoreDownstream => if good {
            SyncStep::RollBack
        } else {
            SyncStep::Skipped
        },
        SyncStep::RollBack => SyncStep::Skipped,
        SyncStep::MarkCommitDecided => if good {
            SyncStep::Commit
        } else {
            SyncStep::Skipped
        },
        SyncStep::Commit => if good {
            SyncStep::PersistCommittedScanState
        } else {
            SyncStep::Skipped
        },
        SyncStep::PersistCommittedScanState => SyncStep::PruneBackups,
        SyncStep::PruneBackups => if good {
            SyncStep::Complete
        } else {
            SyncStep::Skipped
        },
        SyncStep::Skipped | SyncStep::UpToDate | SyncStep::Complete => s,
    }
}

fn step_after(s: SyncStep, o: SyncOutcome, require_stopped_app: bool) -> (r: SyncStep)
    ensures
        r == next_step(s, o, require_stopped_app),
{
    let good = !matches!(o, SyncOutcome::Bad);
    if !good {
        return match s {
            SyncStep::PersistScanState => SyncStep::UpToDate,
            SyncStep::ApplyDownstream => SyncStep::RestoreDownstream,
            SyncStep::PersistCommittedScanState => SyncStep::PruneBackups,
            SyncStep::UpToDate => SyncStep::UpToDate,
            SyncStep::Complete => SyncStep::Complete,
            _ => SyncStep::Skipped,
        };
    }
    match s {
        SyncStep::FindHome => SyncStep::ResolveTarget,
        SyncStep::ResolveTarget => if require_stopped_app {
            SyncStep::CheckApp
        } else {
            SyncStep::AcquireLock
        },
        SyncStep::CheckApp => SyncStep::AcquireLock,
        SyncStep::AcquireLock => if require_stopped_app {
            SyncStep::RecheckApp
        } else {
            SyncStep::RecoverTransactions
        },
        SyncStep::RecheckApp => SyncStep::RecoverTransactions,
        SyncStep::RecoverTransactions => SyncStep::Collect,
        SyncStep::Collect => match o {
            SyncOutcome::NothingToDo => if require_stopped_app {
                SyncStep::CheckAppBeforeReport
            } else {
                SyncStep::PersistScanState
            },
            _ => if require_stopped_app {
                SyncStep::CheckAppBeforeChange
            } else {
                SyncStep::CreateBackup
            },
        },
        SyncStep::CheckAppBeforeReport => SyncStep::PersistScanState,
        SyncStep::PersistScanState => SyncStep::UpToDate,
        SyncStep::CheckAppBeforeChange => SyncStep::CreateBackup,
        SyncStep::CreateBackup => SyncStep::ApplyRollouts,
        SyncStep::ApplyRollouts => SyncStep::MarkRolloutsApplied,
        SyncStep::MarkRolloutsApplied => SyncStep::MarkDownstreamStarted,
        SyncStep::MarkDownstreamStarted => SyncStep::ApplyDownstream,
        SyncStep::ApplyDownstream => SyncStep::MarkCommitDecided,
        SyncStep::RestoreDownstream => SyncStep::RollBack,
        SyncStep::RollBack => SyncStep::Skipped,
        SyncStep::MarkCommitDecided => SyncStep::Commit,
        SyncStep::Commit => SyncStep::PersistCommittedScanState,
        SyncStep::PersistCommittedScanState => SyncStep::PruneBackups,
        SyncStep::PruneBackups => SyncStep::Complete,
        SyncStep::Skipped => SyncStep::Skipped,
        SyncStep::UpToDate => SyncStep::UpToDate,
        SyncStep::Complete => SyncStep::Complete,
    }
}

/// Whether a step is only taken while the lock is held.
pub open spec fn needs_lock(s: SyncStep) -> bool {
    match s {
        SyncStep::FindHome | SyncStep::ResolveTarget | SyncStep::CheckApp
        | SyncStep::AcquireLock | SyncStep::Skipped | SyncStep::UpToDate | SyncStep::Complete => false,
        _ => true,
    }
}

/// Whether a step changes the user's files, or is taken after such a step.
pub open spec fn changes_files(s: SyncStep) -> bool {
    match s {
        SyncStep::CreateBackup | SyncStep::ApplyRollouts | SyncStep::MarkRolloutsApplied
        | SyncStep::MarkDownstreamStarted | SyncStep::ApplyDownstream
        | SyncStep::RestoreDownstream | SyncStep::RollBack | SyncStep::MarkCommitDecided
        | SyncStep::Commit | SyncStep::PersistCommittedScanState | SyncStep::PruneBackups => true,
        _ => false,
    }
}

/// How many steps may follow on a step.
pub open spec fn steps_left(s: SyncStep) -> nat {
    match s {
        SyncStep::FindHome => 20,
        SyncStep::ResolveTarget => 19,
        SyncStep::CheckApp => 18,
        SyncStep::AcquireLock => 17,
        SyncStep::RecheckApp => 16,
        SyncStep::RecoverTransactions => 15,
        SyncStep::Collect => 14,
        SyncStep::CheckAppBeforeReport => 2,
        SyncStep::PersistScanState => 1,
        SyncStep::CheckAppBeforeChange => 13,
        SyncStep::CreateBackup => 12,
        SyncStep::ApplyRollouts => 11,
        SyncStep::MarkRolloutsApplied => 10,
        SyncStep::MarkDownstreamStarted => 9,
        SyncStep::ApplyDownstream => 8,
        SyncStep::RestoreDownstream => 2,
        SyncStep::RollBack => 1,
        SyncStep::MarkCommitDecided => 4,
        SyncStep::Commit => 3,
        SyncStep::PersistCommittedScanState => 2,
        SyncStep::PruneBackups => 1,
        SyncStep::Skipped | SyncStep::UpToDate | SyncStep::Complete => 0,
    }
}

/// Nothing is read or changed without the lock: the steps that need it follow on the
/// step that takes it.
pub proof fn lemma_steps_need_the_lock(s: SyncStep, o: SyncOutcome, require_stopped_app: bool)
    requires
        !needs_lock(s),
        needs_lock(next_step(s, o, require_stopped_app)),
    ensures
        s == SyncStep::AcquireLock,
        !(o is Bad),
{
}

/// The user's files are only changed where there is something to change, and where the
/// application has to be stopped, it was found stopped just before.
pub proof fn lemma_changes_follow_a_check(s: SyncStep, o: SyncOutcome, require_stopped_app: bool)
    requires
        !changes_files(s),
        changes_files(next_step(s, o, require_stopped_app)),
    ensures
        next_step(s, o, require_stopped_app) == SyncStep::CreateBackup,
        !(o is Bad),
        if require_stopped_app {
            s == SyncStep::CheckAppBeforeChange
        } else {
            s == SyncStep::CheckAppBeforeChange || (s == SyncStep::Collect && o
                == SyncOutcome::Good)
        },
{
}

/// A commit is decided on only after the databases and the global state are changed;
/// where that fails, they are put back before the rollout files are.
pub proof fn lemma_commit_follows_downstream(s: SyncStep, o: SyncOutcome, require_stopped_app: bool)
    ensures
        next_step(s, o, require_stopped_app) == SyncStep::MarkCommitDecided && s
            != SyncStep::MarkCommitDecided ==> s == SyncStep::ApplyDownstream && !(o is Bad),
        s == SyncStep::ApplyDownstream && o is Bad ==> next_step(s, o, require_stopped_app)
            == SyncStep::RestoreDownstream,
        next_step(s, o, require_stopped_app) == SyncStep::RollBack ==> s
            == SyncStep::RestoreDownstream && !(o is Bad),
        next_step(s, o, require_stopped_app) == SyncStep::Complete && s != SyncStep::Complete
            ==> s == SyncStep::PruneBackups && !(o is Bad),
{
}

/// A synchronisation ends.
pub proof fn lemma_synchronisation_ends(s: SyncStep, o: SyncOutcome, require_stopped_app: bool)
    requires
        steps_left(s) > 0,
    ensures
        steps_left(next_step(s, o, require_stopped_app)) < steps_left(s),
{
}

// ---------------------------------------------------------------------------
// A run
// ---------------------------------------------------------------------------
/// A synchronisation while it goes on.
#[derive(Debug)]
pub struct SyncRun {
    pub step: SyncStep,
    pub require_stopped_app: bool,
    pub explicit_target: Option<String>,
    pub target_provider: String,
    /// Why the synchronisation is given up.
    pub message: String,
    pub skipped: Vec<String>,
    pub warning: Option<String>,
    pub audit: ProviderSyncAudit,
    pub backup_dir: Option<String>,
    pub changed_files: usize,
    pub counts: SqliteUpdateCounts,
    pub workspace_roots: usize,
}

/// How many things each part of a synchronisation would change.
#[derive(Debug, Clone, Copy, PartialEq, Eq, Structural)]
pub struct PendingChanges {
    pub rewrites: usize,
    pub sqlite_updates: usize,
    pub catalog_repairs: usize,
    pub global_state_updates: usize,
}

pub open spec fn nothing_pending(p: PendingChanges) -> bool {
    p.rewrites == 0 && p.sqlite_updates == 0 && p.catalog_repairs == 0 && p.global_state_updates
        == 0
}

pub open spec fn collect_outcome(p: PendingChanges) -> SyncOutcome {
    if nothing_pending(p) {
        SyncOutcome::NothingToDo
    } else {
        SyncOutcome::Good
    }
}

pub open spec fn good_or_bad(good: bool) -> SyncOutcome {
    if good {
        SyncOutcome::Good
    } else {
        SyncOutcome::Bad
    }
}

/// The message about a running application, by the step at which it was seen.
pub open spec fn app_message(s: SyncStep, pids: Seq<u32>) -> Seq<char> {
    match s {
        SyncStep::CheckApp => running_message(pids),
        SyncStep::RecheckApp => "Codex App / ChatGPT started before provider-sync recovery"@,
        _ => "Provider sync skipped: Codex App / ChatGPT started while provider sync was scanning rollouts"@,
    }
}

pub open spec fn is_app_check(s: SyncStep) -> bool {
    s == SyncStep::CheckApp || s == SyncStep::RecheckApp || s == SyncStep::CheckAppBeforeReport
        || s == SyncStep::CheckAppBeforeChange
}

/// Steps at which a failure ends the synchronisation.
pub open spec fn may_fail(s: SyncStep) -> bool {
    match s {
        SyncStep::RecoverTransactions | SyncStep::Collect | SyncStep::CreateBackup
        | SyncStep::ApplyRollouts | SyncStep::MarkRolloutsApplied
        | SyncStep::MarkDownstreamStarted | SyncStep::ApplyDownstream
        | SyncStep::RestoreDownstream | SyncStep::RollBack | SyncStep::MarkCommitDecided
        | SyncStep::Commit | SyncStep::PruneBackups => true,
        _ => false,
    }
}

/// Steps that bring nothing to remember.
pub open spec fn is_plain(s: SyncStep) -> bool {
    match s {
        SyncStep::RecoverTransactions | SyncStep::PersistScanState
        | SyncStep::MarkRolloutsApplied | SyncStep::MarkDownstreamStarted
        | SyncStep::RestoreDownstream | SyncStep::RollBack | SyncStep::MarkCommitDecided
        | SyncStep::Commit | SyncStep::PersistCommittedScanState | SyncStep::PruneBackups => true,
        _ => false,
    }
}

/// Whether two runs differ in their step and message at most.
pub open spec fn same_findings(a: SyncRun, b: SyncRun) -> bool {
    &&& a.require_stopped_app == b.require_stopped_app
    &&& a.explicit_target == b.explicit_target
    &&& a.target_provider == b.target_provider
    &&& a.skipped == b.skipped
    &&& a.warning == b.warning
    &&& a.audit == b.audit
    &&& a.backup_dir == b.backup_dir
    &&& a.changed_files == b.changed_files
    &&& a.counts == b.counts
    &&& a.workspace_roots == b.workspace_roots
}

/// The message when a step fails.
pub open spec fn failure_message(s: SyncStep, before: Seq<char>, error: Seq<char>) -> Seq<char> {
    match s {
        SyncStep::RestoreDownstream =>
            "Provider sync skipped: provider-sync downstream update failed ("@ + before
            + "); backup restore also failed: "@ + error,
        SyncStep::ApplyDownstream => error,
        _ => "Provider sync skipped: "@ + error,
    }
}

/// Begins a synchronisation with the provider that the configuration names. The
/// application has to be stopped where the home directory is the usual one.
pub fn run_provider_sync(require_stopped_app: bool) -> (r: SyncRun)
    ensures
        begins(r, require_stopped_app),
        r.explicit_target is None,
{
    run_provider_sync_with_target(require_stopped_app, None)
}

/// Whether a run is at its beginning.
pub open spec fn begins(r: SyncRun, require_stopped_app: bool) -> bool {
    &&& r.step == SyncStep::FindHome
    &&& r.require_stopped_app == require_stopped_app
    &&& r.target_provider@ == DEFAULT_PROVIDER@
    &&& r.message@ == ""@
    &&& r.skipped@.len() == 0
    &&& r.warning is None
    &&& r.audit == no_audit()
    &&& r.backup_dir is None
    &&& r.changed_files == 0
    &&& r.counts.sum() == 0
    &&& r.workspace_roots == 0
}

/// Begins a synchronisation with a provider that is asked for, or with the one that the
/// configuration names.
pub fn run_provider_sync_with_target(
    require_stopped_app: bool,
    explicit_target_provider: Option<&str>,
) -> (r: SyncRun)
    ensures
        begins(r, require_stopped_app),
        text::text_of(r.explicit_target) == text::str_of(explicit_target_provider),
{
    SyncRun {
        step: SyncStep::FindHome,
        require_stopped_app,
        explicit_target: match explicit_target_provider {
            Some(s) => Some(text::copy_text(s)),
            None => None,
        },
        target_provider: text::copy_text(DEFAULT_PROVIDER),
        message: text::copy_text(""),
        skipped: Vec::new(),
        warning: None,
        audit: ProviderSyncAudit::default(),
        backup_dir: None,
        changed_files: 0,
        counts: SqliteUpdateCounts::none(),
        workspace_roots: 0,
    }
}

impl SyncRun {
    /// Notes whether the home directory is there.
    pub fn note_home(&mut self, found: bool, home: &str)
        requires
            old(self).step == SyncStep::FindHome,
        ensures
            final(self).step == next_step(
                old(self).step,
                good_or_bad(found),
                old(self).require_stopped_app,
            ),
            same_findings(*final(self), *old(self)),
            final(self).message@ == if found {
                old(self).message@
            } else {
                "Codex home not found: "@ + home@
            },
    {
        if found {
            self.step = step_after(self.step, SyncOutcome::Good, self.require_stopped_app);
        } else {
            self.message = text::join_text("Codex home not found: ", home);
            self.step = step_after(self.step, SyncOutcome::Bad, self.require_stopped_app);
        }
    }

    /// Notes the configuration, and finds the provider that is aimed at.
    pub fn note_config(&mut self, config: Option<&str>)
        requires
            old(self).step == SyncStep::ResolveTarget,
        ensures
            match provider::target_of(text::str_of(config), text::text_of(old(self).explicit_target)) {
                Ok(target) => final(self).target_provider@ == target && final(self).message
                    == old(self).message && final(self).step == next_step(
                    old(self).step,
                    SyncOutcome::Good,
                    old(self).require_stopped_app,
                ),
                Err(message) => final(self).target_provider == old(self).target_provider
                    && final(self).message@ == message && final(self).step == SyncStep::Skipped,
            },
            same_findings(
                *final(self),
                SyncRun { target_provider: final(self).target_provider, ..*old(self) },
            ),
    {
        let explicit = match &self.explicit_target {
            Some(s) => Some(s.as_str()),
            None => None,
        };
        match provider::resolve_target_provider(config, explicit) {
            Ok(target) => {
                self.target_provider = target;
                self.step = step_after(self.step, SyncOutcome::Good, self.require_stopped_app);
            },
            Err(message) => {
                self.message = message;
                self.step = SyncStep::Skipped;
            },
        }
    }

    /// Notes which processes of the application run.
    pub fn note_app(&mut self, pids: &Vec<u32>)
        requires
            is_app_check(old(self).step),
        ensures
            final(self).step == next_step(
                old(self).step,
                good_or_bad(pids@.len() == 0),
                old(self).require_stopped_app,
            ),
            same_findings(*final(self), *old(self)),
            final(self).message@ == if pids@.len() == 0 {
                old(self).message@
            } else {
                app_message(old(self).step, pids@)
            },
    {
        if pids.len() == 0 {
            self.step = step_after(self.step, SyncOutcome::Good, self.require_stopped_app);
        } else {
            self.message = match self.step {
                SyncStep::CheckApp => app_running_message(pids),
                SyncStep::RecheckApp => text::copy_text(
                    "Codex App / ChatGPT started before provider-sync recovery",
                ),
                _ => text::copy_text(
                    "Provider sync skipped: Codex App / ChatGPT started while provider sync was scanning rollouts",
                ),
            };
            self.step = step_after(self.step, SyncOutcome::Bad, self.require_stopped_app);
        }
    }

    /// Notes whether the lock was taken.
    pub fn note_lock(&mut self, taken: bool, lock_dir: &str)
        requires
            old(self).step == SyncStep::AcquireLock,
        ensures
            final(self).step == next_step(
                old(self).step,
                good_or_bad(taken),
                old(self).require_stopped_app,
            ),
            same_findings(*final(self), *old(self)),
            final(self).message@ == if taken {
                old(self).message@
            } else {
                "Provider sync lock exists: "@ + lock_dir@
            },
    {
        if taken {
            self.step = step_after(self.step, SyncOutcome::Good, self.require_stopped_app);
        } else {
            self.message = text::join_text("Provider sync lock exists: ", lock_dir);
            self.step = step_after(self.step, SyncOutcome::Bad, self.require_stopped_app);
        }
    }

    /// Notes that a step is done.
    pub fn note_done(&mut self)
        requires
            is_plain(old(self).step),
        ensures
            final(self).step == next_step(
                old(self).step,
                SyncOutcome::Good,
                old(self).require_stopped_app,
            ),
            same_findings(*final(self), *old(self)),
            final(self).message@ == if old(self).step == SyncStep::RollBack {
                "Provider sync skipped: "@ + old(self).message@
            } else {
                old(self).message@
            },
    {
        if matches!(self.step, SyncStep::RollBack) {
            self.message = text::join_text("Provider sync skipped: ", self.message.as_str());
        }
        self.step = step_after(self.step, SyncOutcome::Good, self.require_stopped_app);
    }

    /// Notes that a step failed. After a failure to change the databases or the global
    /// state, they are put back, then the rollout files.
    pub fn note_failure(&mut self, error: &str)
        requires
            may_fail(old(self).step),
        ensures
            final(self).step == next_step(
                old(self).step,
                SyncOutcome::Bad,
                old(self).require_stopped_app,
            ),
            same_findings(*final(self), *old(self)),
            final(self).message@ == failure_message(old(self).step, old(self).message@, error@),
    {
        self.message = match self.step {
            SyncStep::RestoreDownstream => {
                let mut out = text::join_text(
                    "Provider sync skipped: provider-sync downstream update failed (",
                    self.message.as_str(),
                );
                text::append_text(&mut out, "); backup restore also failed: ");
                text::append_text(&mut out, error);
                out
            },
            SyncStep::ApplyDownstream => text::copy_text(error),
            _ => text::join_text("Provider sync skipped: ", error),
        };
        self.step = step_after(self.step, SyncOutcome::Bad, self.require_stopped_app);
    }

    /// Notes what was found: how much there is to change, and what is to be reported.
    pub fn note_collected(
        &mut self,
        pending: PendingChanges,
        skipped: Vec<String>,
        warning: Option<String>,
        audit: ProviderSyncAudit,
    )
        requires
            old(self).step == SyncStep::Collect,
        ensures
            *final(self) == (SyncRun {
                step: next_step(
                    old(self).step,
                    collect_outcome(pending),
                    old(self).require_stopped_app,
                ),
                skipped,
                warning,
                audit,
                ..*old(self)
            }),
    {
        self.skipped = skipped;
        self.warning = warning;
        self.audit = audit;
        let outcome = if pending.rewrites == 0 && pending.sqlite_updates == 0
            && pending.catalog_repairs == 0 && pending.global_state_updates == 0 {
            SyncOutcome::NothingToDo
        } else {
            SyncOutcome::Good
        };
        self.step = step_after(self.step, outcome, self.require_stopped_app);
    }

    /// Notes the backup that was made.
    pub fn note_backup(&mut self, backup_dir: String)
        requires
            old(self).step == SyncStep::CreateBackup,
        ensures
            *final(self) == (SyncRun {
                step: SyncStep::ApplyRollouts,
                backup_dir: Some(backup_dir),
                ..*old(self)
            }),
    {
        self.backup_dir = Some(backup_dir);
        self.step = SyncStep::ApplyRollouts;
    }

    /// Notes how many rollout files were replaced and which were left alone.
    pub fn note_rollouts(&mut self, changed_files: usize, skipped: &Vec<String>)
        requires
            old(self).step == SyncStep::ApplyRollouts,
        ensures
            final(self).step == SyncStep::MarkRolloutsApplied,
            final(self).changed_files == changed_files,
            text::texts(final(self).skipped@) == text::texts(old(self).skipped@) + text::texts(
                skipped@,
            ),
            same_findings(
                *final(self),
                SyncRun {
                    skipped: final(self).skipped,
                    changed_files: final(self).changed_files,
                    ..*old(self)
                },
            ),
            final(self).message == old(self).message,
    {
        let ghost before = text::texts(self.skipped@);
        let ghost more = text::texts(skipped@);
        let mut i: usize = 0;
        assert(before + more.take(0) =~= before);
        while i < skipped.len()
            invariant
                i <= skipped.len(),
                more == text::texts(skipped@),
                text::texts(self.skipped@) == before + more.take(i as int),
                same_findings(*self, SyncRun { skipped: self.skipped, ..*old(self) }),
                self.message == old(self).message,
                self.step == old(self).step,
            decreases skipped.len() - i,
        {
            let ghost now = text::texts(self.skipped@);
            self.skipped.push(text::copy_text(skipped[i].as_str()));
            proof {
                assert(text::texts(self.skipped@) =~= now.push(skipped@[i as int]@));
                assert(more[i as int] == skipped@[i as int]@);
                assert(before + more.take(i + 1) =~= (before + more.take(i as int)).push(
                    more[i as int],
                ));
            }
            i += 1;
        }
        assert(more.take(i as int) =~= more);
        self.changed_files = changed_files;
        self.step = SyncStep::MarkRolloutsApplied;
    }

    /// Notes what was changed in the databases and in the global state.
    pub fn note_downstream(&mut self, counts: SqliteUpdateCounts, workspace_roots: usize)
        requires
            old(self).step == SyncStep::ApplyDownstream,
        ensures
            *final(self) == (SyncRun {
                step: SyncStep::MarkCommitDecided,
                counts,
                workspace_roots,
                ..*old(self)
            }),
    {
        self.counts = counts;
        self.workspace_roots = workspace_roots;
        self.step = SyncStep::MarkCommitDecided;
    }

    /// What is reported at the end of a run.
    pub open spec fn report(self, skipped: Seq<Seq<char>>) -> ResultView {
        match self.step {
            SyncStep::Complete => ResultView {
                skipped,
                provider_rows: self.counts.provider_rows as nat,
                user_event_rows: self.counts.user_event_rows as nat,
                cwd_rows: self.counts.cwd_rows as nat,
                catalog_insert_rows: self.counts.catalog_insert_rows as nat,
                catalog_remove_rows: self.counts.catalog_remove_rows as nat,
                workspace_roots: self.workspace_roots as nat,
                warning: text::text_of(self.warning),
                audit: self.audit,
                ..plain_report(
                    ProviderSyncStatus::Synced,
                    audited("Provider sync complete"@, self.audit),
                    self.target_provider@,
                    text::text_of(self.backup_dir),
                    self.changed_files as nat,
                    self.counts.sum(),
                )
            },
            SyncStep::UpToDate => ResultView {
                skipped,
                warning: text::text_of(self.warning),
                audit: self.audit,
                ..plain_report(
                    ProviderSyncStatus::Synced,
                    audited("Provider sync already up to date"@, self.audit),
                    self.target_provider@,
                    None,
                    0,
                    0,
                )
            },
            _ => skip_report(self.message@, self.target_provider@),
        }
    }

    /// Reports on a run that has come to its end. Where files were changed, those that
    /// were left alone are listed in order, each once.
    pub fn finish(self, windows: bool) -> (r: ProviderSyncResult)
        requires
            steps_left(self.step) == 0,
            self.step == SyncStep::Complete ==> self.counts.sum() <= usize::MAX,
        ensures
            match self.step {
                SyncStep::Complete => paths::is_path_set(
                    r@.skipped,
                    text::texts(self.skipped@),
                    windows,
                ) && r@ == self.report(r@.skipped),
                _ => r@ == self.report(text::texts(self.skipped@)),
            },
    {
        match self.step {
            SyncStep::Complete => {
                let message = provider_sync_message_with_audit(
                    "Provider sync complete",
                    &self.audit,
                );
                let mut r = result(
                    ProviderSyncStatus::Synced,
                    message.as_str(),
                    self.target_provider.as_str(),
                    self.backup_dir,
                    self.changed_files,
                    self.counts.total(),
                );
                r.skipped_locked_rollout_files = paths::sort_paths(&self.skipped, windows);
                r.sqlite_provider_rows_updated = self.counts.provider_rows;
                r.sqlite_user_event_rows_updated = self.counts.user_event_rows;
                r.sqlite_cwd_rows_updated = self.counts.cwd_rows;
                r.sqlite_catalog_rows_inserted = self.counts.catalog_insert_rows;
                r.sqlite_catalog_rows_removed = self.counts.catalog_remove_rows;
                r.updated_workspace_roots = self.workspace_roots;
                r.encrypted_content_warning = self.warning;
                r.repair_audit = self.audit;
                r
            },
            SyncStep::UpToDate => {
                let message = provider_sync_message_with_audit(
                    "Provider sync already up to date",
                    &self.audit,
                );
                let mut r = result(
                    ProviderSyncStatus::Synced,
                    message.as_str(),
                    self.target_provider.as_str(),
                    None,
                    0,
                    0,
                );
                r.skipped_locked_rollout_files = self.skipped;
                r.encrypted_content_warning = self.warning;
                r.repair_audit = self.audit;
                r
            },
            _ => result(
                ProviderSyncStatus::Skipped,
                self.message.as_str(),
                self.target_provider.as_str(),
                None,
                0,
                0,
            ),
        }
    }
}

// ---------------------------------------------------------------------------
// A second run
// ---------------------------------------------------------------------------
/// A second synchronisation changes nothing: where the files hold what a complete one
/// made of them and the databases and the global state want no change, the run goes on
/// to report that everything is up to date, with the same provider, without a backup
/// and without a changed file.
pub proof fn lemma_second_synchronisation_is_up_to_date(
    files: Seq<collect::RolloutFile>,
    contents: Seq<Seq<u8>>,
    states: Seq<StateView>,
    observed: Seq<Option<FileObservation>>,
    outcomes: Seq<collect::ScanOutcome>,
    goal: collect::ScanGoal,
    run: SyncRun,
    pending: PendingChanges,
    skipped: Seq<Seq<char>>,
)
    requires
        contents.len() == files.len(),
        forall|i: int|
            0 <= i < contents.len() ==> collect::can_be_rewritten(#[trigger] contents[i], goal),
        collect::files_read(
            files,
            collect::all_synchronised(contents, goal),
            files.len(),
            states,
            observed,
            outcomes,
            goal,
        ),
        run.step == SyncStep::Collect,
        run.target_provider@ == goal.target,
        collect::collect_files(files, files.len(), states, observed, outcomes, goal) matches Ok(c)
            ==> pending.rewrites == collect::rewrites_among(c.collected.changes).len(),
        pending.sqlite_updates == 0,
        pending.catalog_repairs == 0,
        pending.global_state_updates == 0,
    ensures
        ({
            let found = next_step(run.step, collect_outcome(pending), run.require_stopped_app);
            let checked = if run.require_stopped_app {
                next_step(found, SyncOutcome::Good, true)
            } else {
                found
            };
            let ended = SyncRun {
                step: next_step(checked, SyncOutcome::Good, run.require_stopped_app),
                ..run
            };
            &&& !changes_files(found)
            &&& !changes_files(checked)
            &&& ended.step == SyncStep::UpToDate
            &&& ended.report(skipped).status == ProviderSyncStatus::Synced
            &&& ended.report(skipped).message == audited(
                "Provider sync already up to date"@,
                run.audit,
            )
            &&& ended.report(skipped).target_provider == goal.target
            &&& ended.report(skipped).backup_dir is None
            &&& ended.report(skipped).changed_session_files == 0
            &&& ended.report(skipped).rows == 0
        }),
{
    let after = collect::all_synchronised(contents, goal);
    collect::lemma_rewrites_follow_contents(
        files,
        after,
        files.len(),
        states,
        observed,
        outcomes,
        goal,
    );
    collect::lemma_synchronised_files_stay(files, contents, files.len(), goal);
    let c = collect::collect_files(
        files,
        files.len(),
        states,
        observed,
        outcomes,
        goal,
    )->Ok_0;
    let left = collect::rewrites_among(c.collected.changes);
    assert(collect::change_paths(left).len() == left.len());
}

// ---------------------------------------------------------------------------
// The way of a synchronisation, and what it reports
// ---------------------------------------------------------------------------
/// The way of a synchronisation in which nothing fails: with something to do it makes a
/// backup, rewrites the rollout files, then the rest, and decides and commits; with nothing
/// to do it records what was read. The application is looked for before anything is read
/// and again before anything is changed or reported, where it has to be stopped.
pub proof fn lemma_way_without_failure(stopped: bool)
    ensures
        ({
            let good = |s: SyncStep| next_step(s, SyncOutcome::Good, stopped);
            &&& good(SyncStep::FindHome) == SyncStep::ResolveTarget
            &&& good(SyncStep::ResolveTarget) == if stopped {
                SyncStep::CheckApp
            } else {
                SyncStep::AcquireLock
            }
            &&& good(SyncStep::CheckApp) == SyncStep::AcquireLock
            &&& good(SyncStep::AcquireLock) == if stopped {
                SyncStep::RecheckApp
            } else {
                SyncStep::RecoverTransactions
            }
            &&& good(SyncStep::RecheckApp) == SyncStep::RecoverTransactions
            &&& good(SyncStep::RecoverTransactions) == SyncStep::Collect
            &&& good(SyncStep::Collect) == if stopped {
                SyncStep::CheckAppBeforeChange
            } else {
                SyncStep::CreateBackup
            }
            &&& good(SyncStep::CheckAppBeforeChange) == SyncStep::CreateBackup
            &&& good(SyncStep::CreateBackup) == SyncStep::ApplyRollouts
            &&& good(SyncStep::ApplyRollouts) == SyncStep::MarkRolloutsApplied
            &&& good(SyncStep::MarkRolloutsApplied) == SyncStep::MarkDownstreamStarted
            &&& good(SyncStep::MarkDownstreamStarted) == SyncStep::ApplyDownstream
            &&& good(SyncStep::ApplyDownstream) == SyncStep::MarkCommitDecided
            &&& good(SyncStep::MarkCommitDecided) == SyncStep::Commit
            &&& good(SyncStep::Commit) == SyncStep::PersistCommittedScanState
            &&& good(SyncStep::PersistCommittedScanState) == SyncStep::PruneBackups
            &&& good(SyncStep::PruneBackups) == SyncStep::Complete
            &&& next_step(SyncStep::Collect, SyncOutcome::NothingToDo, stopped) == if stopped {
                SyncStep::CheckAppBeforeReport
            } else {
                SyncStep::PersistScanState
            }
            &&& good(SyncStep::CheckAppBeforeReport) == SyncStep::PersistScanState
            &&& good(SyncStep::PersistScanState) == SyncStep::UpToDate
        }),
{
}

/// What fails ends a synchronisation, with two exceptions: where databases or global state
/// could not be changed they are restored, and the rollout files are rolled back then; and
/// records of what was read may be lost without harm.
pub proof fn lemma_way_of_a_failure(s: SyncStep, stopped: bool)
    requires
        steps_left(s) > 0,
    ensures
        ({
            let next = next_step(s, SyncOutcome::Bad, stopped);
            &&& s == SyncStep::ApplyDownstream ==> next == SyncStep::RestoreDownstream
            &&& s == SyncStep::PersistScanState ==> next == SyncStep::UpToDate
            &&& s == SyncStep::PersistCommittedScanState ==> next == SyncStep::PruneBackups
            &&& s != SyncStep::ApplyDownstream && s != SyncStep::PersistScanState && s
                != SyncStep::PersistCommittedScanState ==> next == SyncStep::Skipped
            &&& next_step(SyncStep::RestoreDownstream, SyncOutcome::Good, stopped)
                == SyncStep::RollBack
            &&& next_step(SyncStep::RollBack, SyncOutcome::Good, stopped) == SyncStep::Skipped
        }),
{
}

/// There is nothing to do where nothing is pending, and only there.
pub proof fn lemma_when_nothing_is_to_be_done(p: PendingChanges)
    ensures
        collect_outcome(p) is NothingToDo <==> p.rewrites == 0 && p.sqlite_updates == 0
            && p.catalog_repairs == 0 && p.global_state_updates == 0,
        !(collect_outcome(p) is Bad),
{
}

/// A synchronisation that came to its end reports every number under its own name, and the
/// sum of all rows; one that was given up reports why, and that nothing was changed.
pub proof fn lemma_what_is_reported(run: SyncRun, skipped: Seq<Seq<char>>)
    ensures
        ({
            let r = run.report(skipped);
            &&& r.target_provider == run.target_provider@
            &&& run.step is Complete ==> {
                &&& r.status is Synced
                &&& r.message == audited("Provider sync complete"@, run.audit)
                &&& r.changed_session_files == run.changed_files
                &&& r.provider_rows == run.counts.provider_rows
                &&& r.user_event_rows == run.counts.user_event_rows
                &&& r.cwd_rows == run.counts.cwd_rows
                &&& r.catalog_insert_rows == run.counts.catalog_insert_rows
                &&& r.catalog_remove_rows == run.counts.catalog_remove_rows
                &&& r.rows == run.counts.provider_rows + run.counts.user_event_rows
                    + run.counts.cwd_rows + run.counts.catalog_insert_rows
                    + run.counts.catalog_remove_rows
                &&& r.workspace_roots == run.workspace_roots
                &&& r.skipped == skipped
                &&& r.warning == text::text_of(run.warning)
                &&& r.backup_dir == text::text_of(run.backup_dir)
                &&& r.audit == run.audit
            }
            &&& run.step is UpToDate ==> {
                &&& r.status is Synced
                &&& r.message == audited("Provider sync already up to date"@, run.audit)
                &&& r.changed_session_files == 0 && r.rows == 0 && r.workspace_roots == 0
                &&& r.skipped == skipped
                &&& r.warning == text::text_of(run.warning)
                &&& r.backup_dir is None
                &&& r.audit == run.audit
            }
            &&& !(run.step is Complete) && !(run.step is UpToDate) ==> {
                &&& r.status is Skipped
                &&& r.message == run.message@
                &&& r.changed_session_files == 0 && r.rows == 0 && r.workspace_roots == 0
                &&& r.skipped.len() == 0
                &&& r.warning is None
                &&& r.backup_dir is None
            }
        }),
{
}

/// An audit that found nothing adds nothing to a message; otherwise it is added behind the
/// message, with the number of threads that only a catalog knows, and how many of them have
/// a rollout file, only a copy in a backup, and neither.
pub proof fn lemma_what_an_audit_adds(message: Seq<char>, a: ProviderSyncAudit)
    ensures
        a.catalog_only_sessions == 0 ==> audited(message, a) == message,
        a.catalog_only_sessions > 0 ==> exists|x0: Seq<char>, x1: Seq<char>, x2: Seq<char>, x3:
            Seq<char>, x4: Seq<char>|
            x0.len() > 0 && x1.len() > 0 && x2.len() > 0 && x3.len() > 0 && audited(message, a)
                == #[trigger] (message + x0 + text::decimal(a.catalog_only_sessions as nat) + x1
                + text::decimal(a.catalog_only_with_current_rollout as nat) + x2 + text::decimal(
                a.catalog_only_with_backup_database as nat,
            ) + x3 + text::decimal(a.catalog_only_without_recovery_source as nat) + x4),
{
    if a.catalog_only_sessions > 0 {
        reveal_strlit("；审计发现 ");
        reveal_strlit(" 条仅存在于本地会话目录的记录，其中 ");
        reveal_strlit(" 条仍有当前 rollout、");
        reveal_strlit(" 条只能在历史数据库备份中找到，");
        let x0 = "；审计发现 "@;
        let x1 = " 条仅存在于本地会话目录的记录，其中 "@;
        let x2 = " 条仍有当前 rollout、"@;
        let x3 = " 条只能在历史数据库备份中找到，"@;
        let x4 = " 条没有可用恢复来源；未自动重建缺失的 canonical 会话。"@;
        assert(audited(message, a) == message + x0 + text::decimal(a.catalog_only_sessions as nat)
            + x1 + text::decimal(a.catalog_only_with_current_rollout as nat) + x2 + text::decimal(
            a.catalog_only_with_backup_database as nat,
        ) + x3 + text::decimal(a.catalog_only_without_recovery_source as nat) + x4);
    }
}

/// There is a warning where encrypted content was counted for a provider other than the
/// target, and only there. It names those providers, and the number of all files counted.
pub proof fn lemma_when_there_is_a_warning(counts: Seq<ProviderCount>, target: Seq<char>)
    ensures
        encrypted_warning(counts, target) is None <==> forall|i: int|
            0 <= i < counts.len() ==> (#[trigger] counts[i]).provider@ == target
                || counts[i].count == 0,
        forall|p: Seq<char>| #[trigger]
            risky_providers(counts, target).contains(p) <==> p != target && exists|i: int|
                0 <= i < counts.len() && (#[trigger] counts[i]).provider@ == p && counts[i].count
                    > 0,
        encrypted_warning(counts, target) matches Some(w) ==> text::holds(
            w,
            text::decimal(count_sum(counts)),
        ) && text::holds(w, text::separated(risky_providers(counts, target), ", "@))
            && text::holds(w, target),
{
    assert forall|p: Seq<char>| #[trigger]
        risky_providers(counts, target).contains(p) <==> p != target && exists|i: int|
            0 <= i < counts.len() && (#[trigger] counts[i]).provider@ == p && counts[i].count
                > 0 by {
        lemma_risky(counts, target, p);
    }
    let risky = risky_providers(counts, target);
    if risky.len() > 0 {
        let a = "检测到 "@;
        let n = text::decimal(count_sum(counts));
        let b = " 个会话文件包含来自 "@;
        let s = text::separated(risky, ", "@);
        let c = " 的 encrypted_content。可见会话元数据已同步到 "@;
        let d =
            "，但继续或压缩这些历史可能出现 invalid_encrypted_content；需要可靠续聊时请切回原供应商/账号或开启新会话。"@;
        let w = a + n + b + s + c + target + d;
        assert(encrypted_warning(counts, target) == Some(w));
        assert(w =~= a + n + (b + s + c + target + d));
        text::lemma_holds(w, n);
        assert(w =~= (a + n + b) + s + (c + target + d));
        text::lemma_holds(w, s);
        assert(w =~= (a + n + b + s + c) + target + d);
        text::lemma_holds(w, target);
        assert(risky.contains(risky[0]));
        let i = choose|i: int|
            0 <= i < counts.len() && (#[trigger] counts[i]).provider@ == risky[0] && counts[i].count
                > 0;
        assert(counts[i].provider@ != target && counts[i].count > 0);
    } else {
        assert forall|i: int| 0 <= i < counts.len() implies (#[trigger] counts[i]).provider@
            == target || counts[i].count == 0 by {
            if counts[i].provider@ != target && counts[i].count > 0 {
                assert(risky.contains(counts[i].provider@));
            }
        }
    }
}

proof fn lemma_risky(counts: Seq<ProviderCount>, target: Seq<char>, p: Seq<char>)
    ensures
        risky_providers(counts, target).contains(p) <==> p != target && exists|i: int|
            0 <= i < counts.len() && (#[trigger] counts[i]).provider@ == p && counts[i].count > 0,
    decreases counts.len(),
{
    if counts.len() > 0 {
        let init = counts.drop_last();
        let n = counts.len() - 1;
        lemma_risky(init, target, p);
        text::lemma_push_contains(risky_providers(init, target), counts[n].provider@, p);
        if exists|i: int|
            0 <= i < init.len() && (#[trigger] init[i]).provider@ == p && init[i].count > 0 {
            let i = choose|i: int|
                0 <= i < init.len() && (#[trigger] init[i]).provider@ == p && init[i].count > 0;
            assert(counts[i] == init[i]);
        }
        if exists|i: int|
            0 <= i < counts.len() && (#[trigger] counts[i]).provider@ == p && counts[i].count > 0 {
            let i = choose|i: int|
                0 <= i < counts.len() && (#[trigger] counts[i]).provider@ == p && counts[i].count
                    > 0;
            if i < n {
                assert(init[i] == counts[i]);
            }
        }
        assert(counts[n] == counts.last());
    }
}

/// Counts add up, one after the other.
pub proof fn lemma_counts_add_up(counts: Seq<ProviderCount>, c: ProviderCount)
    ensures
        count_sum(Seq::empty()) == 0,
        count_sum(counts.push(c)) == count_sum(counts) + c.count,
{
    assert(counts.push(c).drop_last() =~= counts);
}

/// What a step leaves as it was, it leaves in every part but the step itself and the
/// message.
pub proof fn lemma_what_a_step_leaves(a: SyncRun, b: SyncRun)
    requires
        same_findings(a, b),
    ensures
        a == (SyncRun { step: a.step, message: a.message, ..b }),
{
}

/// What a failure says: what went wrong, behind the words that tell that nothing was done.
/// A failure to change the databases is kept as it is, to be told with what became of the
/// restoration.
pub proof fn lemma_what_a_failure_says(s: SyncStep, before: Seq<char>, error: Seq<char>)
    ensures
        s == SyncStep::ApplyDownstream ==> failure_message(s, before, error) == error,
        s == SyncStep::RestoreDownstream ==> failure_message(s, before, error)
            == "Provider sync skipped: provider-sync downstream update failed ("@ + before
            + "); backup restore also failed: "@ + error,
        s != SyncStep::ApplyDownstream && s != SyncStep::RestoreDownstream ==> failure_message(
            s,
            before,
            error,
        ) == "Provider sync skipped: "@ + error,
{
}

/// What is said where the application runs. Before anything else its processes are told.
pub proof fn lemma_what_is_said_of_the_application(s: SyncStep, pids: Seq<u32>)
    ensures
        s == SyncStep::CheckApp ==> app_message(s, pids)
            == "Codex App / ChatGPT 仍在运行（进程："@ + shown_processes(pids)
            + "）；请完全退出 App 后再修复历史会话"@,
        s == SyncStep::RecheckApp ==> app_message(s, pids)
            == "Codex App / ChatGPT started before provider-sync recovery"@,
        s == SyncStep::CheckAppBeforeReport || s == SyncStep::CheckAppBeforeChange ==> app_message(
            s,
            pids,
        )
            == "Provider sync skipped: Codex App / ChatGPT started while provider sync was scanning rollouts"@,
        shown_processes(pids) == text::separated(
            pids.map_values(|p: u32| text::decimal(p as nat)),
            ", "@,
        ),
{
}

/// What is known of a result as a value stands in the fields that have its name.
pub proof fn lemma_result_as_a_value(r: ProviderSyncResult)
    ensures
        r@.status == r.status,
        r@.message == r.message@,
        r@.target_provider == r.target_provider@,
        r@.backup_dir == text::text_of(r.backup_dir),
        r@.changed_session_files == r.changed_session_files,
        r@.skipped == text::texts(r.skipped_locked_rollout_files@),
        r@.rows == r.sqlite_rows_updated,
        r@.provider_rows == r.sqlite_provider_rows_updated,
        r@.user_event_rows == r.sqlite_user_event_rows_updated,
        r@.cwd_rows == r.sqlite_cwd_rows_updated,
        r@.catalog_insert_rows == r.sqlite_catalog_rows_inserted,
        r@.catalog_remove_rows == r.sqlite_catalog_rows_removed,
        r@.workspace_roots == r.updated_workspace_roots,
        r@.warning == text::text_of(r.encrypted_content_warning),
        r@.audit == r.repair_audit,
{
}

/// How a synchronisation begins: with nothing done, nothing found and nothing said.
pub proof fn lemma_how_a_synchronisation_begins(r: SyncRun, require_stopped_app: bool)
    requires
        begins(r, require_stopped_app),
    ensures
        r.step == SyncStep::FindHome,
        r.require_stopped_app == require_stopped_app,
        r.target_provider@ == "openai"@,
        r.message@ == ""@,
        r.skipped@.len() == 0,
        r.warning is None,
        r.backup_dir is None,
        r.changed_files == 0,
        r.workspace_roots == 0,
        r.counts.provider_rows == 0 && r.counts.user_event_rows == 0 && r.counts.cwd_rows == 0,
        r.counts.catalog_insert_rows == 0 && r.counts.catalog_remove_rows == 0,
        r.audit.catalog_only_sessions == 0,
{
}

} // verus!
