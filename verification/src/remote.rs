//! Threads that remote control creates with the default provider: whether one may be
//! handed over to another provider, how its row in the catalog is recovered, and how its
//! rollout file is finalized.

use crate::provider::DEFAULT_PROVIDER;
use crate::repair::CatalogRepairCounts;
use crate::scan_state;
use crate::sync;
use crate::sync::{ProviderSyncResult, ProviderSyncStatus, ResultView};
use crate::text;
use crate::threads::RemoteControlRolloutLookup;
use vstd::prelude::*;

verus! {

/// For how long after it was made a thread may be recovered, in seconds.
pub const REMOTE_CONTROL_CREATION_WINDOW_SECS: i64 = 900;

// ---------------------------------------------------------------------------
// What is asked for
// ---------------------------------------------------------------------------
/// A thread id that may be asked for: not blank and not too long, without the spaces
/// around it.
pub open spec fn asked_thread(thread_id: Seq<char>) -> Option<Seq<char>> {
    let id = text::trim(thread_id);
    if id.len() == 0 || scan_state::byte_length(id) > 128 {
        None
    } else {
        Some(id)
    }
}

/// The thread that is asked for.
pub fn requested_thread(thread_id: &str) -> (r: Option<String>)
    ensures
        text::text_of(r) == asked_thread(thread_id@),
{
    let id = text::trim_text(thread_id);
    if text::empty_text(id.as_str()) || !scan_state::byte_length_at_most(id.as_str(), 128) {
        None
    } else {
        Some(id)
    }
}

/// Whether a thread may be handed over to this provider.
pub open spec fn may_receive(target: Seq<char>) -> bool {
    target.len() > 0 && target != DEFAULT_PROVIDER@
}

fn can_receive(target: &str) -> (r: bool)
    ensures
        r == may_receive(target@),
{
    !text::empty_text(target) && !text::same_text(target, DEFAULT_PROVIDER)
}

/// The time after which a thread must have been made to be recovered.
pub fn minimum_created_at(now_secs: u64) -> (r: i64)
    requires
        now_secs <= i64::MAX,
    ensures
        r == now_secs - REMOTE_CONTROL_CREATION_WINDOW_SECS,
        r == now_secs - 900,
{
    now_secs as i64 - REMOTE_CONTROL_CREATION_WINDOW_SECS
}

/// Whether there is a thread to recover, given for each database whether it holds a
/// thread with this id that may be recovered. One that cannot be asked for is not there.
pub fn remote_control_session_recovery_candidate_exists(thread_id: &str, found: &Vec<bool>) -> (r:
    bool)
    ensures
        r == (asked_thread(thread_id@) is Some && found@.contains(true)),
{
    if requested_thread(thread_id).is_none() {
        return false;
    }
    let mut i: usize = 0;
    while i < found.len()
        invariant
            i <= found.len(),
            asked_thread(thread_id@) is Some,
            forall|k: int| 0 <= k < i ==> !found@[k],
        decreases found.len() - i,
    {
        if found[i] {
            assert(found@[i as int]);
            return true;
        }
        i += 1;
    }
    false
}

// ---------------------------------------------------------------------------
// Recovering the row of a thread in the catalog
// ---------------------------------------------------------------------------
/// What is to be done next.
#[derive(Debug, Clone, Copy, PartialEq, Eq, Structural)]
pub enum RecoveryStep {
    AcquireLock,
    CheckApp,
    RecoverTransactions,
    FindThreads,
    RepairCatalog,
    UpdateProviders,
    Skipped,
    UpToDate,
    Complete,
}

/// The recovery of a row of the catalog while it goes on.
#[derive(Debug)]
pub struct CatalogRecovery {
    pub step: RecoveryStep,
    pub require_stopped_app: bool,
    pub thread_id: String,
    pub target_provider: String,
    /// Why the recovery is given up.
    pub message: String,
    pub repairs: CatalogRepairCounts,
    pub provider_rows: usize,
}

/// Why a recovery does not begin.
pub open spec fn recovery_refusal(thread_id: Seq<char>, target: Seq<char>) -> Option<ResultView> {
    if asked_thread(thread_id) is None {
        Some(
            sync::skip_report(
                "Remote Control session recovery requires a valid thread id"@,
                DEFAULT_PROVIDER@,
            ),
        )
    } else if !may_receive(text::trim(target)) {
        Some(
            sync::skip_report(
                "Remote Control session recovery requires a non-openai target provider"@,
                text::trim(target),
            ),
        )
    } else {
        None
    }
}

/// Begins the recovery of the row of a thread, or reports why it cannot be.
pub fn run_remote_control_session_catalog_recovery_for_thread_with_target(
    require_stopped_app: bool,
    thread_id: &str,
    target_provider: &str,
) -> (r: Result<CatalogRecovery, ProviderSyncResult>)
    ensures
        match r {
            Ok(run) => recovery_refusal(thread_id@, target_provider@) is None && run.step
                == RecoveryStep::AcquireLock && run.require_stopped_app == require_stopped_app
                && asked_thread(thread_id@) == Some(run.thread_id@) && run.target_provider@
                == text::trim(target_provider@) && run.repairs.sum() == 0 && run.provider_rows
                == 0,
            Err(report) => recovery_refusal(thread_id@, target_provider@) == Some(report@),
        },
{
    let thread_id = match requested_thread(thread_id) {
        Some(id) => id,
        None => {
            return Err(
                sync::result(
                    ProviderSyncStatus::Skipped,
                    "Remote Control session recovery requires a valid thread id",
                    DEFAULT_PROVIDER,
                    None,
                    0,
                    0,
                ),
            );
        },
    };
    let target = text::trim_text(target_provider);
    if !can_receive(target.as_str()) {
        return Err(
            sync::result(
                ProviderSyncStatus::Skipped,
                "Remote Control session recovery requires a non-openai target provider",
                target.as_str(),
                None,
                0,
                0,
            ),
        );
    }
    Ok(
        CatalogRecovery {
            step: RecoveryStep::AcquireLock,
            require_stopped_app,
            thread_id,
            target_provider: target,
            message: text::copy_text(""),
            repairs: CatalogRepairCounts::none(),
            provider_rows: 0,
        },
    )
}

/// Which step may follow on a step of a recovery.
pub open spec fn recovery_follows(s: RecoveryStep, t: RecoveryStep) -> bool {
    match s {
        RecoveryStep::AcquireLock => t == RecoveryStep::CheckApp || t
            == RecoveryStep::RecoverTransactions || t == RecoveryStep::Skipped,
        RecoveryStep::CheckApp => t == RecoveryStep::RecoverTransactions || t
            == RecoveryStep::Skipped,
        RecoveryStep::RecoverTransactions => t == RecoveryStep::FindThreads || t
            == RecoveryStep::Skipped,
        RecoveryStep::FindThreads => t == RecoveryStep::RepairCatalog || t == RecoveryStep::UpToDate
            || t == RecoveryStep::Skipped,
        RecoveryStep::RepairCatalog => t == RecoveryStep::UpdateProviders || t
            == RecoveryStep::Skipped,
        RecoveryStep::UpdateProviders => t == RecoveryStep::Complete || t == RecoveryStep::Skipped,
        _ => false,
    }
}

/// How far a step of a recovery is from the end.
pub open spec fn recovery_steps_left(s: RecoveryStep) -> nat {
    match s {
        RecoveryStep::AcquireLock => 6,
        RecoveryStep::CheckApp => 5,
        RecoveryStep::RecoverTransactions => 4,
        RecoveryStep::FindThreads => 3,
        RecoveryStep::RepairCatalog => 2,
        RecoveryStep::UpdateProviders => 1,
        _ => 0,
    }
}

/// A recovery comes to an end, and changes the catalogs only after interrupted
/// transactions were taken care of and threads were found.
pub proof fn lemma_recovery_keeps_its_order(s: RecoveryStep, t: RecoveryStep)
    requires
        recovery_follows(s, t),
    ensures
        recovery_steps_left(t) < recovery_steps_left(s),
        t == RecoveryStep::FindThreads ==> s == RecoveryStep::RecoverTransactions,
        t == RecoveryStep::RepairCatalog ==> s == RecoveryStep::FindThreads,
        t == RecoveryStep::UpdateProviders ==> s == RecoveryStep::RepairCatalog,
        t == RecoveryStep::Complete ==> s == RecoveryStep::UpdateProviders,
{
}

impl CatalogRecovery {
    /// Notes whether the lock was taken.
    pub fn note_lock(&mut self, taken: bool, lock_dir: &str)
        requires
            old(self).step == RecoveryStep::AcquireLock,
        ensures
            recovery_follows(old(self).step, final(self).step),
            *final(self) == (CatalogRecovery {
                step: if !taken {
                    RecoveryStep::Skipped
                } else if old(self).require_stopped_app {
                    RecoveryStep::CheckApp
                } else {
                    RecoveryStep::RecoverTransactions
                },
                message: final(self).message,
                ..*old(self)
            }),
            taken ==> final(self).message == old(self).message,
            !taken ==> final(self).message@ == "Provider sync lock exists: "@ + lock_dir@,
    {
        if !taken {
            self.message = text::join_text("Provider sync lock exists: ", lock_dir);
            self.step = RecoveryStep::Skipped;
        } else if self.require_stopped_app {
            self.step = RecoveryStep::CheckApp;
        } else {
            self.step = RecoveryStep::RecoverTransactions;
        }
    }

    /// Notes whether the application runs.
    pub fn note_app(&mut self, running: bool)
        requires
            old(self).step == RecoveryStep::CheckApp,
        ensures
            recovery_follows(old(self).step, final(self).step),
            *final(self) == (CatalogRecovery {
                step: if running {
                    RecoveryStep::Skipped
                } else {
                    RecoveryStep::RecoverTransactions
                },
                message: final(self).message,
                ..*old(self)
            }),
            !running ==> final(self).message == old(self).message,
            running ==> final(self).message@
                == "Remote Control session catalog recovery requires Codex App / ChatGPT to be stopped"@,
    {
        if running {
            self.message = text::copy_text(
                "Remote Control session catalog recovery requires Codex App / ChatGPT to be stopped",
            );
            self.step = RecoveryStep::Skipped;
        } else {
            self.step = RecoveryStep::RecoverTransactions;
        }
    }

    /// Notes that interrupted transactions are taken care of.
    pub fn note_recovered(&mut self)
        requires
            old(self).step == RecoveryStep::RecoverTransactions,
        ensures
            recovery_follows(old(self).step, final(self).step),
            *final(self) == (CatalogRecovery { step: RecoveryStep::FindThreads, ..*old(self) }),
    {
        self.step = RecoveryStep::FindThreads;
    }

    /// Notes how many threads there are to recover.
    pub fn note_threads(&mut self, count: usize)
        requires
            old(self).step == RecoveryStep::FindThreads,
        ensures
            recovery_follows(old(self).step, final(self).step),
            *final(self) == (CatalogRecovery {
                step: if count == 0 {
                    RecoveryStep::UpToDate
                } else {
                    RecoveryStep::RepairCatalog
                },
                ..*old(self)
            }),
    {
        self.step = if count == 0 {
            RecoveryStep::UpToDate
        } else {
            RecoveryStep::RepairCatalog
        };
    }

    /// Notes what was inserted into the catalogs and removed from them.
    pub fn note_repairs(&mut self, repairs: CatalogRepairCounts)
        requires
            old(self).step == RecoveryStep::RepairCatalog,
        ensures
            recovery_follows(old(self).step, final(self).step),
            *final(self) == (CatalogRecovery {
                step: RecoveryStep::UpdateProviders,
                repairs,
                ..*old(self)
            }),
    {
        self.repairs = repairs;
        self.step = RecoveryStep::UpdateProviders;
    }

    /// Notes how many rows got the provider.
    pub fn note_providers(&mut self, rows: usize)
        requires
            old(self).step == RecoveryStep::UpdateProviders,
        ensures
            recovery_follows(old(self).step, final(self).step),
            *final(self) == (CatalogRecovery {
                step: RecoveryStep::Complete,
                provider_rows: rows,
                ..*old(self)
            }),
    {
        self.provider_rows = rows;
        self.step = RecoveryStep::Complete;
    }

    /// Notes that a step failed.
    pub fn note_failure(&mut self, error: &str)
        requires
            old(self).step == RecoveryStep::RecoverTransactions || old(self).step
                == RecoveryStep::FindThreads || old(self).step == RecoveryStep::RepairCatalog
                || old(self).step == RecoveryStep::UpdateProviders,
        ensures
            recovery_follows(old(self).step, final(self).step),
            *final(self) == (CatalogRecovery {
                step: RecoveryStep::Skipped,
                message: final(self).message,
                ..*old(self)
            }),
            final(self).message@ == "Remote Control session catalog recovery skipped: "@ + error@,
    {
        self.message = text::join_text(
            "Remote Control session catalog recovery skipped: ",
            error,
        );
        self.step = RecoveryStep::Skipped;
    }

    /// Whether the recovery has come to its end.
    pub open spec fn ended(self) -> bool {
        self.step == RecoveryStep::Skipped || self.step == RecoveryStep::UpToDate || self.step
            == RecoveryStep::Complete
    }

    /// What is reported at the end.
    pub open spec fn report(self) -> ResultView {
        match self.step {
            RecoveryStep::Complete => ResultView {
                provider_rows: self.provider_rows as nat,
                catalog_insert_rows: self.repairs.inserted_rows as nat,
                catalog_remove_rows: self.repairs.removed_rows as nat,
                ..sync::plain_report(
                    ProviderSyncStatus::Synced,
                    "Remote Control session catalog recovery complete"@,
                    self.target_provider@,
                    None,
                    0,
                    self.provider_rows as nat + self.repairs.sum(),
                )
            },
            RecoveryStep::UpToDate => sync::plain_report(
                ProviderSyncStatus::Synced,
                "Remote Control session catalog already up to date"@,
                self.target_provider@,
                None,
                0,
                0,
            ),
            _ => sync::skip_report(self.message@, self.target_provider@),
        }
    }

    /// Reports on a recovery that has come to its end.
    pub fn finish(&self) -> (r: ProviderSyncResult)
        requires
            self.ended(),
            self.step == RecoveryStep::Complete ==> self.provider_rows + self.repairs.sum()
                <= usize::MAX,
        ensures
            r@ == self.report(),
    {
        match self.step {
            RecoveryStep::Complete => {
                let mut r = sync::result(
                    ProviderSyncStatus::Synced,
                    "Remote Control session catalog recovery complete",
                    self.target_provider.as_str(),
                    None,
                    0,
                    self.provider_rows + self.repairs.total(),
                );
                r.sqlite_provider_rows_updated = self.provider_rows;
                r.sqlite_catalog_rows_inserted = self.repairs.inserted_rows;
                r.sqlite_catalog_rows_removed = self.repairs.removed_rows;
                r
            },
            RecoveryStep::UpToDate => sync::result(
                ProviderSyncStatus::Synced,
                "Remote Control session catalog already up to date",
                self.target_provider.as_str(),
                None,
                0,
                0,
            ),
            _ => sync::result(
                ProviderSyncStatus::Skipped,
                self.message.as_str(),
                self.target_provider.as_str(),
                None,
                0,
                0,
            ),
        }
    }
}

// ---------------------------------------------------------------------------
// Finalizing the rollout file of a thread
// ---------------------------------------------------------------------------
/// What is to be done next.
#[derive(Debug, Clone, Copy, PartialEq, Eq, Structural)]
pub enum FinalizationStep {
    AcquireLock,
    CheckApp,
    RecoverTransactions,
    FindRollout,
    CreateBackup,
    ApplyRollout,
    MarkRolloutsApplied,
    CheckRollout,
    RollBack,
    MarkCommitDecided,
    Commit,
    RepairCatalog,
    UpdateProviders,
    PruneBackups,
    Skipped,
    /// There is nothing to do for the thread.
    Ignored,
    /// The rollout file is not there yet.
    Awaiting,
    /// The rollout file was changed or locked meanwhile.
    Deferred,
    Complete,
}

/// The finalization of a thread while it goes on.
#[derive(Debug)]
pub struct Finalization {
    pub step: FinalizationStep,
    pub require_stopped_app: bool,
    pub thread_id: String,
    pub target_provider: String,
    /// What is said at the end.
    pub message: String,
    pub rollout_path: String,
    pub backup_dir: Option<String>,
    pub changed_files: usize,
    pub skipped: Vec<String>,
    pub repairs: CatalogRepairCounts,
    pub provider_rows: usize,
}

/// Begins the finalization of a thread, or reports why it cannot be.
pub fn run_remote_control_session_finalization_for_thread_with_target(
    require_stopped_app: bool,
    thread_id: &str,
    target_provider: &str,
) -> (r: Result<Finalization, ProviderSyncResult>)
    ensures
        match r {
            Ok(run) => asked_thread(thread_id@) == Some(run.thread_id@) && run.target_provider@
                == text::trim(target_provider@) && may_receive(run.target_provider@) && run.step
                == FinalizationStep::AcquireLock && run.require_stopped_app
                == require_stopped_app && run.backup_dir is None && run.changed_files == 0
                && run.skipped@.len() == 0 && run.repairs.sum() == 0 && run.provider_rows == 0,
            Err(report) => (asked_thread(thread_id@) is None || !may_receive(
                text::trim(target_provider@),
            )) && report@ == sync::skip_report(
                "Remote Control session finalization requires a thread id and target provider"@,
                text::trim(target_provider@),
            ),
        },
{
    let target = text::trim_text(target_provider);
    let asked = requested_thread(thread_id);
    if let Some(thread_id) = asked {
        if can_receive(target.as_str()) {
            return Ok(
                Finalization {
                    step: FinalizationStep::AcquireLock,
                    require_stopped_app,
                    thread_id,
                    target_provider: target,
                    message: text::copy_text(""),
                    rollout_path: text::copy_text(""),
                    backup_dir: None,
                    changed_files: 0,
                    skipped: Vec::new(),
                    repairs: CatalogRepairCounts::none(),
                    provider_rows: 0,
                },
            );
        }
    }
    Err(
        sync::result(
            ProviderSyncStatus::Skipped,
            "Remote Control session finalization requires a thread id and target provider",
            target.as_str(),
            None,
            0,
            0,
        ),
    )
}

/// What follows on what was found of the rollout file.
pub open spec fn after_lookup(lookup: RemoteControlRolloutLookup) -> FinalizationStep {
    match lookup {
        RemoteControlRolloutLookup::Ready(_) => FinalizationStep::CreateBackup,
        RemoteControlRolloutLookup::Archived => FinalizationStep::Ignored,
        RemoteControlRolloutLookup::UnsupportedProvider => FinalizationStep::Ignored,
        RemoteControlRolloutLookup::Missing => FinalizationStep::Awaiting,
    }
}

/// What is said of what was found of the rollout file.
pub open spec fn lookup_message(lookup: RemoteControlRolloutLookup, before: Seq<char>) -> Seq<
    char,
> {
    match lookup {
        RemoteControlRolloutLookup::Ready(_) => before,
        RemoteControlRolloutLookup::Archived =>
            "Remote Control session finalization ignored an archived thread"@,
        RemoteControlRolloutLookup::UnsupportedProvider =>
            "Remote Control session finalization ignored a thread owned by another provider"@,
        RemoteControlRolloutLookup::Missing =>
            "Remote Control session finalization deferred until the thread rollout is available"@,
    }
}

/// Steps that bring nothing to remember.
pub open spec fn is_plain(s: FinalizationStep) -> bool {
    s == FinalizationStep::RecoverTransactions || s == FinalizationStep::MarkRolloutsApplied || s
        == FinalizationStep::RollBack || s == FinalizationStep::MarkCommitDecided || s
        == FinalizationStep::Commit || s == FinalizationStep::PruneBackups
}

pub open spec fn after_plain(s: FinalizationStep) -> FinalizationStep {
    match s {
        FinalizationStep::RecoverTransactions => FinalizationStep::FindRollout,
        FinalizationStep::MarkRolloutsApplied => FinalizationStep::CheckRollout,
        FinalizationStep::RollBack => FinalizationStep::Deferred,
        FinalizationStep::MarkCommitDecided => FinalizationStep::Commit,
        FinalizationStep::Commit => FinalizationStep::RepairCatalog,
        FinalizationStep::PruneBackups => FinalizationStep::Complete,
        _ => s,
    }
}

/// Steps at which a failure ends the finalization.
pub open spec fn may_fail(s: FinalizationStep) -> bool {
    match s {
        FinalizationStep::AcquireLock | FinalizationStep::CheckApp | FinalizationStep::Skipped
        | FinalizationStep::Ignored | FinalizationStep::Awaiting | FinalizationStep::Deferred
        | FinalizationStep::Complete => false,
        _ => true,
    }
}

/// Which step may follow on a step of a finalization.
pub open spec fn finalization_follows(s: FinalizationStep, t: FinalizationStep) -> bool {
    ||| may_fail(s) && t == FinalizationStep::Skipped
    ||| is_plain(s) && t == after_plain(s)
    ||| match s {
        FinalizationStep::AcquireLock => t == FinalizationStep::CheckApp || t
            == FinalizationStep::RecoverTransactions || t == FinalizationStep::Skipped,
        FinalizationStep::CheckApp => t == FinalizationStep::RecoverTransactions || t
            == FinalizationStep::Skipped,
        FinalizationStep::FindRollout => t == FinalizationStep::CreateBackup || t
            == FinalizationStep::Ignored || t == FinalizationStep::Awaiting,
        FinalizationStep::CreateBackup => t == FinalizationStep::ApplyRollout,
        FinalizationStep::ApplyRollout => t == FinalizationStep::MarkRolloutsApplied,
        FinalizationStep::CheckRollout => t == FinalizationStep::MarkCommitDecided || t
            == FinalizationStep::RollBack,
        FinalizationStep::RepairCatalog => t == FinalizationStep::UpdateProviders,
        FinalizationStep::UpdateProviders => t == FinalizationStep::PruneBackups,
        _ => false,
    }
}

/// How far a step of a finalization is from the end.
pub open spec fn finalization_steps_left(s: FinalizationStep) -> nat {
    match s {
        FinalizationStep::AcquireLock => 13,
        FinalizationStep::CheckApp => 12,
        FinalizationStep::RecoverTransactions => 11,
        FinalizationStep::FindRollout => 10,
        FinalizationStep::CreateBackup => 9,
        FinalizationStep::ApplyRollout => 8,
        FinalizationStep::MarkRolloutsApplied => 7,
        FinalizationStep::CheckRollout => 6,
        FinalizationStep::MarkCommitDecided => 5,
        FinalizationStep::Commit => 4,
        FinalizationStep::RepairCatalog => 3,
        FinalizationStep::UpdateProviders => 2,
        FinalizationStep::PruneBackups => 1,
        FinalizationStep::RollBack => 1,
        _ => 0,
    }
}

/// The databases are changed only after the rollout file was replaced, checked and
/// committed, and a rollout file that does not pass its check is rolled back.
pub proof fn lemma_databases_change_after_the_commit(s: FinalizationStep, t: FinalizationStep)
    requires
        finalization_follows(s, t),
    ensures
        t == FinalizationStep::UpdateProviders ==> s == FinalizationStep::RepairCatalog,
        t == FinalizationStep::RepairCatalog ==> s == FinalizationStep::Commit,
        t == FinalizationStep::Commit ==> s == FinalizationStep::MarkCommitDecided,
        t == FinalizationStep::MarkCommitDecided ==> s == FinalizationStep::CheckRollout,
        t == FinalizationStep::CheckRollout ==> s == FinalizationStep::MarkRolloutsApplied,
        t == FinalizationStep::MarkRolloutsApplied ==> s == FinalizationStep::ApplyRollout,
        t == FinalizationStep::Deferred ==> s == FinalizationStep::RollBack,
{
}

/// A finalization comes to an end.
pub proof fn lemma_finalization_ends(s: FinalizationStep, t: FinalizationStep)
    requires
        finalization_follows(s, t),
    ensures
        finalization_steps_left(t) < finalization_steps_left(s),
{
}

impl Finalization {
    /// Notes whether the lock was taken.
    pub fn note_lock(&mut self, taken: bool, lock_dir: &str)
        requires
            old(self).step == FinalizationStep::AcquireLock,
        ensures
            finalization_follows(old(self).step, final(self).step),
            *final(self) == (Finalization {
                step: if !taken {
                    FinalizationStep::Skipped
                } else if old(self).require_stopped_app {
                    FinalizationStep::CheckApp
                } else {
                    FinalizationStep::RecoverTransactions
                },
                message: final(self).message,
                ..*old(self)
            }),
            taken ==> final(self).message == old(self).message,
            !taken ==> final(self).message@ == "Provider sync lock exists: "@ + lock_dir@,
    {
        if !taken {
            self.message = text::join_text("Provider sync lock exists: ", lock_dir);
            self.step = FinalizationStep::Skipped;
        } else if self.require_stopped_app {
            self.step = FinalizationStep::CheckApp;
        } else {
            self.step = FinalizationStep::RecoverTransactions;
        }
    }

    /// Notes whether the application runs.
    pub fn note_app(&mut self, running: bool)
        requires
            old(self).step == FinalizationStep::CheckApp,
        ensures
            finalization_follows(old(self).step, final(self).step),
            *final(self) == (Finalization {
                step: if running {
                    FinalizationStep::Skipped
                } else {
                    FinalizationStep::RecoverTransactions
                },
                message: final(self).message,
                ..*old(self)
            }),
            !running ==> final(self).message == old(self).message,
            running ==> final(self).message@
                == "Remote Control session finalization requires Codex App / ChatGPT to be stopped"@,
    {
        if running {
            self.message = text::copy_text(
                "Remote Control session finalization requires Codex App / ChatGPT to be stopped",
            );
            self.step = FinalizationStep::Skipped;
        } else {
            self.step = FinalizationStep::RecoverTransactions;
        }
    }

    /// Notes that a step is done.
    pub fn note_done(&mut self)
        requires
            is_plain(old(self).step),
        ensures
            finalization_follows(old(self).step, final(self).step),
            *final(self) == (Finalization { step: after_plain(old(self).step), ..*old(self) }),
    {
        self.step = match self.step {
            FinalizationStep::RecoverTransactions => FinalizationStep::FindRollout,
            FinalizationStep::MarkRolloutsApplied => FinalizationStep::CheckRollout,
            FinalizationStep::RollBack => FinalizationStep::Deferred,
            FinalizationStep::MarkCommitDecided => FinalizationStep::Commit,
            FinalizationStep::Commit => FinalizationStep::RepairCatalog,
            _ => FinalizationStep::Complete,
        };
    }

    /// Notes what was found of the rollout file.
    pub fn note_rollout(&mut self, lookup: RemoteControlRolloutLookup)
        requires
            old(self).step == FinalizationStep::FindRollout,
        ensures
            finalization_follows(old(self).step, final(self).step),
            *final(self) == (Finalization {
                step: after_lookup(lookup),
                message: final(self).message,
                rollout_path: match lookup {
                    RemoteControlRolloutLookup::Ready(path) => path,
                    _ => old(self).rollout_path,
                },
                ..*old(self)
            }),
            final(self).message@ == lookup_message(lookup, old(self).message@),
    {
        match lookup {
            RemoteControlRolloutLookup::Ready(path) => {
                self.rollout_path = path;
                self.step = FinalizationStep::CreateBackup;
            },
            RemoteControlRolloutLookup::Archived => {
                self.message = text::copy_text(
                    "Remote Control session finalization ignored an archived thread",
                );
                self.step = FinalizationStep::Ignored;
            },
            RemoteControlRolloutLookup::UnsupportedProvider => {
                self.message = text::copy_text(
                    "Remote Control session finalization ignored a thread owned by another provider",
                );
                self.step = FinalizationStep::Ignored;
            },
            RemoteControlRolloutLookup::Missing => {
                self.message = text::copy_text(
                    "Remote Control session finalization deferred until the thread rollout is available",
                );
                self.step = FinalizationStep::Awaiting;
            },
        }
    }

    /// Notes the backup that was made.
    pub fn note_backup(&mut self, backup_dir: String)
        requires
            old(self).step == FinalizationStep::CreateBackup,
        ensures
            finalization_follows(old(self).step, final(self).step),
            *final(self) == (Finalization {
                step: FinalizationStep::ApplyRollout,
                backup_dir: Some(backup_dir),
                ..*old(self)
            }),
    {
        self.backup_dir = Some(backup_dir);
        self.step = FinalizationStep::ApplyRollout;
    }

    /// Notes how many rollout files were replaced and which were left alone.
    pub fn note_applied(&mut self, changed_files: usize, skipped: Vec<String>)
        requires
            old(self).step == FinalizationStep::ApplyRollout,
        ensures
            finalization_follows(old(self).step, final(self).step),
            *final(self) == (Finalization {
                step: FinalizationStep::MarkRolloutsApplied,
                changed_files,
                skipped,
                ..*old(self)
            }),
    {
        self.changed_files = changed_files;
        self.skipped = skipped;
        self.step = FinalizationStep::MarkRolloutsApplied;
    }

    /// Notes whether the rollout file names the target provider alone now.
    pub fn note_checked(&mut self, matches_provider: bool)
        requires
            old(self).step == FinalizationStep::CheckRollout,
        ensures
            finalization_follows(old(self).step, final(self).step),
            *final(self) == (Finalization {
                step: if matches_provider {
                    FinalizationStep::MarkCommitDecided
                } else {
                    FinalizationStep::RollBack
                },
                message: final(self).message,
                ..*old(self)
            }),
            matches_provider ==> final(self).message == old(self).message,
            !matches_provider ==> final(self).message@
                == "Remote Control session finalization deferred for a changed or locked rollout"@,
    {
        if matches_provider {
            self.step = FinalizationStep::MarkCommitDecided;
        } else {
            self.message = text::copy_text(
                "Remote Control session finalization deferred for a changed or locked rollout",
            );
            self.step = FinalizationStep::RollBack;
        }
    }

    /// Notes what was inserted into the catalogs and removed from them.
    pub fn note_repairs(&mut self, repairs: CatalogRepairCounts)
        requires
            old(self).step == FinalizationStep::RepairCatalog,
        ensures
            finalization_follows(old(self).step, final(self).step),
            *final(self) == (Finalization {
                step: FinalizationStep::UpdateProviders,
                repairs,
                ..*old(self)
            }),
    {
        self.repairs = repairs;
        self.step = FinalizationStep::UpdateProviders;
    }

    /// Notes how many rows got the provider.
    pub fn note_providers(&mut self, rows: usize)
        requires
            old(self).step == FinalizationStep::UpdateProviders,
        ensures
            finalization_follows(old(self).step, final(self).step),
            *final(self) == (Finalization {
                step: FinalizationStep::PruneBackups,
                provider_rows: rows,
                ..*old(self)
            }),
    {
        self.provider_rows = rows;
        self.step = FinalizationStep::PruneBackups;
    }

    /// Notes that a step failed.
    pub fn note_failure(&mut self, error: &str)
        requires
            may_fail(old(self).step),
        ensures
            finalization_follows(old(self).step, final(self).step),
            *final(self) == (Finalization {
                step: FinalizationStep::Skipped,
                message: final(self).message,
                ..*old(self)
            }),
            final(self).message@ == "Remote Control session finalization skipped: "@ + error@,
    {
        self.message = text::join_text("Remote Control session finalization skipped: ", error);
        self.step = FinalizationStep::Skipped;
    }

    /// Whether the finalization has come to its end.
    pub open spec fn ended(self) -> bool {
        match self.step {
            FinalizationStep::Skipped | FinalizationStep::Ignored | FinalizationStep::Awaiting
            | FinalizationStep::Deferred | FinalizationStep::Complete => true,
            _ => false,
        }
    }

    /// What is reported at the end.
    pub open spec fn report(self) -> ResultView {
        match self.step {
            FinalizationStep::Complete => ResultView {
                provider_rows: self.provider_rows as nat,
                catalog_insert_rows: self.repairs.inserted_rows as nat,
                catalog_remove_rows: self.repairs.removed_rows as nat,
                ..sync::plain_report(
                    ProviderSyncStatus::Synced,
                    "Remote Control session finalization complete"@,
                    self.target_provider@,
                    text::text_of(self.backup_dir),
                    self.changed_files as nat,
                    self.provider_rows as nat + self.repairs.sum(),
                )
            },
            FinalizationStep::Ignored => sync::plain_report(
                ProviderSyncStatus::Synced,
                self.message@,
                self.target_provider@,
                None,
                0,
                0,
            ),
            FinalizationStep::Deferred => ResultView {
                skipped: text::texts(self.skipped@),
                ..sync::plain_report(
                    ProviderSyncStatus::Skipped,
                    self.message@,
                    self.target_provider@,
                    text::text_of(self.backup_dir),
                    self.changed_files as nat,
                    0,
                )
            },
            _ => sync::skip_report(self.message@, self.target_provider@),
        }
    }

    /// Reports on a finalization that has come to its end.
    pub fn finish(self) -> (r: ProviderSyncResult)
        requires
            self.ended(),
            self.step == FinalizationStep::Complete ==> self.provider_rows + self.repairs.sum()
                <= usize::MAX,
        ensures
            r@ == self.report(),
    {
        match self.step {
            FinalizationStep::Complete => {
                let mut r = sync::result(
                    ProviderSyncStatus::Synced,
                    "Remote Control session finalization complete",
                    self.target_provider.as_str(),
                    self.backup_dir,
                    self.changed_files,
                    self.provider_rows + self.repairs.total(),
                );
                r.sqlite_provider_rows_updated = self.provider_rows;
                r.sqlite_catalog_rows_inserted = self.repairs.inserted_rows;
                r.sqlite_catalog_rows_removed = self.repairs.removed_rows;
                r
            },
            FinalizationStep::Ignored => sync::result(
                ProviderSyncStatus::Synced,
                self.message.as_str(),
                self.target_provider.as_str(),
                None,
                0,
                0,
            ),
            FinalizationStep::Deferred => {
                let mut r = sync::result(
                    ProviderSyncStatus::Skipped,
                    self.message.as_str(),
                    self.target_provider.as_str(),
                    self.backup_dir,
                    self.changed_files,
                    0,
                );
                r.skipped_locked_rollout_files = self.skipped;
                r
            },
            _ => sync::result(
                ProviderSyncStatus::Skipped,
                self.message.as_str(),
                self.target_provider.as_str(),
                None,
                0,
                0,
            ),
        }
    }
}

// ---------------------------------------------------------------------------
// What is asked for, and what is reported
// ---------------------------------------------------------------------------
/// A thread is asked for by its id, without the white space around it; a blank id and one
/// of more than 128 bytes are none.
pub proof fn lemma_thread_that_is_asked_for(before: Seq<char>, id: Seq<char>, after: Seq<char>)
    requires
        text::all_white(before),
        text::all_white(after),
        id.len() > 0 ==> !text::is_white_space(id[0]) && !text::is_white_space(id.last()),
    ensures
        asked_thread(before + id + after) == if id.len() > 0 && vstd::utf8::encode_utf8(id).len()
            <= 128 {
            Some(id)
        } else {
            None
        },
{
    text::lemma_trim_takes_white_space_off(before, id, after);
}

/// Threads can be handed over to any provider that has a name, but not to the default one.
pub proof fn lemma_who_may_receive(target: Seq<char>)
    ensures
        may_receive(target) <==> target.len() > 0 && target != "openai"@,
{
}

/// A recovery is refused without a thread, and for a provider that cannot receive it; for
/// no other reason.
pub proof fn lemma_when_a_recovery_is_refused(thread_id: Seq<char>, target: Seq<char>)
    ensures
        recovery_refusal(thread_id, target) is None <==> asked_thread(thread_id) is Some
            && text::trim(target).len() > 0 && text::trim(target) != "openai"@,
        recovery_refusal(thread_id, target) matches Some(r) ==> {
            &&& r.status is Skipped
            &&& r.rows == 0 && r.changed_session_files == 0
            &&& asked_thread(thread_id) is None ==> r.message
                == "Remote Control session recovery requires a valid thread id"@
                && r.target_provider == "openai"@
            &&& asked_thread(thread_id) is Some ==> r.message
                == "Remote Control session recovery requires a non-openai target provider"@
                && r.target_provider == text::trim(target)
        },
{
}

/// What a recovery that came to its end reports: every number under its own name, and
/// their sum.
pub proof fn lemma_what_a_recovery_reports(c: CatalogRecovery)
    ensures
        ({
            let r = c.report();
            &&& r.target_provider == c.target_provider@
            &&& c.step is Complete ==> r.status is Synced && r.provider_rows == c.provider_rows
                && r.catalog_insert_rows == c.repairs.inserted_rows && r.catalog_remove_rows
                == c.repairs.removed_rows && r.rows == c.provider_rows + c.repairs.inserted_rows
                + c.repairs.removed_rows && r.message
                == "Remote Control session catalog recovery complete"@
            &&& c.step is UpToDate ==> r.status is Synced && r.rows == 0 && r.message
                == "Remote Control session catalog already up to date"@
            &&& !(c.step is Complete) && !(c.step is UpToDate) ==> r.status is Skipped && r.rows
                == 0 && r.message == c.message@
            &&& r.changed_session_files == 0
        }),
{
}

/// What a finalization that came to its end reports. One that is put off reports the files
/// that it left alone; one that has nothing to do, and one that waits or is given up,
/// report no change.
pub proof fn lemma_what_a_finalization_reports(f: Finalization)
    ensures
        ({
            let r = f.report();
            &&& r.target_provider == f.target_provider@
            &&& f.step is Complete ==> r.status is Synced && r.provider_rows == f.provider_rows
                && r.catalog_insert_rows == f.repairs.inserted_rows && r.catalog_remove_rows
                == f.repairs.removed_rows && r.rows == f.provider_rows + f.repairs.inserted_rows
                + f.repairs.removed_rows && r.changed_session_files == f.changed_files
                && r.backup_dir == text::text_of(f.backup_dir) && r.message
                == "Remote Control session finalization complete"@
            &&& f.step is Ignored ==> r.status is Synced && r.rows == 0 && r.changed_session_files
                == 0 && r.message == f.message@
            &&& f.step is Deferred ==> r.status is Skipped && r.rows == 0 && r.skipped
                == text::texts(f.skipped@) && r.changed_session_files == f.changed_files
                && r.backup_dir == text::text_of(f.backup_dir) && r.message == f.message@
            &&& f.step is Skipped || f.step is Awaiting ==> r.status is Skipped && r.rows == 0
                && r.changed_session_files == 0 && r.message == f.message@
        }),
{
}

/// What a lookup leads to: a rollout file that is ready is taken over, a thread that is
/// archived or another provider's is left alone, and one without a rollout file is waited
/// for.
pub proof fn lemma_what_a_lookup_leads_to(lookup: RemoteControlRolloutLookup, before: Seq<char>)
    ensures
        after_lookup(lookup) is CreateBackup <==> lookup is Ready,
        after_lookup(lookup) is Ignored <==> lookup is Archived || lookup is UnsupportedProvider,
        after_lookup(lookup) is Awaiting <==> lookup is Missing,
        lookup is Ready ==> lookup_message(lookup, before) == before,
{
}

/// The way of a finalization in which nothing fails.
pub proof fn lemma_way_of_a_finalization()
    ensures
        after_plain(FinalizationStep::RecoverTransactions) == FinalizationStep::FindRollout,
        after_plain(FinalizationStep::MarkRolloutsApplied) == FinalizationStep::CheckRollout,
        after_plain(FinalizationStep::RollBack) == FinalizationStep::Deferred,
        after_plain(FinalizationStep::MarkCommitDecided) == FinalizationStep::Commit,
        after_plain(FinalizationStep::Commit) == FinalizationStep::RepairCatalog,
        after_plain(FinalizationStep::PruneBackups) == FinalizationStep::Complete,
{
}

/// Threads of the last quarter of an hour may be handed over.
pub proof fn lemma_window_of_a_recovery()
    ensures
        REMOTE_CONTROL_CREATION_WINDOW_SECS == 15 * 60,
{
}

} // verus!
