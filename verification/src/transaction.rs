//! Transactions over rollout files: what is recorded of them, the phases they go
//! through, and how one that was interrupted is brought to an end.

use crate::digest;
use crate::names;
use crate::text;
use vstd::prelude::*;

verus! {

// ---------------------------------------------------------------------------
// Records
// ---------------------------------------------------------------------------
pub const SESSION_TRANSACTION_NAMESPACE: &'static str = "provider-sync-rollout-transaction";

pub const SESSION_TRANSACTION_IN_PROGRESS: &'static str = "in_progress";

pub const SESSION_TRANSACTION_COMMITTED: &'static str = "committed";

pub const SESSION_TRANSACTION_ROLLED_BACK: &'static str = "rolled_back";

/// What is recorded of one rollout file that a transaction replaces.
#[derive(Debug)]
pub struct SessionTransactionEntry {
    pub relative_path: String,
    pub original_sha256: String,
    pub next_sha256: String,
    pub original_size: u64,
    pub next_size: u64,
    pub session_meta_backup_sha256: String,
    pub original_mtime_secs: Option<u64>,
    pub original_mtime_nanos: Option<u32>,
    /// The version of somebody else that is to stay, where there is one.
    pub external_sha256: Option<String>,
    pub external_size: Option<u64>,
}

#[derive(Clone, Copy, PartialEq, Eq, Structural, Debug)]
pub enum SessionTransactionMode {
    Full,
    Remote,
}

#[derive(Clone, Copy, PartialEq, Eq, Structural, Debug)]
pub enum SessionTransactionPhase {
    RolloutsApplying,
    RolloutsApplied,
    DownstreamStarted,
    CommitDecided,
}

/// By what a rollout directory is recognised again.
#[derive(Debug)]
pub struct RolloutRoot {
    pub name: String,
    pub canonical_path: String,
    pub identity: String,
}

#[derive(Debug)]
pub struct SessionTransactionManifest {
    pub version: u32,
    pub namespace: String,
    pub status: String,
    pub transaction_id: String,
    pub mode: SessionTransactionMode,
    pub phase: SessionTransactionPhase,
    pub rollout_roots: Vec<RolloutRoot>,
    pub entries: Vec<SessionTransactionEntry>,
}

impl SessionTransactionManifest {
    pub open spec fn in_progress(self) -> bool {
        self.status@ == SESSION_TRANSACTION_IN_PROGRESS@
    }

    pub open spec fn committed(self) -> bool {
        self.status@ == SESSION_TRANSACTION_COMMITTED@
    }

    pub open spec fn rolled_back(self) -> bool {
        self.status@ == SESSION_TRANSACTION_ROLLED_BACK@
    }
}

/// Whether a transaction has not come to its end.
pub fn is_in_progress(transaction: &SessionTransactionManifest) -> (r: bool)
    ensures
        r == transaction.in_progress(),
{
    text::same_text(transaction.status.as_str(), SESSION_TRANSACTION_IN_PROGRESS)
}

/// Whether a transaction was committed.
pub fn is_committed(transaction: &SessionTransactionManifest) -> (r: bool)
    ensures
        r == transaction.committed(),
{
    text::same_text(transaction.status.as_str(), SESSION_TRANSACTION_COMMITTED)
}

/// A transaction that has just begun.
pub fn new_session_transaction(
    transaction_id: String,
    mode: SessionTransactionMode,
    rollout_roots: Vec<RolloutRoot>,
) -> (r: SessionTransactionManifest)
    ensures
        r.version == 1,
        r.namespace@ == SESSION_TRANSACTION_NAMESPACE@,
        r.in_progress(),
        r.transaction_id == transaction_id,
        r.mode == mode,
        r.phase == SessionTransactionPhase::RolloutsApplying,
        r.rollout_roots == rollout_roots,
        r.entries@.len() == 0,
{
    SessionTransactionManifest {
        version: 1,
        namespace: text::copy_text(SESSION_TRANSACTION_NAMESPACE),
        status: text::copy_text(SESSION_TRANSACTION_IN_PROGRESS),
        transaction_id,
        mode,
        phase: SessionTransactionPhase::RolloutsApplying,
        rollout_roots,
        entries: Vec::new(),
    }
}

// ---------------------------------------------------------------------------
// Checking a record that was read
// ---------------------------------------------------------------------------
/// What can be wrong with a record.
#[derive(Clone, Copy, PartialEq, Eq, Debug)]
pub enum TransactionError {
    Unsupported,
    InvalidId,
    InvalidRoot,
    InvalidHash,
    IncompleteExternal,
}

pub open spec fn optional_hash_fits(hash: Option<String>) -> bool {
    match hash {
        Some(h) => digest::is_sha256_hex(h@),
        None => true,
    }
}

/// What is wrong with an entry.
pub open spec fn entry_error(e: SessionTransactionEntry) -> Option<TransactionError> {
    if !(digest::is_sha256_hex(e.original_sha256@) && digest::is_sha256_hex(e.next_sha256@)
        && digest::is_sha256_hex(e.session_meta_backup_sha256@) && optional_hash_fits(
        e.external_sha256,
    )) {
        Some(TransactionError::InvalidHash)
    } else if e.external_sha256 is Some != e.external_size is Some {
        Some(TransactionError::IncompleteExternal)
    } else {
        None
    }
}

/// What is wrong with the first entry with which something is wrong.
pub open spec fn entries_error(entries: Seq<SessionTransactionEntry>) -> Option<TransactionError>
    decreases entries.len(),
{
    if entries.len() == 0 {
        None
    } else {
        match entries_error(entries.drop_last()) {
            Some(e) => Some(e),
            None => entry_error(entries.last()),
        }
    }
}

/// Whether a recorded rollout directory has a known name and an identity.
pub open spec fn root_fits(root: RolloutRoot) -> bool {
    (root.name@ == "sessions"@ || root.name@ == "archived_sessions"@) && !text::is_blank(
        root.identity@,
    )
}

pub open spec fn roots_fit(roots: Seq<RolloutRoot>) -> bool {
    forall|i: int| 0 <= i < roots.len() ==> root_fits(#[trigger] roots[i])
}

/// What is wrong with a record, given whether the recorded directories are
/// absolute paths.
pub open spec fn transaction_error(
    m: SessionTransactionManifest,
    roots_absolute: bool,
) -> Option<TransactionError> {
    if m.version != 1 || m.namespace@ != SESSION_TRANSACTION_NAMESPACE@ {
        Some(TransactionError::Unsupported)
    } else if !names::is_transaction_id(m.transaction_id@) {
        Some(TransactionError::InvalidId)
    } else if !roots_absolute || !roots_fit(m.rollout_roots@) {
        Some(TransactionError::InvalidRoot)
    } else {
        entries_error(m.entries@)
    }
}

fn hex_of_length(s: &str, n: usize) -> (r: bool)
    ensures
        r == (s@.len() == n && forall|i: int|
            0 <= i < s@.len() ==> text::is_hex_digit(#[trigger] s@[i])),
{
    let x = text::to_chars(s);
    if x.len() != n {
        return false;
    }
    let mut i: usize = 0;
    while i < x.len()
        invariant
            i <= x.len(),
            x@ == s@,
            forall|k: int| 0 <= k < i ==> text::is_hex_digit(#[trigger] s@[k]),
        decreases x.len() - i,
    {
        if !text::hex_digit(x[i]) {
            assert(!text::is_hex_digit(s@[i as int]));
            return false;
        }
        i += 1;
    }
    true
}

/// Whether a text has the form of a SHA-256 digest.
pub fn is_sha256_text(s: &str) -> (r: bool)
    ensures
        r == digest::is_sha256_hex(s@),
{
    hex_of_length(s, 64)
}

/// Whether a text has the form of a transaction id.
pub fn is_transaction_id_text(s: &str) -> (r: bool)
    ensures
        r == names::is_transaction_id(s@),
{
    hex_of_length(s, 32)
}

fn check_entry(e: &SessionTransactionEntry) -> (r: Option<TransactionError>)
    ensures
        r == entry_error(*e),
{
    let external_fits = match &e.external_sha256 {
        Some(h) => is_sha256_text(h.as_str()),
        None => true,
    };
    if !is_sha256_text(e.original_sha256.as_str()) || !is_sha256_text(e.next_sha256.as_str())
        || !is_sha256_text(e.session_meta_backup_sha256.as_str()) || !external_fits {
        Some(TransactionError::InvalidHash)
    } else if e.external_sha256.is_some() != e.external_size.is_some() {
        Some(TransactionError::IncompleteExternal)
    } else {
        None
    }
}

/// Checks a record that was read.
pub fn check_session_transaction(
    transaction: &SessionTransactionManifest,
    roots_absolute: bool,
) -> (r: Result<(), TransactionError>)
    ensures
        match r {
            Ok(_) => transaction_error(*transaction, roots_absolute) is None,
            Err(e) => transaction_error(*transaction, roots_absolute) == Some(e),
        },
{
    if transaction.version != 1 || !text::same_text(
        transaction.namespace.as_str(),
        SESSION_TRANSACTION_NAMESPACE,
    ) {
        return Err(TransactionError::Unsupported);
    }
    if !is_transaction_id_text(transaction.transaction_id.as_str()) {
        return Err(TransactionError::InvalidId);
    }
    if !roots_absolute {
        return Err(TransactionError::InvalidRoot);
    }
    let mut i: usize = 0;
    while i < transaction.rollout_roots.len()
        invariant
            i <= transaction.rollout_roots.len(),
            roots_absolute,
            transaction.version == 1,
            transaction.namespace@ == SESSION_TRANSACTION_NAMESPACE@,
            names::is_transaction_id(transaction.transaction_id@),
            forall|k: int| 0 <= k < i ==> root_fits(#[trigger] transaction.rollout_roots@[k]),
        decreases transaction.rollout_roots.len() - i,
    {
        let root = &transaction.rollout_roots[i];
        let known = text::same_text(root.name.as_str(), "sessions") || text::same_text(
            root.name.as_str(),
            "archived_sessions",
        );
        if !known || text::blank(root.identity.as_str()) {
            assert(!root_fits(transaction.rollout_roots@[i as int]));
            return Err(TransactionError::InvalidRoot);
        }
        i += 1;
    }
    let mut k: usize = 0;
    while k < transaction.entries.len()
        invariant
            k <= transaction.entries.len(),
            roots_absolute,
            transaction.version == 1,
            transaction.namespace@ == SESSION_TRANSACTION_NAMESPACE@,
            names::is_transaction_id(transaction.transaction_id@),
            roots_fit(transaction.rollout_roots@),
            entries_error(transaction.entries@.take(k as int)) is None,
        decreases transaction.entries.len() - k,
    {
        let ghost all = transaction.entries@;
        assert(all.take(k + 1).drop_last() =~= all.take(k as int));
        if let Some(e) = check_entry(&transaction.entries[k]) {
            proof {
                lemma_entries_error_stays(all, k + 1, e);
            }
            return Err(e);
        }
        k += 1;
    }
    assert(transaction.entries@.take(k as int) =~= transaction.entries@);
    Ok(())
}

proof fn lemma_entries_error_stays(
    entries: Seq<SessionTransactionEntry>,
    n: int,
    e: TransactionError,
)
    requires
        0 <= n <= entries.len(),
        entries_error(entries.take(n)) == Some(e),
    ensures
        entries_error(entries) == Some(e),
    decreases entries.len() - n,
{
    if n < entries.len() {
        assert(entries.take(n + 1).drop_last() =~= entries.take(n));
        lemma_entries_error_stays(entries, n + 1, e);
    } else {
        assert(entries.take(n) =~= entries);
    }
}

/// The rollout directory that was recorded under a name.
pub fn recorded_root<'a>(roots: &'a Vec<RolloutRoot>, name: &str) -> (r: Option<&'a RolloutRoot>)
    ensures
        match r {
            Some(root) => roots@.contains(*root) && root.name@ == name@,
            None => forall|i: int| 0 <= i < roots@.len() ==> (#[trigger] roots@[i]).name@ != name@,
        },
{
    let mut i: usize = 0;
    while i < roots.len()
        invariant
            i <= roots.len(),
            forall|k: int| 0 <= k < i ==> (#[trigger] roots@[k]).name@ != name@,
        decreases roots.len() - i,
    {
        if text::same_text(roots[i].name.as_str(), name) {
            return Some(&roots[i]);
        }
        i += 1;
    }
    None
}

/// Whether a rollout directory is the one that was recorded.
pub fn root_unchanged(recorded: &RolloutRoot, canonical_path: &str, identity: &str) -> (r: bool)
    ensures
        r == (recorded.canonical_path@ == canonical_path@ && recorded.identity@ == identity@),
{
    text::same_text(recorded.canonical_path.as_str(), canonical_path) && text::same_text(
        recorded.identity.as_str(),
        identity,
    )
}

// ---------------------------------------------------------------------------
// Phases
// ---------------------------------------------------------------------------
#[derive(Clone, Copy, PartialEq, Eq, Debug)]
pub enum PhaseError {
    /// The transaction was committed or rolled back before.
    NotActive,
    /// The phase cannot follow the one before.
    InvalidTransition,
    /// Nothing was decided that could be committed.
    NoCommitDecision,
}

/// Which phase can follow which.
pub open spec fn may_follow(from: SessionTransactionPhase, to: SessionTransactionPhase) -> bool {
    match (from, to) {
        (SessionTransactionPhase::RolloutsApplying, SessionTransactionPhase::RolloutsApplied) => {
            true
        },
        (SessionTransactionPhase::RolloutsApplied, SessionTransactionPhase::DownstreamStarted) => {
            true
        },
        (SessionTransactionPhase::RolloutsApplied, SessionTransactionPhase::CommitDecided) => true,
        (SessionTransactionPhase::DownstreamStarted, SessionTransactionPhase::CommitDecided) => {
            true
        },
        _ => false,
    }
}

/// Takes a transaction to its next phase.
pub fn set_session_transaction_phase(
    transaction: &mut SessionTransactionManifest,
    phase: SessionTransactionPhase,
) -> (r: Result<(), PhaseError>)
    ensures
        match r {
            Ok(_) => old(transaction).in_progress() && may_follow(old(transaction).phase, phase)
                && *final(transaction) == (SessionTransactionManifest {
                phase,
                ..*old(transaction)
            }),
            Err(e) => *final(transaction) == *old(transaction) && if !old(transaction).in_progress() {
                e == PhaseError::NotActive
            } else {
                e == PhaseError::InvalidTransition && !may_follow(old(transaction).phase, phase)
            },
        },
{
    if !is_in_progress(transaction) {
        return Err(PhaseError::NotActive);
    }
    let valid = match (transaction.phase, phase) {
        (SessionTransactionPhase::RolloutsApplying, SessionTransactionPhase::RolloutsApplied) => {
            true
        },
        (SessionTransactionPhase::RolloutsApplied, SessionTransactionPhase::DownstreamStarted) => {
            true
        },
        (SessionTransactionPhase::RolloutsApplied, SessionTransactionPhase::CommitDecided) => true,
        (SessionTransactionPhase::DownstreamStarted, SessionTransactionPhase::CommitDecided) => {
            true
        },
        _ => false,
    };
    if !valid {
        return Err(PhaseError::InvalidTransition);
    }
    transaction.phase = phase;
    Ok(())
}

/// Ends a transaction whose commit was decided.
pub fn commit_session_transaction(transaction: &mut SessionTransactionManifest) -> (r: Result<
    (),
    PhaseError,
>)
    ensures
        match r {
            Ok(_) => old(transaction).phase == SessionTransactionPhase::CommitDecided && final(transaction).committed() && *final(transaction) == (SessionTransactionManifest {
                status: final(transaction).status,
                ..*old(transaction)
            }),
            Err(e) => e == PhaseError::NoCommitDecision && old(transaction).phase
                != SessionTransactionPhase::CommitDecided && *final(transaction) == *old(transaction),
        },
{
    match transaction.phase {
        SessionTransactionPhase::CommitDecided => {
            transaction.status = text::copy_text(SESSION_TRANSACTION_COMMITTED);
            Ok(())
        },
        _ => Err(PhaseError::NoCommitDecision),
    }
}

/// The place of a phase in the course of a transaction.
pub open spec fn phase_rank(phase: SessionTransactionPhase) -> nat {
    match phase {
        SessionTransactionPhase::RolloutsApplying => 0,
        SessionTransactionPhase::RolloutsApplied => 1,
        SessionTransactionPhase::DownstreamStarted => 2,
        SessionTransactionPhase::CommitDecided => 3,
    }
}

/// Phases only go forward, and nothing follows a commit decision.
pub proof fn lemma_phases_go_forward(from: SessionTransactionPhase, to: SessionTransactionPhase)
    requires
        may_follow(from, to),
    ensures
        phase_rank(from) < phase_rank(to),
        from != SessionTransactionPhase::CommitDecided,
        to == SessionTransactionPhase::DownstreamStarted ==> from
            == SessionTransactionPhase::RolloutsApplied,
{
}

// ---------------------------------------------------------------------------
// Recovery
// ---------------------------------------------------------------------------
/// What is to be done about a transaction that a run finds when it starts.
#[derive(Clone, Copy, PartialEq, Eq, Debug)]
pub enum RecoveryAction {
    /// It has come to its end.
    Nothing,
    Commit,
    /// Databases and global state first, then the rollout files.
    RestoreDownstreamThenRollback,
    Rollback,
}

pub open spec fn recovery_of(m: SessionTransactionManifest) -> RecoveryAction {
    if !m.in_progress() {
        RecoveryAction::Nothing
    } else if m.phase == SessionTransactionPhase::CommitDecided {
        RecoveryAction::Commit
    } else if m.mode == SessionTransactionMode::Full && m.phase
        == SessionTransactionPhase::DownstreamStarted {
        RecoveryAction::RestoreDownstreamThenRollback
    } else {
        RecoveryAction::Rollback
    }
}

/// What is to be done about a transaction that may have been interrupted.
pub fn recovery_action(transaction: &SessionTransactionManifest) -> (r: RecoveryAction)
    ensures
        r == recovery_of(*transaction),
{
    if !is_in_progress(transaction) {
        return RecoveryAction::Nothing;
    }
    match (transaction.mode, transaction.phase) {
        (_, SessionTransactionPhase::CommitDecided) => RecoveryAction::Commit,
        (SessionTransactionMode::Full, SessionTransactionPhase::DownstreamStarted) => {
            RecoveryAction::RestoreDownstreamThenRollback
        },
        _ => RecoveryAction::Rollback,
    }
}

/// What has to happen before the entries of a transaction are rolled back.
#[derive(Clone, Copy, PartialEq, Eq, Debug)]
pub enum RollbackStart {
    /// The transaction has come to its end before.
    Nothing,
    Proceed,
    UnknownStatus,
}

/// What has to happen before the entries of a transaction are rolled back.
pub fn rollback_start(transaction: &SessionTransactionManifest) -> (r: RollbackStart)
    ensures
        r == if transaction.committed() || transaction.rolled_back() {
            RollbackStart::Nothing
        } else if transaction.in_progress() {
            RollbackStart::Proceed
        } else {
            RollbackStart::UnknownStatus
        },
{
    if is_committed(transaction) || text::same_text(
        transaction.status.as_str(),
        SESSION_TRANSACTION_ROLLED_BACK,
    ) {
        RollbackStart::Nothing
    } else if is_in_progress(transaction) {
        RollbackStart::Proceed
    } else {
        RollbackStart::UnknownStatus
    }
}

/// How far the rollback of a transaction has come.
#[derive(Clone, Copy, PartialEq, Eq, Structural, Debug)]
pub enum RollbackProgress {
    /// Roll back an entry.
    RollBackEntry { entry: usize },
    /// Remove the files that the transaction left beside the rollout files.
    RemoveTemporaryFiles,
    /// Record that the transaction is rolled back.
    RecordRolledBack,
    Finished,
}

/// The progress when so many entries are left, which are gone through from the last to
/// the first.
pub open spec fn entries_left(n: nat) -> RollbackProgress {
    if n > 0 {
        RollbackProgress::RollBackEntry { entry: (n - 1) as usize }
    } else {
        RollbackProgress::RemoveTemporaryFiles
    }
}

/// The progress after one more step.
pub open spec fn progress_after(p: RollbackProgress) -> RollbackProgress {
    match p {
        RollbackProgress::RollBackEntry { entry } => entries_left(entry as nat),
        RollbackProgress::RemoveTemporaryFiles => RollbackProgress::RecordRolledBack,
        RollbackProgress::RecordRolledBack => RollbackProgress::Finished,
        RollbackProgress::Finished => RollbackProgress::Finished,
    }
}

/// Begins the rollback of a transaction. There is none where its status is unknown.
pub fn rollback_session_transaction(transaction: &SessionTransactionManifest) -> (r: Option<
    RollbackProgress,
>)
    ensures
        r == if transaction.committed() || transaction.rolled_back() {
            Some(RollbackProgress::Finished)
        } else if transaction.in_progress() {
            Some(entries_left(transaction.entries@.len()))
        } else {
            None
        },
{
    match rollback_start(transaction) {
        RollbackStart::Nothing => Some(RollbackProgress::Finished),
        RollbackStart::UnknownStatus => None,
        RollbackStart::Proceed => {
            let n: usize = transaction.entries.len();
            if n > 0 {
                Some(RollbackProgress::RollBackEntry { entry: n - 1 })
            } else {
                Some(RollbackProgress::RemoveTemporaryFiles)
            }
        },
    }
}

/// What follows once a step of a rollback was done.
pub fn rollback_goes_on(p: RollbackProgress) -> (r: RollbackProgress)
    ensures
        r == progress_after(p),
{
    match p {
        RollbackProgress::RollBackEntry { entry } => if entry > 0 {
            RollbackProgress::RollBackEntry { entry: entry - 1 }
        } else {
            RollbackProgress::RemoveTemporaryFiles
        },
        RollbackProgress::RemoveTemporaryFiles => RollbackProgress::RecordRolledBack,
        _ => RollbackProgress::Finished,
    }
}

/// The progress after some steps.
pub open spec fn progress_after_steps(p: RollbackProgress, steps: nat) -> RollbackProgress
    decreases steps,
{
    if steps == 0 {
        p
    } else {
        progress_after(progress_after_steps(p, (steps - 1) as nat))
    }
}

/// A transaction is recorded as rolled back only after each of its entries was rolled
/// back, from the last to the first, and what it left behind was removed.
pub proof fn lemma_rollback_goes_through_all_entries(n: usize, steps: nat)
    requires
        steps <= n + 2,
    ensures
        progress_after_steps(entries_left(n as nat), steps) == if steps < n {
            RollbackProgress::RollBackEntry { entry: (n - 1 - steps) as usize }
        } else if steps == n {
            RollbackProgress::RemoveTemporaryFiles
        } else if steps == n + 1 {
            RollbackProgress::RecordRolledBack
        } else {
            RollbackProgress::Finished
        },
    decreases steps,
{
    if steps > 0 {
        lemma_rollback_goes_through_all_entries(n, (steps - 1) as nat);
    }
}

/// Ends a transaction whose entries were all rolled back.
pub fn rollback_finish(transaction: &mut SessionTransactionManifest)
    ensures
        final(transaction).rolled_back(),
        *final(transaction) == (SessionTransactionManifest {
            status: final(transaction).status,
            ..*old(transaction)
        }),
{
    transaction.status = text::copy_text(SESSION_TRANSACTION_ROLLED_BACK);
}

/// A transaction that came to its end is left alone: neither recovery nor a
/// rollback does anything about it, and no phase follows.
pub proof fn lemma_ended_transaction_is_left_alone(m: SessionTransactionManifest)
    requires
        m.committed() || m.rolled_back(),
    ensures
        recovery_of(m) == RecoveryAction::Nothing,
        !m.in_progress(),
{
    reveal_strlit("in_progress");
    reveal_strlit("committed");
    reveal_strlit("rolled_back");
    assert("rolled_back"@[0] != "in_progress"@[0]);
    assert("committed"@.len() != "in_progress"@.len());
}

/// A commit that was decided is carried out, never rolled back.
pub proof fn lemma_decided_commit_is_kept(m: SessionTransactionManifest)
    requires
        m.in_progress(),
    ensures
        m.phase == SessionTransactionPhase::CommitDecided <==> recovery_of(m)
            == RecoveryAction::Commit,
        recovery_of(m) == RecoveryAction::RestoreDownstreamThenRollback ==> m.mode
            == SessionTransactionMode::Full,
{
}

// ---------------------------------------------------------------------------
// Rolling back one entry
// ---------------------------------------------------------------------------
/// The digest and the size of a file.
#[derive(Debug)]
pub struct FileEvidence {
    pub sha256: String,
    pub size: u64,
}

/// What is known of a file.
#[derive(Debug)]
pub enum Observation {
    /// It has not been looked at.
    Unknown,
    Absent,
    Present(FileEvidence),
}

/// What is known of a file, as a value.
pub enum Seen {
    Unknown,
    Absent,
    Present(Seq<char>, u64),
}

impl View for Observation {
    type V = Seen;

    open spec fn view(&self) -> Seen {
        match *self {
            Observation::Unknown => Seen::Unknown,
            Observation::Absent => Seen::Absent,
            Observation::Present(e) => Seen::Present(e.sha256@, e.size),
        }
    }
}

/// The versions of a file that an entry knows.
pub struct EntryVersions {
    pub original: Seen,
    pub next: Seen,
    /// The version of somebody else that is to stay.
    pub external: Option<Seen>,
}

impl SessionTransactionEntry {
    pub open spec fn versions(self) -> EntryVersions {
        EntryVersions {
            original: Seen::Present(self.original_sha256@, self.original_size),
            next: Seen::Present(self.next_sha256@, self.next_size),
            external: match (self.external_sha256, self.external_size) {
                (Some(sha256), Some(size)) => Some(Seen::Present(sha256@, size)),
                _ => None,
            },
        }
    }
}

/// Why an entry cannot be rolled back.
#[derive(Clone, Copy, PartialEq, Eq, Debug)]
pub enum RollbackError {
    DisplacedChangedAfterExternalRestore,
    CurrentChangedAfterExternalDecision,
    DisplacedExternalChanged,
    ExternalMissing,
    BothChanged,
    CurrentMissing,
    CurrentChanged,
}

/// What is to be done next to roll back an entry.
#[derive(Clone, Copy, PartialEq, Eq, Debug)]
pub enum RollbackStep {
    /// Look at the rollout file.
    InspectCurrent,
    /// Look at the file that was set aside.
    InspectDisplaced,
    /// The entry is rolled back.
    Done,
    /// Remove the file that was set aside; the entry is rolled back then.
    RemoveDisplaced,
    /// Record the rollout file as the version that stays, then remove the file that
    /// was set aside.
    KeepCurrentAndRemoveDisplaced,
    /// Put the file that was set aside back in its place.
    RestoreDisplaced { restore_mtime: bool },
    /// Record the file that was set aside as the version that stays, then put it
    /// back in its place.
    KeepDisplacedAndRestore,
    /// Rebuild the original version from the rollout file and the kept lines.
    RebuildOriginal,
    Fail(RollbackError),
}

/// What is to be done next, given what is known of the two files.
pub open spec fn rollback_step(v: EntryVersions, current: Seen, displaced: Seen) -> RollbackStep {
    match v.external {
        Some(external) => if current is Unknown {
            RollbackStep::InspectCurrent
        } else if current is Present && current != external && current != v.next {
            RollbackStep::Fail(RollbackError::CurrentChangedAfterExternalDecision)
        } else if displaced is Unknown {
            RollbackStep::InspectDisplaced
        } else if current == external {
            if displaced is Absent {
                RollbackStep::Done
            } else if displaced == v.original || displaced == external {
                RollbackStep::RemoveDisplaced
            } else {
                RollbackStep::Fail(RollbackError::DisplacedChangedAfterExternalRestore)
            }
        } else if displaced is Absent {
            RollbackStep::Fail(RollbackError::ExternalMissing)
        } else if displaced == external {
            RollbackStep::RestoreDisplaced { restore_mtime: false }
        } else {
            RollbackStep::Fail(RollbackError::DisplacedExternalChanged)
        },
        None => if displaced is Unknown {
            RollbackStep::InspectDisplaced
        } else if current is Unknown {
            RollbackStep::InspectCurrent
        } else if displaced is Absent {
            if current is Absent {
                RollbackStep::Fail(RollbackError::CurrentMissing)
            } else if current == v.original {
                RollbackStep::Done
            } else if current == v.next {
                RollbackStep::RebuildOriginal
            } else {
                RollbackStep::Fail(RollbackError::CurrentChanged)
            }
        } else if current is Absent {
            RollbackStep::RestoreDisplaced { restore_mtime: displaced == v.original }
        } else if displaced == v.original {
            if current == v.original {
                RollbackStep::RemoveDisplaced
            } else if current == v.next {
                RollbackStep::RestoreDisplaced { restore_mtime: true }
            } else {
                RollbackStep::KeepCurrentAndRemoveDisplaced
            }
        } else if current == v.next {
            RollbackStep::KeepDisplacedAndRestore
        } else {
            RollbackStep::Fail(RollbackError::BothChanged)
        },
    }
}

fn is_version(seen: &Observation, sha256: &str, size: u64) -> (r: bool)
    ensures
        r == (seen@ == Seen::Present(sha256@, size)),
{
    match seen {
        Observation::Present(e) => e.size == size && text::same_text(e.sha256.as_str(), sha256),
        _ => false,
    }
}

/// What is to be done next to roll back an entry.
pub fn rollback_next(
    entry: &SessionTransactionEntry,
    current: &Observation,
    displaced: &Observation,
) -> (r: RollbackStep)
    ensures
        r == rollback_step(entry.versions(), current@, displaced@),
{
    let current_is_original = is_version(
        current,
        entry.original_sha256.as_str(),
        entry.original_size,
    );
    let current_is_next = is_version(current, entry.next_sha256.as_str(), entry.next_size);
    let displaced_is_original = is_version(
        displaced,
        entry.original_sha256.as_str(),
        entry.original_size,
    );
    match (&entry.external_sha256, &entry.external_size) {
        (Some(sha256), Some(size)) => {
            let current_is_external = is_version(current, sha256.as_str(), *size);
            let displaced_is_external = is_version(displaced, sha256.as_str(), *size);
            match current {
                Observation::Unknown => {
                    return RollbackStep::InspectCurrent;
                },
                Observation::Present(_) => {
                    if !current_is_external && !current_is_next {
                        return RollbackStep::Fail(
                            RollbackError::CurrentChangedAfterExternalDecision,
                        );
                    }
                },
                Observation::Absent => {},
            }
            match displaced {
                Observation::Unknown => RollbackStep::InspectDisplaced,
                Observation::Absent => if current_is_external {
                    RollbackStep::Done
                } else {
                    RollbackStep::Fail(RollbackError::ExternalMissing)
                },
                Observation::Present(_) => if current_is_external {
                    if displaced_is_original || displaced_is_external {
                        RollbackStep::RemoveDisplaced
                    } else {
                        RollbackStep::Fail(RollbackError::DisplacedChangedAfterExternalRestore)
                    }
                } else if displaced_is_external {
                    RollbackStep::RestoreDisplaced { restore_mtime: false }
                } else {
                    RollbackStep::Fail(RollbackError::DisplacedExternalChanged)
                },
            }
        },
        _ => match (displaced, current) {
            (Observation::Unknown, _) => RollbackStep::InspectDisplaced,
            (_, Observation::Unknown) => RollbackStep::InspectCurrent,
            (Observation::Absent, Observation::Absent) => RollbackStep::Fail(
                RollbackError::CurrentMissing,
            ),
            (Observation::Absent, Observation::Present(_)) => if current_is_original {
                RollbackStep::Done
            } else if current_is_next {
                RollbackStep::RebuildOriginal
            } else {
                RollbackStep::Fail(RollbackError::CurrentChanged)
            },
            (Observation::Present(_), Observation::Absent) => RollbackStep::RestoreDisplaced {
                restore_mtime: displaced_is_original,
            },
            (Observation::Present(_), Observation::Present(_)) => if displaced_is_original {
                if current_is_original {
                    RollbackStep::RemoveDisplaced
                } else if current_is_next {
                    RollbackStep::RestoreDisplaced { restore_mtime: true }
                } else {
                    RollbackStep::KeepCurrentAndRemoveDisplaced
                }
            } else if current_is_next {
                RollbackStep::KeepDisplacedAndRestore
            } else {
                RollbackStep::Fail(RollbackError::BothChanged)
            },
        },
    }
}

/// Records a version of somebody else that is to stay.
pub fn record_external(entry: &mut SessionTransactionEntry, evidence: FileEvidence)
    ensures
        *final(entry) == (SessionTransactionEntry {
            external_sha256: Some(evidence.sha256),
            external_size: Some(evidence.size),
            ..*old(entry)
        }),
{
    entry.external_sha256 = Some(evidence.sha256);
    entry.external_size = Some(evidence.size);
}

/// Whether the original version was rebuilt.
pub fn rebuilt_original(entry: &SessionTransactionEntry, sha256: &str, size: u64) -> (r: bool)
    ensures
        r == (Seen::Present(sha256@, size) == entry.versions().original),
{
    size == entry.original_size && text::same_text(sha256, entry.original_sha256.as_str())
}

/// The versions, the rollout file and the file that was set aside, once a step has
/// been carried out.
pub open spec fn after_step(
    v: EntryVersions,
    current: Seen,
    displaced: Seen,
    step: RollbackStep,
) -> (EntryVersions, Seen, Seen) {
    match step {
        RollbackStep::RemoveDisplaced => (v, current, Seen::Absent),
        RollbackStep::KeepCurrentAndRemoveDisplaced => (
            EntryVersions { external: Some(current), ..v },
            current,
            Seen::Absent,
        ),
        RollbackStep::RestoreDisplaced { .. } => (v, displaced, Seen::Absent),
        RollbackStep::KeepDisplacedAndRestore => (
            EntryVersions { external: Some(displaced), ..v },
            displaced,
            Seen::Absent,
        ),
        RollbackStep::RebuildOriginal => (v, v.original, Seen::Absent),
        _ => (v, current, displaced),
    }
}

/// Whether an entry knows files, not the lack of them.
pub open spec fn are_versions(v: EntryVersions) -> bool {
    v.original is Present && v.next is Present && (v.external matches Some(e) ==> e is Present)
}

/// Rolling back an entry does not go on for ever: once both files have been looked
/// at, nothing is to be looked at.
pub proof fn lemma_rollback_decides(v: EntryVersions, current: Seen, displaced: Seen)
    requires
        !(current is Unknown),
        !(displaced is Unknown),
    ensures
        !(rollback_step(v, current, displaced) is InspectCurrent),
        !(rollback_step(v, current, displaced) is InspectDisplaced),
{
}

/// Whether the two files are as a replacement that nobody interferes with leaves them
/// at some moment: nothing is done yet, the original version is set aside and its place
/// is empty or holds the next version, or all is done.
pub open spec fn in_replacement(v: EntryVersions, current: Seen, displaced: Seen) -> bool {
    ||| current == v.original && displaced is Absent
    ||| current is Absent && displaced == v.original
    ||| current == v.next && displaced == v.original
    ||| current == v.next && displaced is Absent
}

/// A rollback undoes a replacement, at whatever moment it was interrupted: the rollout
/// file is the original version again, and nothing is set aside.
pub proof fn lemma_rollback_undoes_replacement(v: EntryVersions, current: Seen, displaced: Seen)
    requires
        are_versions(v),
        v.external is None,
        in_replacement(v, current, displaced),
    ensures
        ({
            let step = rollback_step(v, current, displaced);
            &&& !(step is Fail)
            &&& after_step(v, current, displaced, step) == (v, v.original, Seen::Absent)
        }),
{
}

/// A rollback can be taken up again: what one step has done, the next look finds
/// done. The one exception is a rollout file that is gone while the file that was
/// set aside is not the original version.
pub proof fn lemma_rollback_can_be_repeated(v: EntryVersions, current: Seen, displaced: Seen)
    requires
        are_versions(v),
        !(current is Unknown),
        !(displaced is Unknown),
        !(rollback_step(v, current, displaced) is Fail),
        v.external is None && current is Absent ==> displaced == v.original,
    ensures
        ({
            let (v1, current1, displaced1) = after_step(
                v,
                current,
                displaced,
                rollback_step(v, current, displaced),
            );
            rollback_step(v1, current1, displaced1) == RollbackStep::Done
        }),
{
}

/// A rollback ends with the original version or with a version of somebody else,
/// and it replaces nothing but the version that the transaction itself wrote.
pub proof fn lemma_rollback_keeps_foreign_versions(
    v: EntryVersions,
    current: Seen,
    displaced: Seen,
)
    requires
        are_versions(v),
        !(current is Unknown),
        !(displaced is Unknown),
        !(rollback_step(v, current, displaced) is Fail),
        v.external is None && current is Absent ==> displaced == v.original,
    ensures
        ({
            let step = rollback_step(v, current, displaced);
            let (v1, current1, displaced1) = after_step(v, current, displaced, step);
            &&& current1 == v.original || v1.external == Some(current1)
            &&& current1 != current ==> current is Absent || current == v.next
            &&& displaced1 != displaced ==> current1 == displaced || displaced == v.original
                || v.external == Some(displaced)
        }),
{
}

// ---------------------------------------------------------------------------
// Which transactions are accepted, and what a rollback refuses
// ---------------------------------------------------------------------------
/// Whether a text is a number of `n` hexadecimal digits.
pub open spec fn is_hex_number(s: Seq<char>, n: nat) -> bool {
    s.len() == n && forall|i: int|
        0 <= i < s.len() ==> ('0' <= #[trigger] s[i] <= '9' || 'a' <= s[i] <= 'f' || 'A' <= s[i]
            <= 'F')
}

proof fn lemma_hex_numbers(s: Seq<char>)
    ensures
        digest::is_sha256_hex(s) <==> is_hex_number(s, 64),
        names::is_transaction_id(s) <==> is_hex_number(s, 32),
{
    if is_hex_number(s, 64) || is_hex_number(s, 32) {
        assert forall|i: int| 0 <= i < s.len() implies text::is_hex_digit(#[trigger] s[i]) by {
            assert('0' <= s[i] <= '9' || 'a' <= s[i] <= 'f' || 'A' <= s[i] <= 'F');
        }
    }
    if digest::is_sha256_hex(s) || names::is_transaction_id(s) {
        assert forall|i: int| 0 <= i < s.len() implies ('0' <= #[trigger] s[i] <= '9' || 'a'
            <= s[i] <= 'f' || 'A' <= s[i] <= 'F') by {
            assert(text::is_hex_digit(s[i]));
        }
    }
}

/// Whether an entry is whole: its digests are digests, and a version of somebody else comes
/// with its digest and its size or not at all.
pub open spec fn is_whole(e: SessionTransactionEntry) -> bool {
    &&& is_hex_number(e.original_sha256@, 64)
    &&& is_hex_number(e.next_sha256@, 64)
    &&& is_hex_number(e.session_meta_backup_sha256@, 64)
    &&& e.external_sha256 matches Some(h) ==> is_hex_number(h@, 64)
    &&& e.external_sha256 is Some <==> e.external_size is Some
}

/// A transaction is accepted where it is of the version that is known, has an id of 32
/// hexadecimal digits, speaks of rollout directories by their names and with their
/// identities, and all its entries are whole; no other is.
pub proof fn lemma_which_transactions_are_accepted(
    m: SessionTransactionManifest,
    roots_absolute: bool,
)
    ensures
        transaction_error(m, roots_absolute) is None <==> {
            &&& m.version == 1
            &&& m.namespace@ == "provider-sync-rollout-transaction"@
            &&& is_hex_number(m.transaction_id@, 32)
            &&& roots_absolute
            &&& forall|i: int|
                0 <= i < m.rollout_roots@.len() ==> ((#[trigger] m.rollout_roots@[i]).name@
                    == "sessions"@ || m.rollout_roots@[i].name@ == "archived_sessions"@)
                    && !text::all_white(m.rollout_roots@[i].identity@)
            &&& forall|i: int| 0 <= i < m.entries@.len() ==> is_whole(#[trigger] m.entries@[i])
        },
        ({
            let error = transaction_error(m, roots_absolute);
            let known = m.version == 1 && m.namespace@ == "provider-sync-rollout-transaction"@;
            &&& error == Some(TransactionError::Unsupported) <==> !known
            &&& error == Some(TransactionError::InvalidId) <==> known && !is_hex_number(
                m.transaction_id@,
                32,
            )
            &&& error == Some(TransactionError::InvalidHash) || error == Some(
                TransactionError::IncompleteExternal,
            ) ==> known && is_hex_number(m.transaction_id@, 32) && roots_absolute && exists|i: int|
                0 <= i < m.entries@.len() && !is_whole(#[trigger] m.entries@[i])
        }),
{
    lemma_hex_numbers(m.transaction_id@);
    lemma_whole_entries(m.entries@);
    let roots = m.rollout_roots@;
    assert forall|i: int| 0 <= i < roots.len() implies root_fits(#[trigger] roots[i]) == ((
    roots[i].name@ == "sessions"@ || roots[i].name@ == "archived_sessions"@) && !text::all_white(
        roots[i].identity@,
    )) by {
        text::lemma_blank_is_white_space(roots[i].identity@);
    }
    if forall|i: int|
        0 <= i < roots.len() ==> ((#[trigger] roots[i]).name@ == "sessions"@ || roots[i].name@
            == "archived_sessions"@) && !text::all_white(roots[i].identity@) {
        assert(roots_fit(roots));
    }
    if roots_fit(roots) {
        assert forall|i: int| 0 <= i < roots.len() implies ((#[trigger] roots[i]).name@
            == "sessions"@ || roots[i].name@ == "archived_sessions"@) && !text::all_white(
            roots[i].identity@,
        ) by {
            assert(root_fits(roots[i]));
        }
    }
}

proof fn lemma_whole_entries(entries: Seq<SessionTransactionEntry>)
    ensures
        entries_error(entries) is None <==> forall|i: int|
            0 <= i < entries.len() ==> is_whole(#[trigger] entries[i]),
        entries_error(entries) matches Some(e) ==> e == TransactionError::InvalidHash || e
            == TransactionError::IncompleteExternal,
    decreases entries.len(),
{
    if entries.len() > 0 {
        let init = entries.drop_last();
        let n = entries.len() - 1;
        lemma_whole_entries(init);
        lemma_whole_entry(entries[n]);
        if entries_error(entries) is None {
            assert forall|i: int| 0 <= i < entries.len() implies is_whole(#[trigger] entries[i]) by {
                if i < n {
                    assert(init[i] == entries[i]);
                }
            }
        }
        if forall|i: int| 0 <= i < entries.len() ==> is_whole(#[trigger] entries[i]) {
            assert forall|i: int| 0 <= i < init.len() implies is_whole(#[trigger] init[i]) by {
                assert(entries[i] == init[i]);
            }
            assert(is_whole(entries[n]));
        }
    }
}

proof fn lemma_whole_entry(e: SessionTransactionEntry)
    ensures
        entry_error(e) is None <==> is_whole(e),
{
    lemma_hex_numbers(e.original_sha256@);
    lemma_hex_numbers(e.next_sha256@);
    lemma_hex_numbers(e.session_meta_backup_sha256@);
    if let Some(h) = e.external_sha256 {
        lemma_hex_numbers(h@);
    }
}

/// A phase is followed by the next one, and no other: the rollouts are applied, then the
/// rest is started and then decided; where there is no rest, the decision follows the
/// rollouts.
pub proof fn lemma_order_of_phases(to: SessionTransactionPhase)
    ensures
        may_follow(SessionTransactionPhase::RolloutsApplying, to) <==> to
            == SessionTransactionPhase::RolloutsApplied,
        may_follow(SessionTransactionPhase::RolloutsApplied, to) <==> to
            == SessionTransactionPhase::DownstreamStarted || to
            == SessionTransactionPhase::CommitDecided,
        may_follow(SessionTransactionPhase::DownstreamStarted, to) <==> to
            == SessionTransactionPhase::CommitDecided,
        !may_follow(SessionTransactionPhase::CommitDecided, to),
{
}

/// What an interrupted transaction is brought to: one that was decided is committed, one
/// that changed databases has them restored first, any other is rolled back, and one that
/// has come to its end is left alone.
pub proof fn lemma_what_a_recovery_does(m: SessionTransactionManifest)
    ensures
        m.status@ != "in_progress"@ ==> recovery_of(m) == RecoveryAction::Nothing,
        m.status@ == "in_progress"@ ==> {
            &&& m.phase == SessionTransactionPhase::CommitDecided ==> recovery_of(m)
                == RecoveryAction::Commit
            &&& m.phase == SessionTransactionPhase::DownstreamStarted && m.mode
                == SessionTransactionMode::Full ==> recovery_of(m)
                == RecoveryAction::RestoreDownstreamThenRollback
            &&& m.phase == SessionTransactionPhase::DownstreamStarted && m.mode
                == SessionTransactionMode::Remote ==> recovery_of(m) == RecoveryAction::Rollback
            &&& m.phase == SessionTransactionPhase::RolloutsApplying || m.phase
                == SessionTransactionPhase::RolloutsApplied ==> recovery_of(m)
                == RecoveryAction::Rollback
        },
{
}

/// What a rollback refuses, and why. Without a version of somebody else on record: where
/// nothing is set aside and the file is gone or is neither version; and where both the file
/// and the one set aside are versions of somebody else. With one on record: where the file
/// is neither that version nor the next one; where that version is nowhere; and where the
/// file set aside is none of those that may be there. In all other cases it goes on.
pub proof fn lemma_what_a_rollback_refuses(v: EntryVersions, current: Seen, displaced: Seen)
    requires
        are_versions(v),
        !(current is Unknown),
        !(displaced is Unknown),
    ensures
        ({
            let step = rollback_step(v, current, displaced);
            &&& v.external is None ==> {
                &&& step == RollbackStep::Fail(RollbackError::CurrentMissing) <==> displaced is Absent
                    && current is Absent
                &&& step == RollbackStep::Fail(RollbackError::CurrentChanged) <==> displaced is Absent
                    && current is Present && current != v.original && current != v.next
                &&& step == RollbackStep::Fail(RollbackError::BothChanged) <==> displaced is Present
                    && current is Present && displaced != v.original && current != v.next
                &&& step is Fail ==> step == RollbackStep::Fail(RollbackError::CurrentMissing)
                    || step == RollbackStep::Fail(RollbackError::CurrentChanged) || step
                    == RollbackStep::Fail(RollbackError::BothChanged)
            }
            &&& v.external matches Some(external) ==> {
                &&& step == RollbackStep::Fail(
                    RollbackError::CurrentChangedAfterExternalDecision,
                ) <==> current is Present && current != external && current != v.next
                &&& step == RollbackStep::Fail(RollbackError::ExternalMissing) <==> (current
                    is Absent || (current == v.next && current != external)) && displaced is Absent
                &&& step == RollbackStep::Fail(RollbackError::DisplacedExternalChanged) <==> (
                current is Absent || (current == v.next && current != external))
                    && displaced is Present && displaced != external
                &&& step == RollbackStep::Fail(
                    RollbackError::DisplacedChangedAfterExternalRestore,
                ) <==> current == external && displaced is Present && displaced != v.original
                    && displaced != external
                &&& step is Fail ==> !(step == RollbackStep::Fail(RollbackError::BothChanged))
                    && !(step == RollbackStep::Fail(RollbackError::CurrentMissing)) && !(step
                    == RollbackStep::Fail(RollbackError::CurrentChanged))
            }
        }),
{
}

/// What is put back where a rollback goes on without a version of somebody else on record:
/// the file set aside, where the file is gone or is the next version; the original version,
/// rebuilt, where the file is the next version and nothing is set aside. The time of a file
/// is put back with the original version, and with no other.
pub proof fn lemma_what_a_rollback_puts_back(v: EntryVersions, current: Seen, displaced: Seen)
    requires
        are_versions(v),
        v.external is None,
        v.original != v.next,
        !(current is Unknown),
        !(displaced is Unknown),
    ensures
        ({
            let step = rollback_step(v, current, displaced);
            &&& current == v.original && displaced is Absent ==> step is Done
            &&& current == v.original && displaced == v.original ==> step is RemoveDisplaced
            &&& current == v.next && displaced is Absent ==> step is RebuildOriginal
            &&& current == v.next && displaced == v.original ==> step
                == (RollbackStep::RestoreDisplaced { restore_mtime: true })
            &&& current == v.next && displaced is Present && displaced != v.original ==> step
                is KeepDisplacedAndRestore
            &&& current is Absent && displaced == v.original ==> step
                == (RollbackStep::RestoreDisplaced { restore_mtime: true })
            &&& current is Absent && displaced is Present && displaced != v.original ==> step
                == (RollbackStep::RestoreDisplaced { restore_mtime: false })
            &&& current is Present && current != v.original && current != v.next && displaced
                == v.original ==> step is KeepCurrentAndRemoveDisplaced
        }),
{
}

/// The versions of an entry are told by its digests and sizes; a version of somebody else
/// is one only with both.
pub proof fn lemma_versions_of_an_entry(e: SessionTransactionEntry)
    ensures
        e.versions().original == Seen::Present(e.original_sha256@, e.original_size),
        e.versions().next == Seen::Present(e.next_sha256@, e.next_size),
        e.external_sha256 is None || e.external_size is None ==> e.versions().external is None,
        e.external_sha256 is Some && e.external_size is Some ==> e.versions().external == Some(
            Seen::Present(e.external_sha256->0@, e.external_size->0),
        ),
{
}

/// What was seen of a file.
pub proof fn lemma_what_was_seen(o: Observation)
    ensures
        o is Unknown ==> o@ is Unknown,
        o is Absent ==> o@ is Absent,
        o matches Observation::Present(e) ==> o@ == Seen::Present(e.sha256@, e.size),
{
}

/// The states of a transaction, by what stands in its record.
pub proof fn lemma_states_of_a_transaction(m: SessionTransactionManifest)
    ensures
        m.in_progress() <==> m.status@ == "in_progress"@,
        m.committed() <==> m.status@ == "committed"@,
        m.rolled_back() <==> m.status@ == "rolled_back"@,
{
}

/// A record is refused for its rollout directories before its entries are looked at, and
/// then for the first entry that is not whole: for a hash where one of its hashes is no
/// SHA-256, and otherwise because only half of what another program wrote is told.
pub proof fn lemma_why_transactions_are_refused(
    m: SessionTransactionManifest,
    roots_absolute: bool,
    n: int,
)
    requires
        m.version == 1,
        m.namespace@ == "provider-sync-rollout-transaction"@,
        is_hex_number(m.transaction_id@, 32),
    ensures
        ({
            let roots = m.rollout_roots@;
            let e = m.entries@[n];
            let error = transaction_error(m, roots_absolute);
            let known_roots = roots_absolute && forall|i: int|
                0 <= i < roots.len() ==> ((#[trigger] roots[i]).name@ == "sessions"@
                    || roots[i].name@ == "archived_sessions"@) && !text::all_white(
                    roots[i].identity@,
                );
            &&& error == Some(TransactionError::InvalidRoot) <==> !known_roots
            &&& known_roots && 0 <= n < m.entries@.len() && !is_whole(e) && (forall|i: int|
                0 <= i < n ==> is_whole(#[trigger] m.entries@[i])) ==> error == if is_hex_number(
                e.original_sha256@,
                64,
            ) && is_hex_number(e.next_sha256@, 64) && is_hex_number(
                e.session_meta_backup_sha256@,
                64,
            ) && (e.external_sha256 matches Some(h) ==> is_hex_number(h@, 64)) {
                Some(TransactionError::IncompleteExternal)
            } else {
                Some(TransactionError::InvalidHash)
            }
        }),
{
    lemma_hex_numbers(m.transaction_id@);
    lemma_whole_entries(m.entries@);
    let roots = m.rollout_roots@;
    assert forall|i: int| 0 <= i < roots.len() implies root_fits(#[trigger] roots[i]) == ((
    roots[i].name@ == "sessions"@ || roots[i].name@ == "archived_sessions"@) && !text::all_white(
        roots[i].identity@,
    )) by {
        text::lemma_blank_is_white_space(roots[i].identity@);
    }
    if roots_fit(roots) {
        assert forall|i: int| 0 <= i < roots.len() implies ((#[trigger] roots[i]).name@
            == "sessions"@ || roots[i].name@ == "archived_sessions"@) && !text::all_white(
            roots[i].identity@,
        ) by {
            assert(root_fits(roots[i]));
        }
    }
    let entries = m.entries@;
    if 0 <= n < entries.len() && !is_whole(entries[n]) && (forall|i: int|
        0 <= i < n ==> is_whole(#[trigger] entries[i])) {
        let e = entries[n];
        let before = entries.take(n);
        lemma_hex_numbers(e.original_sha256@);
        lemma_hex_numbers(e.next_sha256@);
        lemma_hex_numbers(e.session_meta_backup_sha256@);
        if let Some(h) = e.external_sha256 {
            lemma_hex_numbers(h@);
        }
        lemma_whole_entries(before);
        lemma_whole_entry(e);
        assert forall|i: int| 0 <= i < before.len() implies is_whole(#[trigger] before[i]) by {
            assert(before[i] == entries[i]);
        }
        assert(entries.take(n + 1).drop_last() =~= before);
        lemma_entries_error_stays(entries, n + 1, entry_error(e)->0);
    }
}

} // verus!
