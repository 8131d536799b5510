//! Replacing rollout files one after the other within a transaction.

use crate::json;
use crate::json::{Json, JsonView};
use crate::rollout::{SessionRewriteMode, StageView, StagedSessionFile};
use crate::scan_state;
use crate::scan_state::ModifiedTime;
use crate::text;
use crate::transaction;
use crate::transaction::SessionTransactionEntry;
use vstd::prelude::*;

verus! {

// ---------------------------------------------------------------------------
// Changes
// ---------------------------------------------------------------------------
/// A rollout file that was found, and whether it is to be rewritten.
pub struct SessionChange {
    pub path: String,
    pub original_sha256: String,
    pub original_size: u64,
    pub thread_id: Option<String>,
    pub cwd: Option<String>,
    pub has_user_event: bool,
    pub rewrite_needed: bool,
    pub original_mtime: Option<ModifiedTime>,
    pub rewrite_mode: SessionRewriteMode,
}

/// What became of the changes.
pub struct AppliedSessionChanges {
    pub changed_files: usize,
    pub skipped_locked_rollout_files: Vec<String>,
}

impl AppliedSessionChanges {
    pub fn new() -> (r: AppliedSessionChanges)
        ensures
            r.changed_files == 0,
            r.skipped_locked_rollout_files@.len() == 0,
    {
        AppliedSessionChanges { changed_files: 0, skipped_locked_rollout_files: Vec::new() }
    }

    /// Counts a file that was replaced.
    pub fn count_changed(&mut self)
        requires
            old(self).changed_files < usize::MAX,
        ensures
            *final(self) == (AppliedSessionChanges {
                changed_files: (old(self).changed_files + 1) as usize,
                ..*old(self)
            }),
    {
        self.changed_files = self.changed_files + 1;
    }

    /// Lists a file that was left alone.
    pub fn list_skipped(&mut self, path: &str)
        ensures
            final(self).changed_files == old(self).changed_files,
            text::texts(final(self).skipped_locked_rollout_files@) == text::texts(
                old(self).skipped_locked_rollout_files@,
            ).push(path@),
    {
        let ghost before = text::texts(self.skipped_locked_rollout_files@);
        self.skipped_locked_rollout_files.push(text::copy_text(path));
        assert(text::texts(self.skipped_locked_rollout_files@) =~= before.push(path@));
    }
}

/// Whether the file that was staged is the one that was found.
pub fn staged_as_found(staged: &StagedSessionFile, change: &SessionChange) -> (r: bool)
    ensures
        r == (staged.original_sha256@ == change.original_sha256@ && staged.original_size
            == change.original_size),
{
    staged.original_size == change.original_size && text::same_text(
        staged.original_sha256.as_str(),
        change.original_sha256.as_str(),
    )
}

/// Whether a file is the version with this digest and size.
pub fn is_version(sha256: &str, size: u64, expected_sha256: &str, expected_size: u64) -> (r: bool)
    ensures
        r == (sha256@ == expected_sha256@ && size == expected_size),
{
    size == expected_size && text::same_text(sha256, expected_sha256)
}

/// What is recorded of a staged file before it takes its place.
pub fn staged_entry(
    relative_path: &str,
    staged: &StagedSessionFile,
    original_mtime: Option<ModifiedTime>,
) -> (r: SessionTransactionEntry)
    ensures
        r.relative_path@ == relative_path@,
        r.original_sha256@ == staged.original_sha256@,
        r.next_sha256@ == staged.next_sha256@,
        r.original_size == staged.original_size,
        r.next_size == staged.next_size,
        r.session_meta_backup_sha256@ == staged.session_meta_backup_sha256@,
        r.original_mtime_secs == scan_state::recorded_secs(original_mtime),
        r.original_mtime_nanos == scan_state::recorded_nanos(original_mtime),
        r.external_sha256 is None,
        r.external_size is None,
{
    let (original_mtime_secs, original_mtime_nanos) = scan_state::system_time_parts(
        original_mtime,
    );
    SessionTransactionEntry {
        relative_path: text::copy_text(relative_path),
        original_sha256: text::copy_text(staged.original_sha256.as_str()),
        next_sha256: text::copy_text(staged.next_sha256.as_str()),
        original_size: staged.original_size,
        next_size: staged.next_size,
        session_meta_backup_sha256: text::copy_text(staged.session_meta_backup_sha256.as_str()),
        original_mtime_secs,
        original_mtime_nanos,
        external_sha256: None,
        external_size: None,
    }
}

/// What is recorded of a staged file passes the check of a record that is read.
pub proof fn lemma_staged_entry_passes(
    entry: SessionTransactionEntry,
    staged: StagedSessionFile,
    v: StageView,
)
    requires
        staged.reports(v),
        entry.original_sha256@ == staged.original_sha256@,
        entry.next_sha256@ == staged.next_sha256@,
        entry.session_meta_backup_sha256@ == staged.session_meta_backup_sha256@,
        entry.external_sha256 is None,
        entry.external_size is None,
    ensures
        transaction::entry_error(entry) is None,
{
}

// ---------------------------------------------------------------------------
// The record of kept lines
// ---------------------------------------------------------------------------
/// The name of the file that holds the kept lines of an entry.
pub open spec fn kept_file(index: nat) -> Seq<char> {
    "session-meta/"@ + text::decimal(index) + ".jsonl"@
}

/// The file below a backup that holds the kept lines of an entry.
pub fn kept_file_name(index: usize) -> (r: String)
    ensures
        r@ == kept_file(index as nat),
{
    let number = text::decimal_text(index as u64);
    let a = text::join_text("session-meta/", number.as_str());
    text::join_text(a.as_str(), ".jsonl")
}

/// What is listed of an entry.
pub open spec fn listed_entry(e: SessionTransactionEntry, index: nat) -> JsonView {
    JsonView::Object(
        Map::<Seq<char>, JsonView>::empty().insert(
            "path"@,
            JsonView::Text(e.relative_path@),
        ).insert("originalSha256"@, JsonView::Text(e.original_sha256@)).insert(
            "originalSize"@,
            JsonView::Unsigned(e.original_size),
        ).insert("sessionMetaBackup"@, JsonView::Text(kept_file(index))),
    )
}

/// The list of the entries of a transaction and of the files with their kept lines.
pub open spec fn listed_entries(entries: Seq<SessionTransactionEntry>) -> Seq<JsonView> {
    Seq::new(entries.len(), |i: int| listed_entry(entries[i], i as nat))
}

/// The list of the files that hold kept lines, as it is written into a backup.
pub fn session_meta_backup_manifest(entries: &Vec<SessionTransactionEntry>) -> (r: Json)
    ensures
        r@ == JsonView::Array(listed_entries(entries@)),
{
    let mut items: Vec<Json> = Vec::new();
    let mut i: usize = 0;
    while i < entries.len()
        invariant
            i <= entries.len(),
            items@.len() == i,
            forall|k: int| 0 <= k < i ==> (#[trigger] items@[k])@ == listed_entries(entries@)[k],
        decreases entries.len() - i,
    {
        let e = &entries[i];
        let mut fields: Vec<(String, Json)> = Vec::new();
        json::set_entry(&mut fields, "path", Json::Text(text::copy_text(e.relative_path.as_str())));
        json::set_entry(
            &mut fields,
            "originalSha256",
            Json::Text(text::copy_text(e.original_sha256.as_str())),
        );
        json::set_entry(&mut fields, "originalSize", Json::Unsigned(e.original_size));
        json::set_entry(&mut fields, "sessionMetaBackup", Json::Text(kept_file_name(i)));
        items.push(Json::Object(fields));
        i += 1;
    }
    proof {
        json::lemma_items_view(items@);
        assert(json::items_view(items@) =~= listed_entries(entries@));
    }
    Json::Array(items)
}

// ---------------------------------------------------------------------------
// Replacing one file
// ---------------------------------------------------------------------------
/// Where the replacement of a file stands.
#[derive(Clone, Copy, PartialEq, Eq, Structural, Debug)]
pub enum ApplyStep {
    /// Open the rollout file.
    OpenSource,
    /// Take the lock on it.
    LockSource,
    /// Stage its next version and keep its lines.
    Stage,
    /// Hold what was staged against what was found.
    CompareStaged,
    /// Add the entry to the transaction and write the transaction.
    RecordEntry,
    /// Write the list of kept lines.
    RecordKeptLines,
    /// Make sure that the path still leads to the same place.
    CheckPath,
    /// Put the next version in the place of the rollout file, which is set aside.
    Replace,
    /// Hold the file that was set aside against what was found.
    CheckDisplaced,
    /// Record that the file which was set aside stays, and write the transaction.
    RecordExternal,
    /// Put the file that was set aside back.
    RestoreExternal,
    /// Give the file its time of modification back, and hold it against what was
    /// staged.
    CheckTarget,
    /// Remove the file that was set aside.
    RemoveDisplaced,
    /// The file is replaced.
    Applied,
    /// The file is left alone.
    Skipped,
    /// The replacement of all files is given up.
    Failed,
}

/// What came of a step.
#[derive(Clone, Copy, PartialEq, Eq, Structural, Debug)]
pub enum ApplyEvent {
    Succeeded,
    /// Somebody else holds the file.
    Locked,
    /// The file is not the one that was expected.
    Mismatch,
    Failed,
}

/// What has to be done before the next step.
#[derive(Clone, Copy, PartialEq, Eq, Structural, Debug)]
pub struct ApplyOutcome {
    pub next: ApplyStep,
    pub remove_staged: bool,
    pub remove_kept: bool,
    /// Take the entry out of the transaction again.
    pub drop_entry: bool,
    /// Write the transaction and the list of kept lines again.
    pub rewrite_records: bool,
    /// Roll the transaction back at once.
    pub rollback: bool,
}

/// Going on without anything to clean up.
pub open spec fn go_on(next: ApplyStep) -> ApplyOutcome {
    ApplyOutcome {
        next,
        remove_staged: false,
        remove_kept: false,
        drop_entry: false,
        rewrite_records: false,
        rollback: false,
    }
}

/// What follows on a step and what came of it.
pub open spec fn apply_outcome(step: ApplyStep, event: ApplyEvent) -> ApplyOutcome {
    match (step, event) {
        (ApplyStep::OpenSource, ApplyEvent::Succeeded) => go_on(ApplyStep::LockSource),
        (ApplyStep::OpenSource, ApplyEvent::Locked) => go_on(ApplyStep::Skipped),
        (ApplyStep::LockSource, ApplyEvent::Succeeded) => go_on(ApplyStep::Stage),
        (ApplyStep::LockSource, _) => go_on(ApplyStep::Skipped),
        (ApplyStep::Stage, ApplyEvent::Succeeded) => go_on(ApplyStep::CompareStaged),
        (ApplyStep::Stage, _) => ApplyOutcome {
            remove_staged: true,
            remove_kept: true,
            ..go_on(ApplyStep::Failed)
        },
        (ApplyStep::CompareStaged, ApplyEvent::Succeeded) => go_on(ApplyStep::RecordEntry),
        (ApplyStep::CompareStaged, _) => ApplyOutcome {
            remove_staged: true,
            remove_kept: true,
            ..go_on(ApplyStep::Skipped)
        },
        (ApplyStep::RecordEntry, ApplyEvent::Succeeded) => go_on(ApplyStep::RecordKeptLines),
        (ApplyStep::RecordEntry, _) => ApplyOutcome {
            drop_entry: true,
            remove_staged: true,
            remove_kept: true,
            rollback: true,
            ..go_on(ApplyStep::Failed)
        },
        (ApplyStep::RecordKeptLines, ApplyEvent::Succeeded) => go_on(ApplyStep::CheckPath),
        (ApplyStep::RecordKeptLines, _) => ApplyOutcome {
            remove_staged: true,
            rollback: true,
            ..go_on(ApplyStep::Failed)
        },
        (ApplyStep::CheckPath, ApplyEvent::Succeeded) => go_on(ApplyStep::Replace),
        (ApplyStep::Replace, ApplyEvent::Succeeded) => go_on(ApplyStep::CheckDisplaced),
        (ApplyStep::Replace, ApplyEvent::Locked) => ApplyOutcome {
            remove_staged: true,
            drop_entry: true,
            rewrite_records: true,
            remove_kept: true,
            ..go_on(ApplyStep::Skipped)
        },
        (ApplyStep::Replace, _) => ApplyOutcome {
            remove_staged: true,
            rollback: true,
            ..go_on(ApplyStep::Failed)
        },
        (ApplyStep::CheckDisplaced, ApplyEvent::Succeeded) => go_on(ApplyStep::CheckTarget),
        (ApplyStep::CheckDisplaced, ApplyEvent::Mismatch) => go_on(ApplyStep::RecordExternal),
        (ApplyStep::RecordExternal, ApplyEvent::Succeeded) => go_on(ApplyStep::RestoreExternal),
        (ApplyStep::CheckTarget, ApplyEvent::Succeeded) => go_on(ApplyStep::RemoveDisplaced),
        (ApplyStep::CheckTarget, ApplyEvent::Mismatch) => ApplyOutcome {
            rollback: true,
            ..go_on(ApplyStep::Failed)
        },
        (ApplyStep::RemoveDisplaced, ApplyEvent::Succeeded) => go_on(ApplyStep::Applied),
        (ApplyStep::Applied, _) => go_on(ApplyStep::Applied),
        (ApplyStep::Skipped, _) => go_on(ApplyStep::Skipped),
        _ => go_on(ApplyStep::Failed),
    }
}

fn plain_outcome(next: ApplyStep) -> (r: ApplyOutcome)
    ensures
        r == go_on(next),
{
    ApplyOutcome {
        next,
        remove_staged: false,
        remove_kept: false,
        drop_entry: false,
        rewrite_records: false,
        rollback: false,
    }
}

/// What follows on a step and what came of it.
pub fn apply_next(step: ApplyStep, event: ApplyEvent) -> (r: ApplyOutcome)
    ensures
        r == apply_outcome(step, event),
{
    let mut out = plain_outcome(ApplyStep::Failed);
    match (step, event) {
        (ApplyStep::OpenSource, ApplyEvent::Succeeded) => {
            out.next = ApplyStep::LockSource;
        },
        (ApplyStep::OpenSource, ApplyEvent::Locked) => {
            out.next = ApplyStep::Skipped;
        },
        (ApplyStep::LockSource, ApplyEvent::Succeeded) => {
            out.next = ApplyStep::Stage;
        },
        (ApplyStep::LockSource, _) => {
            out.next = ApplyStep::Skipped;
        },
        (ApplyStep::Stage, ApplyEvent::Succeeded) => {
            out.next = ApplyStep::CompareStaged;
        },
        (ApplyStep::Stage, _) => {
            out.remove_staged = true;
            out.remove_kept = true;
        },
        (ApplyStep::CompareStaged, ApplyEvent::Succeeded) => {
            out.next = ApplyStep::RecordEntry;
        },
        (ApplyStep::CompareStaged, _) => {
            out.next = ApplyStep::Skipped;
            out.remove_staged = true;
            out.remove_kept = true;
        },
        (ApplyStep::RecordEntry, ApplyEvent::Succeeded) => {
            out.next = ApplyStep::RecordKeptLines;
        },
        (ApplyStep::RecordEntry, _) => {
            out.drop_entry = true;
            out.remove_staged = true;
            out.remove_kept = true;
            out.rollback = true;
        },
        (ApplyStep::RecordKeptLines, ApplyEvent::Succeeded) => {
            out.next = ApplyStep::CheckPath;
        },
        (ApplyStep::RecordKeptLines, _) => {
            out.remove_staged = true;
            out.rollback = true;
        },
        (ApplyStep::CheckPath, ApplyEvent::Succeeded) => {
            out.next = ApplyStep::Replace;
        },
        (ApplyStep::Replace, ApplyEvent::Succeeded) => {
            out.next = ApplyStep::CheckDisplaced;
        },
        (ApplyStep::Replace, ApplyEvent::Locked) => {
            out.next = ApplyStep::Skipped;
            out.remove_staged = true;
            out.drop_entry = true;
            out.rewrite_records = true;
            out.remove_kept = true;
        },
        (ApplyStep::Replace, _) => {
            out.remove_staged = true;
            out.rollback = true;
        },
        (ApplyStep::CheckDisplaced, ApplyEvent::Succeeded) => {
            out.next = ApplyStep::CheckTarget;
        },
        (ApplyStep::CheckDisplaced, ApplyEvent::Mismatch) => {
            out.next = ApplyStep::RecordExternal;
        },
        (ApplyStep::RecordExternal, ApplyEvent::Succeeded) => {
            out.next = ApplyStep::RestoreExternal;
        },
        (ApplyStep::CheckTarget, ApplyEvent::Succeeded) => {
            out.next = ApplyStep::RemoveDisplaced;
        },
        (ApplyStep::CheckTarget, ApplyEvent::Mismatch) => {
            out.rollback = true;
        },
        (ApplyStep::RemoveDisplaced, ApplyEvent::Succeeded) => {
            out.next = ApplyStep::Applied;
        },
        (ApplyStep::Applied, _) => {
            out.next = ApplyStep::Applied;
        },
        (ApplyStep::Skipped, _) => {
            out.next = ApplyStep::Skipped;
        },
        _ => {},
    }
    out
}

/// Whether the entry stands in the transaction when a step begins.
pub open spec fn entry_stands(step: ApplyStep) -> bool {
    match step {
        ApplyStep::OpenSource => false,
        ApplyStep::LockSource => false,
        ApplyStep::Stage => false,
        ApplyStep::CompareStaged => false,
        ApplyStep::RecordEntry => false,
        ApplyStep::Skipped => false,
        ApplyStep::Failed => false,
        _ => true,
    }
}

/// Whether the staged file and the kept lines exist when a step begins.
pub open spec fn staged_exists(step: ApplyStep) -> bool {
    match step {
        ApplyStep::CompareStaged => true,
        ApplyStep::RecordEntry => true,
        ApplyStep::RecordKeptLines => true,
        ApplyStep::CheckPath => true,
        ApplyStep::Replace => true,
        _ => false,
    }
}

/// How far a step is from the end.
pub open spec fn steps_left(step: ApplyStep) -> nat {
    match step {
        ApplyStep::OpenSource => 12,
        ApplyStep::LockSource => 11,
        ApplyStep::Stage => 10,
        ApplyStep::CompareStaged => 9,
        ApplyStep::RecordEntry => 8,
        ApplyStep::RecordKeptLines => 7,
        ApplyStep::CheckPath => 6,
        ApplyStep::Replace => 5,
        ApplyStep::CheckDisplaced => 4,
        ApplyStep::RecordExternal => 2,
        ApplyStep::RestoreExternal => 1,
        ApplyStep::CheckTarget => 2,
        ApplyStep::RemoveDisplaced => 1,
        _ => 0,
    }
}

/// A file that is left alone leaves nothing behind: no entry in the transaction, no
/// staged file and no kept lines.
pub proof fn lemma_skipped_leaves_nothing(step: ApplyStep, event: ApplyEvent)
    requires
        apply_outcome(step, event).next == ApplyStep::Skipped,
    ensures
        entry_stands(step) ==> apply_outcome(step, event).drop_entry && apply_outcome(
            step,
            event,
        ).rewrite_records,
        staged_exists(step) ==> apply_outcome(step, event).remove_staged && apply_outcome(
            step,
            event,
        ).remove_kept,
{
}

/// A file counts as replaced only after what stands in its place was checked, and
/// what was set aside was checked and removed.
pub proof fn lemma_applied_was_checked(step: ApplyStep, event: ApplyEvent)
    ensures
        apply_outcome(step, event).next == ApplyStep::Applied ==> step == ApplyStep::Applied || (
        step == ApplyStep::RemoveDisplaced && event == ApplyEvent::Succeeded),
        apply_outcome(step, event).next == ApplyStep::RemoveDisplaced ==> step
            == ApplyStep::CheckTarget && event == ApplyEvent::Succeeded,
        apply_outcome(step, event).next == ApplyStep::CheckTarget ==> step
            == ApplyStep::CheckDisplaced && event == ApplyEvent::Succeeded,
        apply_outcome(step, event).next == ApplyStep::CheckDisplaced ==> step == ApplyStep::Replace
            && event == ApplyEvent::Succeeded,
{
}

/// Nothing is replaced before the transaction and the list of kept lines were
/// written.
pub proof fn lemma_recorded_before_replaced(step: ApplyStep, event: ApplyEvent)
    ensures
        apply_outcome(step, event).next == ApplyStep::Replace ==> step == ApplyStep::CheckPath,
        apply_outcome(step, event).next == ApplyStep::CheckPath ==> step
            == ApplyStep::RecordKeptLines && event == ApplyEvent::Succeeded,
        apply_outcome(step, event).next == ApplyStep::RecordKeptLines ==> step
            == ApplyStep::RecordEntry && event == ApplyEvent::Succeeded,
{
}

/// The replacement of a file comes to an end.
pub proof fn lemma_replacement_ends(step: ApplyStep, event: ApplyEvent)
    ensures
        steps_left(step) > 0 ==> steps_left(apply_outcome(step, event).next) < steps_left(step),
        steps_left(step) == 0 <==> step == ApplyStep::Applied || step == ApplyStep::Skipped || step
            == ApplyStep::Failed,
{
}

// ---------------------------------------------------------------------------
// All files of a transaction
// ---------------------------------------------------------------------------
/// What is done next to replace the files of a transaction.
#[derive(Clone, Copy, PartialEq, Eq, Structural, Debug)]
pub enum ReplacementStep {
    /// Forget what is recorded of rollout files that were read.
    ForgetScanState,
    /// Read the transaction.
    ReadTransaction,
    /// Replace a file.
    Replace { change: usize },
    /// Roll the transaction back.
    RollBack,
    /// Every file was replaced or left alone.
    Finished,
    /// The replacement was given up.
    Failed,
}

/// The replacement of the files of a transaction, one after the other.
pub struct ReplacementRun {
    pub step: ReplacementStep,
    pub total: usize,
    pub applied: AppliedSessionChanges,
}

/// The step for the file with this number, if there is one.
pub open spec fn replacement_at(change: nat, total: usize) -> ReplacementStep {
    if change < total {
        ReplacementStep::Replace { change: change as usize }
    } else {
        ReplacementStep::Finished
    }
}

/// The step after a step that was done or that failed.
pub open spec fn replacement_after(
    s: ReplacementStep,
    total: usize,
    done: bool,
) -> ReplacementStep {
    match s {
        ReplacementStep::ForgetScanState => if done {
            ReplacementStep::ReadTransaction
        } else {
            ReplacementStep::RollBack
        },
        ReplacementStep::ReadTransaction => if done {
            replacement_at(0, total)
        } else {
            ReplacementStep::RollBack
        },
        ReplacementStep::Replace { change } => if done {
            replacement_at((change + 1) as nat, total)
        } else {
            ReplacementStep::RollBack
        },
        ReplacementStep::RollBack => ReplacementStep::Failed,
        ReplacementStep::Finished => s,
        ReplacementStep::Failed => s,
    }
}

/// Steps that bring nothing to count.
pub open spec fn is_plain_replacement_step(s: ReplacementStep) -> bool {
    s == ReplacementStep::ForgetScanState || s == ReplacementStep::ReadTransaction || s
        == ReplacementStep::RollBack
}

impl ReplacementRun {
    /// How many files were replaced or left alone.
    pub open spec fn gone_through(self) -> nat {
        self.applied.changed_files as nat + self.applied.skipped_locked_rollout_files@.len()
    }

    /// Every file that was gone through was either replaced or left alone.
    pub open spec fn wf(self) -> bool {
        match self.step {
            ReplacementStep::ForgetScanState => self.gone_through() == 0,
            ReplacementStep::ReadTransaction => self.gone_through() == 0,
            ReplacementStep::Replace { change } => change < self.total && self.gone_through()
                == change,
            ReplacementStep::Finished => self.gone_through() == self.total,
            _ => self.gone_through() <= self.total,
        }
    }

    /// Notes that a step was done.
    pub fn note_done(&mut self)
        requires
            old(self).wf(),
            is_plain_replacement_step(old(self).step),
        ensures
            final(self).wf(),
            *final(self) == (ReplacementRun {
                step: replacement_after(old(self).step, old(self).total, true),
                ..*old(self)
            }),
    {
        self.step = match self.step {
            ReplacementStep::ForgetScanState => ReplacementStep::ReadTransaction,
            ReplacementStep::ReadTransaction => if self.total > 0 {
                ReplacementStep::Replace { change: 0 }
            } else {
                ReplacementStep::Finished
            },
            _ => ReplacementStep::Failed,
        };
    }

    /// Notes that a step failed, after which everything is rolled back.
    pub fn note_failure(&mut self)
        requires
            old(self).wf(),
        ensures
            final(self).wf(),
            *final(self) == (ReplacementRun {
                step: replacement_after(old(self).step, old(self).total, false),
                ..*old(self)
            }),
    {
        self.step = match self.step {
            ReplacementStep::ForgetScanState => ReplacementStep::RollBack,
            ReplacementStep::ReadTransaction => ReplacementStep::RollBack,
            ReplacementStep::Replace { .. } => ReplacementStep::RollBack,
            ReplacementStep::RollBack => ReplacementStep::Failed,
            ReplacementStep::Finished => ReplacementStep::Finished,
            ReplacementStep::Failed => ReplacementStep::Failed,
        };
    }

    fn go_on(&mut self, change: usize)
        requires
            change < old(self).total,
            old(self).gone_through() == change + 1,
        ensures
            final(self).wf(),
            *final(self) == (ReplacementRun {
                step: replacement_at((change + 1) as nat, old(self).total),
                ..*old(self)
            }),
    {
        if change + 1 < self.total {
            self.step = ReplacementStep::Replace { change: change + 1 };
        } else {
            self.step = ReplacementStep::Finished;
        }
    }

    /// Notes that the file was replaced.
    pub fn note_replaced(&mut self)
        requires
            old(self).wf(),
            old(self).step is Replace,
        ensures
            final(self).wf(),
            final(self).step == replacement_after(old(self).step, old(self).total, true),
            final(self).total == old(self).total,
            final(self).applied.changed_files == old(self).applied.changed_files + 1,
            final(self).applied.skipped_locked_rollout_files
                == old(self).applied.skipped_locked_rollout_files,
    {
        if let ReplacementStep::Replace { change } = self.step {
            self.applied.count_changed();
            self.go_on(change);
        }
    }

    /// Notes that the file with this path was left alone.
    pub fn note_skipped(&mut self, path: &str)
        requires
            old(self).wf(),
            old(self).step is Replace,
        ensures
            final(self).wf(),
            final(self).step == replacement_after(old(self).step, old(self).total, true),
            final(self).total == old(self).total,
            final(self).applied.changed_files == old(self).applied.changed_files,
            text::texts(final(self).applied.skipped_locked_rollout_files@) == text::texts(
                old(self).applied.skipped_locked_rollout_files@,
            ).push(path@),
    {
        if let ReplacementStep::Replace { change } = self.step {
            let ghost before = text::texts(self.applied.skipped_locked_rollout_files@);
            self.applied.list_skipped(path);
            assert(text::texts(self.applied.skipped_locked_rollout_files@).len() == before.len()
                + 1);
            self.go_on(change);
        }
    }
}

/// Begins the replacement of some files. What is recorded of rollout files that were
/// read is forgotten before the first of them is replaced.
pub fn apply_session_changes(changes: &Vec<SessionChange>) -> (r: ReplacementRun)
    ensures
        r.wf(),
        r.total == changes@.len(),
        r.step == if changes@.len() == 0 {
            ReplacementStep::ReadTransaction
        } else {
            ReplacementStep::ForgetScanState
        },
{
    ReplacementRun {
        step: if changes.len() == 0 {
            ReplacementStep::ReadTransaction
        } else {
            ReplacementStep::ForgetScanState
        },
        total: changes.len(),
        applied: AppliedSessionChanges::new(),
    }
}

/// Whether a step replaces the last of the files.
pub open spec fn is_last_replacement(s: ReplacementStep, total: usize) -> bool {
    match s {
        ReplacementStep::Replace { change } => change + 1 >= total,
        _ => false,
    }
}

/// Replacing files ends well only after the last of them, and a failure on the way is
/// always followed by a rollback of the whole transaction.
pub proof fn lemma_failed_replacement_is_rolled_back(s: ReplacementStep, total: usize, done: bool)
    ensures
        replacement_after(s, total, done) == ReplacementStep::Failed ==> s
            == ReplacementStep::RollBack || s == ReplacementStep::Failed,
        replacement_after(s, total, done) == ReplacementStep::RollBack ==> !done,
        !done && s != ReplacementStep::Finished && s != ReplacementStep::Failed && s
            != ReplacementStep::RollBack ==> replacement_after(s, total, done)
            == ReplacementStep::RollBack,
        replacement_after(s, total, done) == ReplacementStep::Finished ==> s
            == ReplacementStep::Finished || (done && s == ReplacementStep::ReadTransaction && total
            == 0) || (done && is_last_replacement(s, total)),
{
}

// ---------------------------------------------------------------------------
// The way of a replacement
// ---------------------------------------------------------------------------
/// A replacement in which nothing fails goes through every step once, in order: the file is
/// opened, locked, staged and compared, recorded with its kept lines, its path is checked,
/// and it is replaced; what was set aside and what was put in place are checked before the
/// former is removed. Nothing is taken back on this way.
pub proof fn lemma_way_of_a_replacement()
    ensures
        ({
            let next = |s: ApplyStep| apply_outcome(s, ApplyEvent::Succeeded);
            &&& next(ApplyStep::OpenSource).next == ApplyStep::LockSource
            &&& next(ApplyStep::LockSource).next == ApplyStep::Stage
            &&& next(ApplyStep::Stage).next == ApplyStep::CompareStaged
            &&& next(ApplyStep::CompareStaged).next == ApplyStep::RecordEntry
            &&& next(ApplyStep::RecordEntry).next == ApplyStep::RecordKeptLines
            &&& next(ApplyStep::RecordKeptLines).next == ApplyStep::CheckPath
            &&& next(ApplyStep::CheckPath).next == ApplyStep::Replace
            &&& next(ApplyStep::Replace).next == ApplyStep::CheckDisplaced
            &&& next(ApplyStep::CheckDisplaced).next == ApplyStep::CheckTarget
            &&& next(ApplyStep::CheckTarget).next == ApplyStep::RemoveDisplaced
            &&& next(ApplyStep::RemoveDisplaced).next == ApplyStep::Applied
            &&& next(ApplyStep::RecordExternal).next == ApplyStep::RestoreExternal
            &&& forall|s: ApplyStep|
                !(#[trigger] next(s)).remove_staged && !next(s).remove_kept && !next(s).drop_entry
                    && !next(s).rewrite_records && !next(s).rollback
        }),
{
}

/// A file that somebody else holds or changed is left alone before it is replaced; found
/// changed after it was set aside, it is recorded and put back. Every other failure gives
/// the replacement up, and a rollback follows at once where the failure is one of the
/// records, of the replacement or of what it put in place.
pub proof fn lemma_way_of_a_failed_replacement(step: ApplyStep, event: ApplyEvent)
    requires
        event != ApplyEvent::Succeeded,
        steps_left(step) > 0,
    ensures
        ({
            let o = apply_outcome(step, event);
            let left_alone = ({
                ||| step == ApplyStep::OpenSource && event == ApplyEvent::Locked
                ||| step == ApplyStep::LockSource
                ||| step == ApplyStep::CompareStaged
                ||| step == ApplyStep::Replace && event == ApplyEvent::Locked
            });
            let put_back = step == ApplyStep::CheckDisplaced && event == ApplyEvent::Mismatch;
            &&& o.next == ApplyStep::Skipped <==> left_alone
            &&& o.next == ApplyStep::RecordExternal <==> put_back
            &&& !left_alone && !put_back ==> o.next == ApplyStep::Failed
            &&& o.rollback <==> step == ApplyStep::RecordEntry || step
                == ApplyStep::RecordKeptLines || (step == ApplyStep::Replace && event
                != ApplyEvent::Locked) || (step == ApplyStep::CheckTarget && event
                == ApplyEvent::Mismatch)
            &&& o.drop_entry <==> step == ApplyStep::RecordEntry || (step == ApplyStep::Replace
                && event == ApplyEvent::Locked)
            &&& o.rewrite_records <==> step == ApplyStep::Replace && event == ApplyEvent::Locked
            &&& o.remove_staged <==> step == ApplyStep::Stage || step == ApplyStep::CompareStaged
                || step == ApplyStep::RecordEntry || step == ApplyStep::RecordKeptLines || step
                == ApplyStep::Replace
            &&& o.remove_kept <==> step == ApplyStep::Stage || step == ApplyStep::CompareStaged
                || step == ApplyStep::RecordEntry || (step == ApplyStep::Replace && event
                == ApplyEvent::Locked)
        }),
{
}

/// The files are replaced one after the other, each once, from the first to the last.
pub proof fn lemma_files_are_replaced_in_order(change: usize, total: usize)
    requires
        change < total,
    ensures
        replacement_after(ReplacementStep::ForgetScanState, total, true)
            == ReplacementStep::ReadTransaction,
        replacement_after(ReplacementStep::ReadTransaction, total, true)
            == (ReplacementStep::Replace { change: 0 }),
        change + 1 < total ==> replacement_after(ReplacementStep::Replace { change }, total, true)
            == (ReplacementStep::Replace { change: (change + 1) as usize }),
        change + 1 == total ==> replacement_after(ReplacementStep::Replace { change }, total, true)
            == ReplacementStep::Finished,
        replacement_after(ReplacementStep::ReadTransaction, 0, true) == ReplacementStep::Finished,
{
}

/// The list of kept lines tells of each entry its path, its digest and size, and the file
/// that its lines are kept in, which has the number of the entry.
pub proof fn lemma_what_the_list_of_kept_lines_tells(
    entries: Seq<SessionTransactionEntry>,
    i: int,
)
    requires
        0 <= i < entries.len(),
    ensures
        listed_entries(entries).len() == entries.len(),
        listed_entries(entries)[i] matches JsonView::Object(m) && {
            &&& m.dom() == set!["path"@, "originalSha256"@, "originalSize"@, "sessionMetaBackup"@]
            &&& m["path"@] == JsonView::Text(entries[i].relative_path@)
            &&& m["originalSha256"@] == JsonView::Text(entries[i].original_sha256@)
            &&& m["originalSize"@] == JsonView::Unsigned(entries[i].original_size)
            &&& m["sessionMetaBackup"@] == JsonView::Text(
                "session-meta/"@ + text::decimal(i as nat) + ".jsonl"@,
            )
        },
{
    reveal_strlit("path");
    reveal_strlit("originalSha256");
    reveal_strlit("originalSize");
    reveal_strlit("sessionMetaBackup");
    assert("path"@.len() == 4);
    assert("originalSha256"@.len() == 14);
    assert("originalSize"@.len() == 12);
    assert("sessionMetaBackup"@.len() == 17);
    let m = listed_entry(entries[i], i as nat)->Object_0;
    assert(m.dom() =~= set!["path"@, "originalSha256"@, "originalSize"@, "sessionMetaBackup"@]);
}

} // verus!
