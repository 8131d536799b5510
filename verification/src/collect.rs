//! What the scans of all rollout files come to: the files that are to be rewritten,
//! and what the databases are to learn from them.

use crate::apply::SessionChange;
use crate::digest;
use crate::json::JsonView;
use crate::rollout;
use crate::rollout::{FoundView, ModeView, RolloutRewrite, SessionRewriteMode};
use crate::scan_state;
use crate::scan_state::{FileObservation, ModifiedTime, ProviderSyncRolloutScanState, StateView};
use crate::text;
use vstd::prelude::*;

verus! {

// ---------------------------------------------------------------------------
// Collected changes
// ---------------------------------------------------------------------------
/// How many files with encrypted content name a provider.
#[derive(Debug)]
pub struct ProviderCount {
    pub provider: String,
    pub count: usize,
}

/// What the scans of rollout files come to.
pub struct SessionChanges {
    pub changes: Vec<SessionChange>,
    pub skipped_locked_rollout_files: Vec<String>,
    pub encrypted_content_counts: Vec<ProviderCount>,
    pub subagent_thread_ids: Vec<String>,
    pub scan_state_entries: Vec<ProviderSyncRolloutScanState>,
}

/// A rollout file that was found, as a value.
#[verifier::ext_equal]
pub struct ChangeView {
    pub path: Seq<char>,
    pub sha256: Seq<char>,
    pub size: u64,
    pub thread_id: Option<Seq<char>>,
    pub cwd: Option<Seq<char>>,
    pub has_user_event: bool,
    pub rewrite_needed: bool,
    pub mtime: Option<ModifiedTime>,
    pub mode: ModeView,
}

impl View for SessionChange {
    type V = ChangeView;

    open spec fn view(&self) -> ChangeView {
        ChangeView {
            path: self.path@,
            sha256: self.original_sha256@,
            size: self.original_size,
            thread_id: text::text_of(self.thread_id),
            cwd: text::text_of(self.cwd),
            has_user_event: self.has_user_event,
            rewrite_needed: self.rewrite_needed,
            mtime: self.original_mtime,
            mode: self.rewrite_mode@,
        }
    }
}

pub open spec fn changes_of(v: Seq<SessionChange>) -> Seq<ChangeView> {
    v.map_values(|c: SessionChange| c@)
}

pub open spec fn counts_of(v: Seq<ProviderCount>) -> Seq<(Seq<char>, usize)> {
    v.map_values(|c: ProviderCount| (c.provider@, c.count))
}

/// What the scans come to, as a value.
#[verifier::ext_equal]
pub struct CollectView {
    pub changes: Seq<ChangeView>,
    pub skipped: Seq<Seq<char>>,
    pub counts: Seq<(Seq<char>, usize)>,
    pub subagents: Seq<Seq<char>>,
    pub states: Seq<StateView>,
}

impl View for SessionChanges {
    type V = CollectView;

    open spec fn view(&self) -> CollectView {
        CollectView {
            changes: changes_of(self.changes@),
            skipped: text::texts(self.skipped_locked_rollout_files@),
            counts: counts_of(self.encrypted_content_counts@),
            subagents: text::texts(self.subagent_thread_ids@),
            states: scan_state::states_of(self.scan_state_entries@),
        }
    }
}

/// Nothing collected yet.
pub open spec fn nothing_collected() -> CollectView {
    CollectView {
        changes: Seq::empty(),
        skipped: Seq::empty(),
        counts: Seq::empty(),
        subagents: Seq::empty(),
        states: Seq::empty(),
    }
}

/// The counts with one more for a provider.
pub open spec fn counted(counts: Seq<(Seq<char>, usize)>, provider: Seq<char>) -> Seq<
    (Seq<char>, usize),
>
    decreases counts.len(),
{
    if counts.len() == 0 {
        seq![(provider, 1usize)]
    } else if counts[0].0 == provider {
        seq![(provider, rollout::one_more(counts[0].1))] + counts.skip(1)
    } else {
        seq![counts[0]] + counted(counts.skip(1), provider)
    }
}

/// The counts with one more for each of these providers.
pub open spec fn counted_all(
    counts: Seq<(Seq<char>, usize)>,
    providers: Seq<Seq<char>>,
) -> Seq<(Seq<char>, usize)>
    decreases providers.len(),
{
    if providers.len() == 0 {
        counts
    } else {
        counted(counted_all(counts, providers.drop_last()), providers.last())
    }
}

fn count_provider(counts: &mut Vec<ProviderCount>, provider: &str)
    ensures
        counts_of(final(counts)@) == counted(counts_of(old(counts)@), provider@),
{
    let ghost before = counts_of(counts@);
    let mut i: usize = 0;
    assert(before.take(0) + counted(before.skip(0), provider@) =~= counted(before, provider@)) by {
        assert(before.skip(0) =~= before);
    }
    while i < counts.len()
        invariant
            i <= counts.len(),
            before == counts_of(counts@),
            before == counts_of(old(counts)@),
            counted(before, provider@) == before.take(i as int) + counted(
                before.skip(i as int),
                provider@,
            ),
        decreases counts.len() - i,
    {
        let ghost rest = before.skip(i as int);
        assert(rest[0] == (counts@[i as int].provider@, counts@[i as int].count));
        if text::same_text(counts[i].provider.as_str(), provider) {
            let entry = ProviderCount {
                provider: text::copy_text(provider),
                count: counts[i].count.saturating_add(1),
            };
            counts.set(i, entry);
            proof {
                let next = seq![(provider@, rollout::one_more(rest[0].1))];
                assert(counts_of(counts@) =~= before.take(i as int) + (next + rest.skip(1)));
            }
            return;
        }
        proof {
            assert(rest.skip(1) =~= before.skip(i + 1));
            assert(before.take(i as int) + (seq![rest[0]] + counted(before.skip(i + 1), provider@))
                =~= before.take(i + 1) + counted(before.skip(i + 1), provider@));
        }
        i += 1;
    }
    proof {
        assert(before.take(i as int) =~= before);
        assert(before.skip(i as int) =~= Seq::<(Seq<char>, usize)>::empty());
    }
    counts.push(ProviderCount { provider: text::copy_text(provider), count: 1 });
    assert(counts_of(counts@) =~= before + seq![(provider@, 1usize)]);
}

fn count_providers(counts: &mut Vec<ProviderCount>, providers: &Vec<String>)
    ensures
        counts_of(final(counts)@) == counted_all(
            counts_of(old(counts)@),
            text::texts(providers@),
        ),
{
    let ghost start = counts_of(counts@);
    let ghost all = text::texts(providers@);
    let mut i: usize = 0;
    while i < providers.len()
        invariant
            i <= providers.len(),
            all == text::texts(providers@),
            counts_of(counts@) == counted_all(start, all.take(i as int)),
        decreases providers.len() - i,
    {
        assert(all.take(i + 1).drop_last() =~= all.take(i as int));
        assert(all.take(i + 1).last() == providers@[i as int]@);
        count_provider(counts, providers[i].as_str());
        i += 1;
    }
    assert(all.take(i as int) =~= all);
}

/// The change that a scan comes to.
pub open spec fn change_of(
    path: Seq<char>,
    found: FoundView,
    mtime: Option<ModifiedTime>,
    mode: ModeView,
) -> ChangeView {
    ChangeView {
        path,
        sha256: found.sha256,
        size: found.size,
        thread_id: found.thread_id,
        cwd: found.cwd,
        has_user_event: found.has_user_event,
        rewrite_needed: found.rewrite_needed,
        mtime,
        mode,
    }
}

/// What the scans come to after one more file. A file without `session_meta`
/// records and one of a thread that is not the user's are no changes.
pub open spec fn with_found(
    v: CollectView,
    path: Seq<char>,
    found: FoundView,
    mtime: Option<ModifiedTime>,
    state: Option<StateView>,
    excluded: Seq<Seq<char>>,
    explicit: Seq<Seq<char>>,
) -> CollectView {
    let noted = match state {
        Some(s) => CollectView { states: v.states.push(s), ..v },
        None => v,
    };
    if found.session_meta_count == 0 {
        noted
    } else if found.marks_non_root_agent {
        match found.thread_id {
            Some(id) => CollectView { subagents: text::with_text(noted.subagents, id), ..noted },
            None => noted,
        }
    } else if !scan_state::is_listed(found.thread_id, explicit) && scan_state::is_listed(
        found.thread_id,
        excluded,
    ) {
        noted
    } else {
        CollectView {
            counts: if found.has_encrypted_content {
                counted_all(noted.counts, found.providers)
            } else {
                noted.counts
            },
            changes: noted.changes.push(
                change_of(path, found, mtime, ModeView::AllProviders),
            ),
            ..noted
        }
    }
}

fn push_change(
    changes: &mut Vec<SessionChange>,
    path: &str,
    found: RolloutRewrite,
    mtime: Option<ModifiedTime>,
    rewrite_mode: SessionRewriteMode,
)
    ensures
        changes_of(final(changes)@) == changes_of(old(changes)@).push(
            change_of(path@, found@, mtime, rewrite_mode@),
        ),
{
    let ghost before = changes_of(changes@);
    let ghost expected = change_of(path@, found@, mtime, rewrite_mode@);
    let change = SessionChange {
        path: text::copy_text(path),
        original_sha256: found.original_sha256,
        original_size: found.original_size,
        thread_id: found.thread_id,
        cwd: found.cwd,
        has_user_event: found.has_user_event,
        rewrite_needed: found.rewrite_needed,
        original_mtime: mtime,
        rewrite_mode,
    };
    assert(change@ =~= expected);
    changes.push(change);
    assert(changes_of(changes@) =~= before.push(expected));
}

impl SessionChanges {
    pub fn new() -> (r: SessionChanges)
        ensures
            r@ == nothing_collected(),
    {
        let r = SessionChanges {
            changes: Vec::new(),
            skipped_locked_rollout_files: Vec::new(),
            encrypted_content_counts: Vec::new(),
            subagent_thread_ids: Vec::new(),
            scan_state_entries: Vec::new(),
        };
        assert(r@ =~= nothing_collected());
        r
    }

    /// Lists a file that somebody else holds.
    pub fn list_skipped(&mut self, path: &str)
        ensures
            final(self)@ == (CollectView {
                skipped: old(self)@.skipped.push(path@),
                ..old(self)@
            }),
    {
        let ghost before = self@;
        self.skipped_locked_rollout_files.push(text::copy_text(path));
        assert(self@.skipped =~= before.skipped.push(path@));
    }

    /// Takes in what was found in a file.
    pub fn take_in(
        &mut self,
        path: &str,
        found: RolloutRewrite,
        mtime: Option<ModifiedTime>,
        state: Option<ProviderSyncRolloutScanState>,
        excluded_thread_ids: &Vec<String>,
        explicit_user_thread_ids: &Vec<String>,
    )
        ensures
            final(self)@ == with_found(
                old(self)@,
                path@,
                found@,
                mtime,
                scan_state::state_of(state),
                text::texts(excluded_thread_ids@),
                text::texts(explicit_user_thread_ids@),
            ),
    {
        let ghost before = self@;
        let ghost noted = match scan_state::state_of(state) {
            Some(s) => CollectView { states: before.states.push(s), ..before },
            None => before,
        };
        if let Some(s) = state {
            let ghost v = s@;
            self.scan_state_entries.push(s);
            assert(self@.states =~= before.states.push(v));
        }
        assert(self@ =~= noted);
        if found.session_meta_count == 0 {
            return;
        }
        if found.marks_non_root_agent {
            if let Some(id) = found.thread_id {
                text::insert_text(&mut self.subagent_thread_ids, id);
            }
            return;
        }
        if !scan_state::thread_is_listed(&found.thread_id, explicit_user_thread_ids)
            && scan_state::thread_is_listed(&found.thread_id, excluded_thread_ids) {
            return;
        }
        if found.has_encrypted_content {
            count_providers(&mut self.encrypted_content_counts, &found.providers);
        }
        push_change(
            &mut self.changes,
            path,
            found,
            mtime,
            SessionRewriteMode::AllProviders,
        );
    }
}

// ---------------------------------------------------------------------------
// Files that need not be read
// ---------------------------------------------------------------------------
/// The first record of a file with this path.
pub open spec fn is_first_with_path(states: Seq<StateView>, path: Seq<char>, i: int) -> bool {
    &&& 0 <= i < states.len()
    &&& states[i].relative_path == path
    &&& forall|k: int| 0 <= k < i ==> (#[trigger] states[k]).relative_path != path
}

/// Takes what is recorded of a file out of a list.
pub fn take_scan_state(
    states: &mut Vec<ProviderSyncRolloutScanState>,
    relative_path: &str,
) -> (r: Option<ProviderSyncRolloutScanState>)
    ensures
        match r {
            Some(s) => exists|i: int| #[trigger]
                is_first_with_path(scan_state::states_of(old(states)@), relative_path@, i) && s
                    == old(states)@[i] && final(states)@ == old(states)@.remove(i),
            None => *final(states) == *old(states) && forall|k: int|
                0 <= k < old(states)@.len() ==> (#[trigger] old(states)@[k]).relative_path@
                    != relative_path@,
        },
{
    let ghost before = states@;
    let ghost views = scan_state::states_of(before);
    let mut i: usize = 0;
    while i < states.len()
        invariant
            i <= states.len(),
            states@ == before,
            *states == *old(states),
            before == old(states)@,
            views == scan_state::states_of(before),
            forall|k: int| 0 <= k < i ==> (#[trigger] before[k]).relative_path@ != relative_path@,
        decreases states.len() - i,
    {
        if text::same_text(states[i].relative_path.as_str(), relative_path) {
            assert(is_first_with_path(views, relative_path@, i as int)) by {
                assert forall|k: int| 0 <= k < i implies (#[trigger] views[k]).relative_path
                    != relative_path@ by {
                    assert(views[k] == before[k]@);
                }
            }
            return Some(states.remove(i));
        }
        i += 1;
    }
    None
}

/// Whether what is recorded of a file is used in place of a scan.
pub fn scan_state_is_usable(
    state: &ProviderSyncRolloutScanState,
    observed: &Option<FileObservation>,
    target_provider: &str,
    excluded_thread_ids: &Vec<String>,
    explicit_user_thread_ids: &Vec<String>,
) -> (r: bool)
    ensures
        r == (scan_state::is_scanned_file(*observed, state@) && scan_state::body_can_be_skipped(
            state@,
            target_provider@,
            text::texts(excluded_thread_ids@),
            text::texts(explicit_user_thread_ids@),
        )),
{
    scan_state::provider_sync_scan_state_matches(observed, state)
        && scan_state::provider_sync_cached_state_can_skip_body(
        state,
        target_provider,
        excluded_thread_ids,
        explicit_user_thread_ids,
    )
}

/// A rollout file: where it is, and the path under which it is recorded.
#[derive(Debug)]
pub struct RolloutFile {
    pub path: String,
    pub relative_path: String,
}

/// What came of the scan of a file.
pub enum ScanOutcome {
    Found {
        found: RolloutRewrite,
        mtime: Option<ModifiedTime>,
        state: Option<ProviderSyncRolloutScanState>,
    },
    /// Somebody else holds the file.
    Locked,
    /// The scan failed, for this reason.
    Failed(String),
}

/// What came of a scan, as a value.
pub enum OutcomeView {
    Found(FoundView, Option<ModifiedTime>, Option<StateView>),
    Locked,
    Failed(Seq<char>),
}

impl View for ScanOutcome {
    type V = OutcomeView;

    open spec fn view(&self) -> OutcomeView {
        match *self {
            ScanOutcome::Found { found, mtime, state } => OutcomeView::Found(
                found@,
                mtime,
                scan_state::state_of(state),
            ),
            ScanOutcome::Locked => OutcomeView::Locked,
            ScanOutcome::Failed(e) => OutcomeView::Failed(e@),
        }
    }
}

/// The first record of a file with this path.
pub open spec fn find_state(states: Seq<StateView>, path: Seq<char>) -> Option<StateView>
    decreases states.len(),
{
    if states.len() == 0 {
        None
    } else if states[0].relative_path == path {
        Some(states[0])
    } else {
        find_state(states.skip(1), path)
    }
}

/// A list without the first record of a file with this path.
pub open spec fn without_state(states: Seq<StateView>, path: Seq<char>) -> Seq<StateView>
    decreases states.len(),
{
    if states.len() == 0 {
        states
    } else if states[0].relative_path == path {
        states.skip(1)
    } else {
        seq![states[0]] + without_state(states.skip(1), path)
    }
}

/// What a scan would find, from what is recorded of an earlier one.
pub open spec fn found_before(s: StateView, target: Seq<char>) -> FoundView {
    FoundView {
        rewrite_needed: scan_state::providers_need_rewrite(
            s.providers,
            target,
            ModeView::AllProviders,
        ),
        thread_id: s.thread_id,
        cwd: s.cwd,
        providers: s.providers,
        session_meta_count: s.session_meta_count,
        has_user_event: s.has_user_event,
        has_encrypted_content: s.has_encrypted_content,
        marks_non_root_agent: s.marks_non_root_agent,
        sha256: s.sha256,
        size: s.size,
    }
}

/// What the scans are made for.
pub struct ScanGoal {
    pub target: Seq<char>,
    pub excluded: Seq<Seq<char>>,
    pub explicit: Seq<Seq<char>>,
}

/// What has been collected, and the records that have not been looked at.
#[verifier::ext_equal]
pub struct CollectState {
    pub collected: CollectView,
    pub states: Seq<StateView>,
}

/// The record that is used in place of a scan.
pub open spec fn usable_record(
    states: Seq<StateView>,
    path: Seq<char>,
    observed: Option<FileObservation>,
    goal: ScanGoal,
) -> Option<StateView> {
    match find_state(states, path) {
        Some(s) => if scan_state::is_scanned_file(observed, s) && scan_state::body_can_be_skipped(
            s,
            goal.target,
            goal.excluded,
            goal.explicit,
        ) {
            Some(s)
        } else {
            None
        },
        None => None,
    }
}

/// One more file, given what is seen of it and what comes of its scan.
pub open spec fn collect_one(
    c: CollectState,
    path: Seq<char>,
    relative_path: Seq<char>,
    observed: Option<FileObservation>,
    outcome: OutcomeView,
    goal: ScanGoal,
) -> Result<CollectState, Seq<char>> {
    let rest = without_state(c.states, relative_path);
    match usable_record(c.states, relative_path, observed, goal) {
        Some(s) => Ok(
            CollectState {
                collected: with_found(
                    c.collected,
                    path,
                    found_before(s, goal.target),
                    observed->0.modified,
                    Some(s),
                    goal.excluded,
                    goal.explicit,
                ),
                states: rest,
            },
        ),
        None => match outcome {
            OutcomeView::Found(found, mtime, state) => Ok(
                CollectState {
                    collected: with_found(
                        c.collected,
                        path,
                        found,
                        mtime,
                        state,
                        goal.excluded,
                        goal.explicit,
                    ),
                    states: rest,
                },
            ),
            OutcomeView::Locked => Ok(
                CollectState {
                    collected: CollectView {
                        skipped: c.collected.skipped.push(path),
                        ..c.collected
                    },
                    states: rest,
                },
            ),
            OutcomeView::Failed(e) => Err(e),
        },
    }
}

/// What the first `n` files come to.
pub open spec fn collect_files(
    files: Seq<RolloutFile>,
    n: nat,
    states: Seq<StateView>,
    observed: Seq<Option<FileObservation>>,
    outcomes: Seq<ScanOutcome>,
    goal: ScanGoal,
) -> Result<CollectState, Seq<char>>
    decreases n,
{
    if n == 0 {
        Ok(CollectState { collected: nothing_collected(), states })
    } else {
        let i = n - 1;
        match collect_files(files, i as nat, states, observed, outcomes, goal) {
            Err(e) => Err(e),
            Ok(c) => collect_one(
                c,
                files[i].path@,
                files[i].relative_path@,
                observed[i],
                outcomes[i]@,
                goal,
            ),
        }
    }
}

proof fn lemma_state_position(states: Seq<ProviderSyncRolloutScanState>, path: Seq<char>, i: int)
    requires
        is_first_with_path(scan_state::states_of(states), path, i),
    ensures
        find_state(scan_state::states_of(states), path) == Some(states[i]@),
        without_state(scan_state::states_of(states), path) == scan_state::states_of(
            states.remove(i),
        ),
{
    lemma_find_at(scan_state::states_of(states), path, i);
    assert(scan_state::states_of(states.remove(i)) =~= scan_state::states_of(states).remove(i));
}

proof fn lemma_find_at(v: Seq<StateView>, path: Seq<char>, i: int)
    requires
        is_first_with_path(v, path, i),
    ensures
        find_state(v, path) == Some(v[i]),
        without_state(v, path) == v.remove(i),
    decreases v.len(),
{
    if i == 0 {
        assert(v.skip(1) =~= v.remove(0));
    } else {
        assert(v[0].relative_path != path);
        let rest = v.skip(1);
        assert(is_first_with_path(rest, path, i - 1)) by {
            assert forall|k: int| 0 <= k < i - 1 implies (#[trigger] rest[k]).relative_path
                != path by {
                assert(rest[k] == v[k + 1]);
            }
        }
        lemma_find_at(rest, path, i - 1);
        assert(seq![v[0]] + rest.remove(i - 1) =~= v.remove(i));
    }
}

proof fn lemma_find_nowhere(v: Seq<StateView>, path: Seq<char>)
    requires
        forall|k: int| 0 <= k < v.len() ==> (#[trigger] v[k]).relative_path != path,
    ensures
        find_state(v, path) is None,
        without_state(v, path) == v,
    decreases v.len(),
{
    if v.len() > 0 {
        let rest = v.skip(1);
        assert(v[0].relative_path != path);
        assert forall|k: int| 0 <= k < rest.len() implies (#[trigger] rest[k]).relative_path
            != path by {
            assert(rest[k] == v[k + 1]);
        }
        lemma_find_nowhere(rest, path);
        assert(seq![v[0]] + rest =~= v);
    }
}

pub open spec fn collect_result(r: Result<SessionChanges, String>) -> Result<
    CollectView,
    Seq<char>,
> {
    match r {
        Ok(c) => Ok(c@),
        Err(e) => Err(e@),
    }
}

pub open spec fn collected_of(r: Result<CollectState, Seq<char>>) -> Result<
    CollectView,
    Seq<char>,
> {
    match r {
        Ok(c) => Ok(c.collected),
        Err(e) => Err(e),
    }
}

/// Whether the answers that were used are answers that were given: what is seen of a
/// file is asked for where it has a record, and a scan where no record is used.
pub open spec fn answers_given<O: Fn(usize) -> Option<FileObservation>, S: Fn(
    usize,
) -> ScanOutcome>(
    files: Seq<RolloutFile>,
    n: nat,
    states: Seq<StateView>,
    observed: Seq<Option<FileObservation>>,
    outcomes: Seq<ScanOutcome>,
    goal: ScanGoal,
    observe: O,
    scanner: S,
) -> bool {
    forall|i: int|
        0 <= i < n ==> match #[trigger] collect_files(
            files,
            i as nat,
            states,
            observed,
            outcomes,
            goal,
        ) {
            Ok(c) => {
                let path = files[i].relative_path@;
                &&& find_state(c.states, path) is Some ==> call_ensures(
                    observe,
                    (i as usize,),
                    observed[i],
                )
                &&& usable_record(c.states, path, observed[i], goal) is None ==> call_ensures(
                    scanner,
                    (i as usize,),
                    outcomes[i],
                )
            },
            Err(_) => true,
        }
}

/// Whether `result` is what the files come to with answers that were given.
pub open spec fn is_collection<O: Fn(usize) -> Option<FileObservation>, S: Fn(
    usize,
) -> ScanOutcome>(
    result: Result<CollectView, Seq<char>>,
    files: Seq<RolloutFile>,
    states: Seq<StateView>,
    goal: ScanGoal,
    observed: Seq<Option<FileObservation>>,
    outcomes: Seq<ScanOutcome>,
    observe: O,
    scanner: S,
) -> bool {
    &&& answers_given(
        files,
        files.len(),
        states,
        observed,
        outcomes,
        goal,
        observe,
        scanner,
    )
    &&& result == collected_of(
        collect_files(files, files.len(), states, observed, outcomes, goal),
    )
}

/// The records that are left after the first `n` files were looked at.
pub open spec fn records_left(
    files: Seq<RolloutFile>,
    n: nat,
    states: Seq<StateView>,
) -> Seq<StateView>
    decreases n,
{
    if n == 0 {
        states
    } else {
        without_state(
            records_left(files, (n - 1) as nat, states),
            files[n - 1].relative_path@,
        )
    }
}

/// Whether a file has a record, so that it is looked at.
pub open spec fn has_record(files: Seq<RolloutFile>, states: Seq<StateView>, i: int) -> bool {
    find_state(records_left(files, i as nat, states), files[i].relative_path@) is Some
}

/// Whether the record of a file cannot be used: there is none, or something may be seen
/// of the file that does not fit it.
pub open spec fn may_want_scan<O: Fn(usize) -> Option<FileObservation>>(
    files: Seq<RolloutFile>,
    states: Seq<StateView>,
    goal: ScanGoal,
    observe: O,
    i: int,
) -> bool {
    !has_record(files, states, i) || exists|seen: Option<FileObservation>| #[trigger]
        call_ensures(observe, (i as usize,), seen) && usable_record(
            records_left(files, i as nat, states),
            files[i].relative_path@,
            seen,
            goal,
        ) is None
}

proof fn lemma_records_left(
    files: Seq<RolloutFile>,
    n: nat,
    states: Seq<StateView>,
    observed: Seq<Option<FileObservation>>,
    outcomes: Seq<ScanOutcome>,
    goal: ScanGoal,
)
    ensures
        collect_files(files, n, states, observed, outcomes, goal) matches Ok(c) ==> c.states
            == records_left(files, n, states),
    decreases n,
{
    if n > 0 {
        lemma_records_left(files, (n - 1) as nat, states, observed, outcomes, goal);
    }
}

/// Collects what is found in rollout files. A file with a usable record is not
/// scanned, and one without a record is not looked at; `observe` tells what is seen of the file with a number, and `scanner`
/// what comes of its scan.
pub fn collect_session_changes_with_scanner<O: Fn(usize) -> Option<FileObservation>, S: Fn(
    usize,
) -> ScanOutcome>(
    files: &Vec<RolloutFile>,
    target_provider: &str,
    excluded_thread_ids: &Vec<String>,
    explicit_user_thread_ids: &Vec<String>,
    scan_state: Vec<ProviderSyncRolloutScanState>,
    observe: O,
    scanner: S,
) -> (r: Result<SessionChanges, String>)
    requires
        forall|i: usize|
            i < files@.len() && has_record(
                files@,
                scan_state::states_of(scan_state@),
                i as int,
            ) ==> #[trigger] call_requires(observe, (i,)),
        forall|i: usize|
            i < files@.len() && may_want_scan(
                files@,
                scan_state::states_of(scan_state@),
                ScanGoal {
                    target: target_provider@,
                    excluded: text::texts(excluded_thread_ids@),
                    explicit: text::texts(explicit_user_thread_ids@),
                },
                observe,
                i as int,
            ) ==> #[trigger] call_requires(scanner, (i,)),
    ensures
        exists|observed: Seq<Option<FileObservation>>, outcomes: Seq<ScanOutcome>|
            is_collection(
                collect_result(r),
                files@,
                scan_state::states_of(scan_state@),
                ScanGoal {
                    target: target_provider@,
                    excluded: text::texts(excluded_thread_ids@),
                    explicit: text::texts(explicit_user_thread_ids@),
                },
                observed,
                outcomes,
                observe,
                scanner,
            ),
{
    let ghost goal = ScanGoal {
        target: target_provider@,
        excluded: text::texts(excluded_thread_ids@),
        explicit: text::texts(explicit_user_thread_ids@),
    };
    let ghost start = scan_state::states_of(scan_state@);
    let ghost mut observed: Seq<Option<FileObservation>> = Seq::empty();
    let ghost mut outcomes: Seq<ScanOutcome> = Seq::empty();
    let mut states = scan_state;
    let mut collected = SessionChanges::new();
    let mut i: usize = 0;
    while i < files.len()
        invariant
            i <= files.len(),
            goal == (ScanGoal {
                target: target_provider@,
                excluded: text::texts(excluded_thread_ids@),
                explicit: text::texts(explicit_user_thread_ids@),
            }),
            forall|k: usize|
                k < files@.len() && has_record(files@, start, k as int)
                    ==> #[trigger] call_requires(observe, (k,)),
            forall|k: usize|
                k < files@.len() && may_want_scan(files@, start, goal, observe, k as int)
                    ==> #[trigger] call_requires(scanner, (k,)),
            start == scan_state::states_of(scan_state@),
            observed.len() == i,
            outcomes.len() == i,
            collect_files(files@, i as nat, start, observed, outcomes, goal) == Ok::<
                CollectState,
                Seq<char>,
            >(CollectState { collected: collected@, states: scan_state::states_of(states@) }),
            answers_given(
                files@,
                i as nat,
                start,
                observed,
                outcomes,
                goal,
                observe,
                scanner,
            ),
        decreases files.len() - i,
    {
        let ghost before = CollectState {
            collected: collected@,
            states: scan_state::states_of(states@),
        };
        let ghost old_states = states@;
        let ghost old_observed = observed;
        let ghost old_outcomes = outcomes;
        let path = files[i].path.as_str();
        let relative_path = files[i].relative_path.as_str();
        let taken = take_scan_state(&mut states, relative_path);
        proof {
            lemma_records_left(files@, i as nat, start, observed, outcomes, goal);
            match &taken {
                Some(s) => {
                    let k = choose|k: int| #[trigger]
                        is_first_with_path(before.states, relative_path@, k) && *s == old_states[k]
                            && states@ == old_states.remove(k);
                    lemma_state_position(old_states, relative_path@, k);
                },
                None => {
                    assert forall|k: int| 0 <= k < before.states.len() implies (
                    #[trigger] before.states[k]).relative_path != relative_path@ by {
                        assert(old_states[k].relative_path@ != relative_path@);
                    }
                    lemma_find_nowhere(before.states, relative_path@);
                },
            }
        }
        let seen = if taken.is_some() {
            observe(i)
        } else {
            None
        };
        proof {
            observed = observed.push(seen);
        }
        let usable = match &taken {
            Some(s) => scan_state_is_usable(
                s,
                &seen,
                target_provider,
                excluded_thread_ids,
                explicit_user_thread_ids,
            ),
            None => false,
        };
        assert(usable_record(before.states, relative_path@, seen, goal) is Some == usable);
        if usable {
            let state = taken.unwrap();
            let found = scan_state::rollout_rewrite_from_scan_state(
                &state,
                target_provider,
                &SessionRewriteMode::AllProviders,
            );
            let mtime = match &seen {
                Some(f) => f.modified,
                None => None,
            };
            assert(found@ =~= found_before(state@, goal.target));
            collected.take_in(
                path,
                found,
                mtime,
                Some(state),
                excluded_thread_ids,
                explicit_user_thread_ids,
            );
            proof {
                outcomes = outcomes.push(ScanOutcome::Locked);
                lemma_collect_extends(
                    files@,
                    i as nat,
                    start,
                    old_observed,
                    old_outcomes,
                    seen,
                    ScanOutcome::Locked,
                    goal,
                );
                lemma_answers_extend(
                    files@,
                    i as nat,
                    start,
                    old_observed,
                    old_outcomes,
                    seen,
                    ScanOutcome::Locked,
                    goal,
                    observe,
                    scanner,
                );
            }
        } else {
            proof {
                assert(before.states == records_left(files@, i as nat, start));
                if taken is Some {
                    assert(call_ensures(observe, ((i as int) as usize,), seen));
                }
                assert(may_want_scan(files@, start, goal, observe, i as int));
            }
            let outcome = scanner(i);
            proof {
                outcomes = outcomes.push(outcome);
                lemma_collect_extends(
                    files@,
                    i as nat,
                    start,
                    old_observed,
                    old_outcomes,
                    seen,
                    outcome,
                    goal,
                );
                lemma_answers_extend(
                    files@,
                    i as nat,
                    start,
                    old_observed,
                    old_outcomes,
                    seen,
                    outcome,
                    goal,
                    observe,
                    scanner,
                );
            }
            match outcome {
                ScanOutcome::Found { found, mtime, state } => {
                    collected.take_in(
                        path,
                        found,
                        mtime,
                        state,
                        excluded_thread_ids,
                        explicit_user_thread_ids,
                    );
                },
                ScanOutcome::Locked => {
                    collected.list_skipped(path);
                },
                ScanOutcome::Failed(e) => {
                    proof {
                        lemma_collect_fails(
                            files@,
                            (i + 1) as nat,
                            files@.len(),
                            start,
                            observed,
                            outcomes,
                            goal,
                            e@,
                        );
                        lemma_answers_stop(
                            files@,
                            (i + 1) as nat,
                            files@.len(),
                            start,
                            observed,
                            outcomes,
                            goal,
                            observe,
                            scanner,
                        );
                    }
                    let r: Result<SessionChanges, String> = Err(e);
                    assert(is_collection(
                        collect_result(r),
                        files@,
                        start,
                        goal,
                        observed,
                        outcomes,
                        observe,
                        scanner,
                    ));
                    return r;
                },
            }
        }
        i += 1;
    }
    let r: Result<SessionChanges, String> = Ok(collected);
    assert(is_collection(
        collect_result(r),
        files@,
        start,
        goal,
        observed,
        outcomes,
        observe,
        scanner,
    ));
    r
}

/// What the first files come to does not depend on answers about later ones.
proof fn lemma_collect_prefix(
    files: Seq<RolloutFile>,
    n: nat,
    states: Seq<StateView>,
    observed: Seq<Option<FileObservation>>,
    outcomes: Seq<ScanOutcome>,
    o: Option<FileObservation>,
    s: ScanOutcome,
    goal: ScanGoal,
)
    requires
        n <= observed.len(),
        n <= outcomes.len(),
    ensures
        collect_files(files, n, states, observed.push(o), outcomes.push(s), goal) == collect_files(
            files,
            n,
            states,
            observed,
            outcomes,
            goal,
        ),
    decreases n,
{
    if n > 0 {
        lemma_collect_prefix(files, (n - 1) as nat, states, observed, outcomes, o, s, goal);
        assert(observed.push(o)[n - 1] == observed[n - 1]);
        assert(outcomes.push(s)[n - 1] == outcomes[n - 1]);
    }
}

proof fn lemma_collect_extends(
    files: Seq<RolloutFile>,
    n: nat,
    states: Seq<StateView>,
    observed: Seq<Option<FileObservation>>,
    outcomes: Seq<ScanOutcome>,
    o: Option<FileObservation>,
    s: ScanOutcome,
    goal: ScanGoal,
)
    requires
        n == observed.len(),
        n == outcomes.len(),
        collect_files(files, n, states, observed, outcomes, goal) is Ok,
    ensures
        collect_files(files, n + 1, states, observed.push(o), outcomes.push(s), goal)
            == collect_one(
            collect_files(files, n, states, observed, outcomes, goal)->Ok_0,
            files[n as int].path@,
            files[n as int].relative_path@,
            o,
            s@,
            goal,
        ),
{
    lemma_collect_prefix(files, n, states, observed, outcomes, o, s, goal);
    assert(observed.push(o)[n as int] == o);
    assert(outcomes.push(s)[n as int] == s);
}

proof fn lemma_answers_extend<O: Fn(usize) -> Option<FileObservation>, S: Fn(
    usize,
) -> ScanOutcome>(
    files: Seq<RolloutFile>,
    n: nat,
    states: Seq<StateView>,
    observed: Seq<Option<FileObservation>>,
    outcomes: Seq<ScanOutcome>,
    o: Option<FileObservation>,
    s: ScanOutcome,
    goal: ScanGoal,
    observe: O,
    scanner: S,
)
    requires
        n == observed.len(),
        n == outcomes.len(),
        answers_given(files, n, states, observed, outcomes, goal, observe, scanner),
        collect_files(files, n, states, observed, outcomes, goal) matches Ok(c) ==> {
            let path = files[n as int].relative_path@;
            &&& find_state(c.states, path) is Some ==> call_ensures(observe, (n as usize,), o)
            &&& usable_record(c.states, path, o, goal) is None ==> call_ensures(
                scanner,
                (n as usize,),
                s,
            )
        },
    ensures
        answers_given(
            files,
            n + 1,
            states,
            observed.push(o),
            outcomes.push(s),
            goal,
            observe,
            scanner,
        ),
{
    assert forall|i: int| 0 <= i < n + 1 implies match #[trigger] collect_files(
        files,
        i as nat,
        states,
        observed.push(o),
        outcomes.push(s),
        goal,
    ) {
        Ok(c) => {
            let path = files[i].relative_path@;
            &&& find_state(c.states, path) is Some ==> call_ensures(
                observe,
                (i as usize,),
                observed.push(o)[i],
            )
            &&& usable_record(c.states, path, observed.push(o)[i], goal) is None ==> call_ensures(
                scanner,
                (i as usize,),
                outcomes.push(s)[i],
            )
        },
        Err(_) => true,
    } by {
        lemma_collect_prefix(files, i as nat, states, observed, outcomes, o, s, goal);
        let before = collect_files(files, i as nat, states, observed, outcomes, goal);
        if i < n {
            assert(observed.push(o)[i] == observed[i]);
            assert(outcomes.push(s)[i] == outcomes[i]);
        } else {
            assert(observed.push(o)[i] == o);
            assert(outcomes.push(s)[i] == s);
        }
    }
}

/// A failure ends the collecting.
proof fn lemma_collect_fails(
    files: Seq<RolloutFile>,
    n: nat,
    m: nat,
    states: Seq<StateView>,
    observed: Seq<Option<FileObservation>>,
    outcomes: Seq<ScanOutcome>,
    goal: ScanGoal,
    e: Seq<char>,
)
    requires
        n <= m,
        collect_files(files, n, states, observed, outcomes, goal) == Err::<CollectState, Seq<char>>(
            e,
        ),
    ensures
        collect_files(files, m, states, observed, outcomes, goal) == Err::<CollectState, Seq<char>>(
            e,
        ),
    decreases m,
{
    if n < m {
        lemma_collect_fails(files, n, (m - 1) as nat, states, observed, outcomes, goal, e);
    }
}

proof fn lemma_answers_stop<O: Fn(usize) -> Option<FileObservation>, S: Fn(usize) -> ScanOutcome>(
    files: Seq<RolloutFile>,
    n: nat,
    m: nat,
    states: Seq<StateView>,
    observed: Seq<Option<FileObservation>>,
    outcomes: Seq<ScanOutcome>,
    goal: ScanGoal,
    observe: O,
    scanner: S,
)
    requires
        n <= m,
        answers_given(files, n, states, observed, outcomes, goal, observe, scanner),
        collect_files(files, n, states, observed, outcomes, goal) is Err,
    ensures
        answers_given(files, m, states, observed, outcomes, goal, observe, scanner),
{
    let e = collect_files(files, n, states, observed, outcomes, goal)->Err_0;
    assert forall|i: int| 0 <= i < m implies match #[trigger] collect_files(
        files,
        i as nat,
        states,
        observed,
        outcomes,
        goal,
    ) {
        Ok(c) => {
            let path = files[i].relative_path@;
            &&& find_state(c.states, path) is Some ==> call_ensures(
                observe,
                (i as usize,),
                observed[i],
            )
            &&& usable_record(c.states, path, observed[i], goal) is None ==> call_ensures(
                scanner,
                (i as usize,),
                outcomes[i],
            )
        },
        Err(_) => true,
    } by {
        if i >= n {
            lemma_collect_fails(files, n, i as nat, states, observed, outcomes, goal, e);
        }
    }
}

/// A file whose scan is skipped comes to no change that is to be rewritten.
pub proof fn lemma_skipped_scan_rewrites_nothing(
    v: CollectView,
    path: Seq<char>,
    found: FoundView,
    mtime: Option<ModifiedTime>,
    state: StateView,
    target: Seq<char>,
    excluded: Seq<Seq<char>>,
    explicit: Seq<Seq<char>>,
)
    requires
        scan_state::body_can_be_skipped(state, target, excluded, explicit),
        found.session_meta_count == state.session_meta_count,
        found.marks_non_root_agent == state.marks_non_root_agent,
        found.thread_id == state.thread_id,
        found.rewrite_needed == scan_state::providers_need_rewrite(
            state.providers,
            target,
            ModeView::AllProviders,
        ),
    ensures
        ({
            let after = with_found(v, path, found, mtime, Some(state), excluded, explicit);
            after.changes == v.changes || (after.changes.len() == v.changes.len() + 1
                && !after.changes.last().rewrite_needed)
        }),
{
}

// ---------------------------------------------------------------------------
// One file of one thread
// ---------------------------------------------------------------------------
/// What the scan of the one file of a thread comes to.
pub open spec fn single_change(
    path: Seq<char>,
    found: FoundView,
    mtime: Option<ModifiedTime>,
    thread_id: Seq<char>,
    source_provider: Seq<char>,
) -> CollectView {
    if found.session_meta_count == 0 || found.thread_id != Some(thread_id) {
        nothing_collected()
    } else {
        CollectView {
            counts: if found.has_encrypted_content {
                counted_all(Seq::empty(), found.providers)
            } else {
                Seq::empty()
            },
            changes: seq![
                change_of(path, found, mtime, ModeView::SourceProvider(source_provider)),
            ],
            ..nothing_collected()
        }
    }
}

/// What a rollout file of one thread has to be changed in, given what was found in it.
pub fn collect_session_change_for_path(
    path: &str,
    found: RolloutRewrite,
    mtime: Option<ModifiedTime>,
    source_provider: &str,
    thread_id: &str,
) -> (r: SessionChanges)
    ensures
        r@ == single_change(
            path@,
            found@,
            mtime,
            thread_id@,
            source_provider@,
        ),
{
    let mut collected = SessionChanges::new();
    let same_thread = match &found.thread_id {
        Some(id) => text::same_text(id.as_str(), thread_id),
        None => false,
    };
    if found.session_meta_count == 0 || !same_thread {
        return collected;
    }
    if found.has_encrypted_content {
        count_providers(&mut collected.encrypted_content_counts, &found.providers);
    }
    let ghost view = found@;
    push_change(
        &mut collected.changes,
        path,
        found,
        mtime,
        SessionRewriteMode::SourceProvider { source_provider: text::copy_text(source_provider) },
    );
    assert(collected@ =~= single_change(
        path@,
        view,
        mtime,
        thread_id@,
        source_provider@,
    ));
    collected
}

/// Whether every record of a thread's file names a provider.
pub fn rollout_file_matches_provider(
    found: &RolloutRewrite,
    thread_id: &str,
    target_provider: &str,
) -> (r: bool)
    ensures
        r == (found@.thread_id == Some(thread_id@) && found@.providers.len() > 0 && forall|i: int|
            0 <= i < found@.providers.len() ==> #[trigger] found@.providers[i]
                == target_provider@),
{
    let same_thread = match &found.thread_id {
        Some(id) => text::same_text(id.as_str(), thread_id),
        None => false,
    };
    assert(found@.providers.len() == found.providers@.len());
    if !same_thread || found.providers.len() == 0 {
        return false;
    }
    let needed = scan_state::rewrite_needed_for_providers(
        &found.providers,
        target_provider,
        &SessionRewriteMode::AllProviders,
    );
    proof {
        if needed {
            let i = choose|i: int|
                0 <= i < found@.providers.len() && #[trigger] found@.providers[i]
                    != target_provider@;
            assert(found@.providers[i] != target_provider@);
        }
    }
    !needed
}

// ---------------------------------------------------------------------------
// What the databases learn
// ---------------------------------------------------------------------------
/// The changes that are to be rewritten.
pub open spec fn rewrites_among(v: Seq<ChangeView>) -> Seq<ChangeView>
    decreases v.len(),
{
    if v.len() == 0 {
        Seq::empty()
    } else if v.last().rewrite_needed {
        rewrites_among(v.drop_last()).push(v.last())
    } else {
        rewrites_among(v.drop_last())
    }
}

fn copy_mode(mode: &SessionRewriteMode) -> (r: SessionRewriteMode)
    ensures
        r@ == mode@,
{
    match mode {
        SessionRewriteMode::AllProviders => SessionRewriteMode::AllProviders,
        SessionRewriteMode::SourceProvider { source_provider } => {
            SessionRewriteMode::SourceProvider {
                source_provider: text::copy_text(source_provider.as_str()),
            }
        },
    }
}

fn copy_change(c: &SessionChange) -> (r: SessionChange)
    ensures
        r@ == c@,
{
    SessionChange {
        path: text::copy_text(c.path.as_str()),
        original_sha256: text::copy_text(c.original_sha256.as_str()),
        original_size: c.original_size,
        thread_id: text::copy_option(&c.thread_id),
        cwd: text::copy_option(&c.cwd),
        has_user_event: c.has_user_event,
        rewrite_needed: c.rewrite_needed,
        original_mtime: c.original_mtime,
        rewrite_mode: copy_mode(&c.rewrite_mode),
    }
}

/// The changes that are to be rewritten.
pub fn rewrite_changes(changes: &Vec<SessionChange>) -> (r: Vec<SessionChange>)
    ensures
        changes_of(r@) == rewrites_among(changes_of(changes@)),
{
    let ghost all = changes_of(changes@);
    let mut out: Vec<SessionChange> = Vec::new();
    let mut i: usize = 0;
    assert(changes_of(out@) =~= Seq::<ChangeView>::empty());
    while i < changes.len()
        invariant
            i <= changes.len(),
            all == changes_of(changes@),
            changes_of(out@) == rewrites_among(all.take(i as int)),
        decreases changes.len() - i,
    {
        assert(all.take(i + 1).drop_last() =~= all.take(i as int));
        assert(all.take(i + 1).last() == changes@[i as int]@);
        if changes[i].rewrite_needed {
            let ghost before = changes_of(out@);
            let change = copy_change(&changes[i]);
            let ghost v = change@;
            out.push(change);
            assert(changes_of(out@) =~= before.push(v));
        }
        i += 1;
    }
    assert(all.take(i as int) =~= all);
    out
}

/// The threads in whose files the user said something.
pub open spec fn user_threads(v: Seq<ChangeView>) -> Seq<Seq<char>>
    decreases v.len(),
{
    if v.len() == 0 {
        Seq::empty()
    } else {
        let before = user_threads(v.drop_last());
        match v.last().thread_id {
            Some(id) => if v.last().has_user_event {
                text::with_text(before, id)
            } else {
                before
            },
            None => before,
        }
    }
}

/// The threads in whose rollout files a user spoke, each once.
pub fn thread_ids_with_user_events(changes: &Vec<SessionChange>) -> (r: Vec<String>)
    ensures
        text::texts(r@) == user_threads(changes_of(changes@)),
{
    let ghost all = changes_of(changes@);
    let mut out: Vec<String> = Vec::new();
    let mut i: usize = 0;
    while i < changes.len()
        invariant
            i <= changes.len(),
            all == changes_of(changes@),
            text::texts(out@) == user_threads(all.take(i as int)),
        decreases changes.len() - i,
    {
        assert(all.take(i + 1).drop_last() =~= all.take(i as int));
        assert(all.take(i + 1).last() == changes@[i as int]@);
        if changes[i].has_user_event {
            if let Some(id) = &changes[i].thread_id {
                text::insert_text(&mut out, text::copy_text(id.as_str()));
            }
        }
        i += 1;
    }
    assert(all.take(i as int) =~= all);
    out
}

/// A thread and the directory that it works in.
#[derive(Debug)]
pub struct ThreadCwd {
    pub thread_id: String,
    pub cwd: String,
}

pub open spec fn cwds_of(v: Seq<ThreadCwd>) -> Map<Seq<char>, Seq<char>>
    decreases v.len(),
{
    if v.len() == 0 {
        Map::empty()
    } else {
        cwds_of(v.drop_last()).insert(v.last().thread_id@, v.last().cwd@)
    }
}

pub open spec fn cwd_threads(v: Seq<ThreadCwd>) -> Seq<Seq<char>> {
    v.map_values(|c: ThreadCwd| c.thread_id@)
}

/// The directories that threads work in, apart from threads without a project.
/// Where several files are of one thread, the last one counts.
pub open spec fn cwd_by_thread(
    v: Seq<ChangeView>,
    projectless: Seq<Seq<char>>,
) -> Map<Seq<char>, Seq<char>>
    decreases v.len(),
{
    if v.len() == 0 {
        Map::empty()
    } else {
        let before = cwd_by_thread(v.drop_last(), projectless);
        match (v.last().thread_id, v.last().cwd) {
            (Some(id), Some(cwd)) => if projectless.contains(id) {
                before
            } else {
                before.insert(id, cwd)
            },
            _ => before,
        }
    }
}

proof fn lemma_cwds_set(v: Seq<ThreadCwd>, w: Seq<ThreadCwd>, i: int)
    requires
        0 <= i < v.len(),
        w.len() == v.len(),
        w[i].thread_id@ == v[i].thread_id@,
        forall|k: int| 0 <= k < v.len() && k != i ==> w[k] == v[k],
        cwd_threads(v).no_duplicates(),
    ensures
        cwds_of(w) == cwds_of(v).insert(w[i].thread_id@, w[i].cwd@),
    decreases v.len(),
{
    let n = v.len() - 1;
    let v1 = v.drop_last();
    let w1 = w.drop_last();
    if i == n {
        assert(w1 =~= v1);
        assert(cwds_of(w) =~= cwds_of(v).insert(w[i].thread_id@, w[i].cwd@));
    } else {
        assert(cwd_threads(v1).no_duplicates()) by {
            assert forall|a: int, b: int| 0 <= a < b < cwd_threads(v1).len() implies cwd_threads(
                v1,
            )[a] != cwd_threads(v1)[b] by {
                assert(cwd_threads(v)[a] != cwd_threads(v)[b]);
            }
        }
        lemma_cwds_set(v1, w1, i);
        assert(cwd_threads(v)[i] != cwd_threads(v)[n]);
        assert(w[n] == v[n]);
        assert(cwds_of(w) =~= cwds_of(v).insert(w[i].thread_id@, w[i].cwd@));
    }
}

/// The working directory of each thread that has a project. The last rollout file of a
/// thread counts.
pub fn cwd_by_thread_id(changes: &Vec<SessionChange>, projectless_thread_ids: &Vec<String>) -> (r:
    Vec<ThreadCwd>)
    ensures
        cwds_of(r@) == cwd_by_thread(changes_of(changes@), text::texts(projectless_thread_ids@)),
        cwd_threads(r@).no_duplicates(),
{
    let ghost all = changes_of(changes@);
    let ghost skip = text::texts(projectless_thread_ids@);
    let mut out: Vec<ThreadCwd> = Vec::new();
    let mut i: usize = 0;
    while i < changes.len()
        invariant
            i <= changes.len(),
            all == changes_of(changes@),
            skip == text::texts(projectless_thread_ids@),
            cwds_of(out@) == cwd_by_thread(all.take(i as int), skip),
            cwd_threads(out@).no_duplicates(),
        decreases changes.len() - i,
    {
        assert(all.take(i + 1).drop_last() =~= all.take(i as int));
        assert(all.take(i + 1).last() == changes@[i as int]@);
        if let (Some(id), Some(cwd)) = (&changes[i].thread_id, &changes[i].cwd) {
            if !text::contains_text(projectless_thread_ids, id.as_str()) {
                let entry = ThreadCwd {
                    thread_id: text::copy_text(id.as_str()),
                    cwd: text::copy_text(cwd.as_str()),
                };
                set_cwd(&mut out, entry);
            }
        }
        i += 1;
    }
    assert(all.take(i as int) =~= all);
    out
}

fn set_cwd(v: &mut Vec<ThreadCwd>, entry: ThreadCwd)
    requires
        cwd_threads(old(v)@).no_duplicates(),
    ensures
        cwd_threads(final(v)@).no_duplicates(),
        cwds_of(final(v)@) == cwds_of(old(v)@).insert(entry.thread_id@, entry.cwd@),
{
    let ghost before = v@;
    let ghost id = entry.thread_id@;
    let mut i: usize = 0;
    while i < v.len()
        invariant
            i <= v.len(),
            v@ == before,
            cwd_threads(before).no_duplicates(),
            id == entry.thread_id@,
            before == old(v)@,
            forall|k: int| 0 <= k < i ==> (#[trigger] before[k]).thread_id@ != id,
        decreases v.len() - i,
    {
        if text::same_text(v[i].thread_id.as_str(), entry.thread_id.as_str()) {
            v.set(i, entry);
            proof {
                assert(cwd_threads(v@) =~= cwd_threads(before));
                lemma_cwds_set(before, v@, i as int);
            }
            return;
        }
        i += 1;
    }
    v.push(entry);
    proof {
        assert(v@.drop_last() =~= before);
        assert(cwd_threads(v@) =~= cwd_threads(before).push(id));
        assert forall|a: int, b: int| 0 <= a < b < cwd_threads(v@).len() implies cwd_threads(
            v@,
        )[a] != cwd_threads(v@)[b] by {
            if b == before.len() {
                assert(before[a].thread_id@ != id);
            } else {
                assert(cwd_threads(before)[a] != cwd_threads(before)[b]);
            }
        }
    }
}

// ---------------------------------------------------------------------------
// A second collection
// ---------------------------------------------------------------------------
/// Whether two findings agree on what decides whether a file is rewritten.
pub open spec fn same_decision(a: FoundView, b: FoundView) -> bool {
    &&& a.rewrite_needed == b.rewrite_needed
    &&& a.thread_id == b.thread_id
    &&& a.session_meta_count == b.session_meta_count
    &&& a.marks_non_root_agent == b.marks_non_root_agent
}

/// What a scan of this content finds.
pub open spec fn found_in(content: Seq<u8>, target: Seq<char>) -> Option<FoundView> {
    match rollout::scan_lines(text::lines_of(content, 10u8), target, ModeView::AllProviders) {
        Some(v) => Some(
            FoundView {
                rewrite_needed: v.rewrite_needed,
                thread_id: v.thread_id,
                cwd: v.cwd,
                providers: v.providers,
                session_meta_count: v.session_meta_count,
                has_user_event: v.has_user_event,
                has_encrypted_content: v.has_encrypted_content,
                marks_non_root_agent: v.marks_non_root_agent,
                sha256: digest::sha256_hex(v.content),
                size: digest::capped_size(v.content),
            },
        ),
        None => None,
    }
}

/// Whether a file with these findings is rewritten.
pub open spec fn decides_rewrite(found: FoundView, goal: ScanGoal) -> bool {
    &&& found.rewrite_needed
    &&& found.session_meta_count > 0
    &&& !found.marks_non_root_agent
    &&& scan_state::is_listed(found.thread_id, goal.explicit) || !scan_state::is_listed(
        found.thread_id,
        goal.excluded,
    )
}

/// Whether a file with this content is rewritten.
pub open spec fn is_rewritten(content: Seq<u8>, goal: ScanGoal) -> bool {
    found_in(content, goal.target) matches Some(found) && decides_rewrite(found, goal)
}

/// Whether the first `n` files are taken for what they hold, by a scan or by a record
/// that is true of them. None of them is held by somebody else.
pub open spec fn files_read(
    files: Seq<RolloutFile>,
    contents: Seq<Seq<u8>>,
    n: nat,
    states: Seq<StateView>,
    observed: Seq<Option<FileObservation>>,
    outcomes: Seq<ScanOutcome>,
    goal: ScanGoal,
) -> bool {
    forall|i: int|
        0 <= i < n ==> match #[trigger] collect_files(
            files,
            i as nat,
            states,
            observed,
            outcomes,
            goal,
        ) {
            Ok(c) => {
                &&& found_in(contents[i], goal.target) is Some
                &&& match usable_record(c.states, files[i].relative_path@, observed[i], goal) {
                    Some(s) => same_decision(
                        found_before(s, goal.target),
                        found_in(contents[i], goal.target)->0,
                    ),
                    None => outcomes[i]@ matches OutcomeView::Found(found, _, _) && same_decision(
                        found,
                        found_in(contents[i], goal.target)->0,
                    ),
                }
            },
            Err(_) => true,
        }
}

pub open spec fn change_paths(v: Seq<ChangeView>) -> Seq<Seq<char>> {
    v.map_values(|c: ChangeView| c.path)
}

/// The paths of those of the first `n` files that are rewritten.
pub open spec fn rewritten_paths(
    files: Seq<RolloutFile>,
    contents: Seq<Seq<u8>>,
    n: nat,
    goal: ScanGoal,
) -> Seq<Seq<char>>
    decreases n,
{
    if n == 0 {
        Seq::empty()
    } else {
        let before = rewritten_paths(files, contents, (n - 1) as nat, goal);
        if is_rewritten(contents[n - 1], goal) {
            before.push(files[n - 1].path@)
        } else {
            before
        }
    }
}

/// What is rewritten depends on what the files hold: the changes that are to be
/// rewritten are those of the files whose records name another provider.
pub proof fn lemma_rewrites_follow_contents(
    files: Seq<RolloutFile>,
    contents: Seq<Seq<u8>>,
    n: nat,
    states: Seq<StateView>,
    observed: Seq<Option<FileObservation>>,
    outcomes: Seq<ScanOutcome>,
    goal: ScanGoal,
)
    requires
        files_read(files, contents, n, states, observed, outcomes, goal),
    ensures
        collect_files(files, n, states, observed, outcomes, goal) matches Ok(c) && change_paths(
            rewrites_among(c.collected.changes),
        ) == rewritten_paths(files, contents, n, goal),
    decreases n,
{
    if n == 0 {
        assert(change_paths(rewrites_among(nothing_collected().changes)) =~= Seq::<
            Seq<char>,
        >::empty());
    } else {
        let i = n - 1;
        lemma_rewrites_follow_contents(
            files,
            contents,
            i as nat,
            states,
            observed,
            outcomes,
            goal,
        );
        let before = collect_files(files, i as nat, states, observed, outcomes, goal)->Ok_0;
        let after = collect_files(files, n, states, observed, outcomes, goal)->Ok_0;
        let changes = before.collected.changes;
        assert forall|c: ChangeView|
            c.path == files[i].path@ && after.collected.changes == #[trigger] changes.push(
                c,
            ) implies change_paths(rewrites_among(after.collected.changes))
            == if c.rewrite_needed {
            change_paths(rewrites_among(changes)).push(c.path)
        } else {
            change_paths(rewrites_among(changes))
        } by {
            assert(changes.push(c).drop_last() =~= changes);
            if c.rewrite_needed {
                assert(change_paths(rewrites_among(changes).push(c)) =~= change_paths(
                    rewrites_among(changes),
                ).push(c.path));
            }
        }
    }
}

/// What staging says of a file that is rewritten: the lines that are written for its
/// records are lines, and those that can be read say the same of the session.
pub open spec fn can_be_rewritten(content: Seq<u8>, goal: ScanGoal) -> bool {
    is_rewritten(content, goal) ==> rollout::all_restorable(
        text::lines_of(content, 10u8),
        goal.target,
        ModeView::AllProviders,
    )
}

/// What a file holds after a complete synchronisation.
pub open spec fn synchronised(content: Seq<u8>, goal: ScanGoal) -> Seq<u8> {
    if is_rewritten(content, goal) {
        text::joined(
            rollout::staged_lines(
                text::lines_of(content, 10u8),
                goal.target,
                ModeView::AllProviders,
            ),
        )
    } else {
        content
    }
}

/// What these files hold after a complete synchronisation.
pub open spec fn all_synchronised(contents: Seq<Seq<u8>>, goal: ScanGoal) -> Seq<Seq<u8>> {
    contents.map_values(|c: Seq<u8>| synchronised(c, goal))
}

/// Nothing is left to rewrite after a complete synchronisation.
pub proof fn lemma_synchronised_files_stay(
    files: Seq<RolloutFile>,
    contents: Seq<Seq<u8>>,
    n: nat,
    goal: ScanGoal,
)
    requires
        n <= contents.len(),
        forall|i: int| 0 <= i < n ==> can_be_rewritten(#[trigger] contents[i], goal),
    ensures
        rewritten_paths(files, all_synchronised(contents, goal), n, goal).len() == 0,
    decreases n,
{
    if n > 0 {
        lemma_synchronised_files_stay(files, contents, (n - 1) as nat, goal);
        let content = contents[n - 1];
        assert(can_be_rewritten(content, goal));
        if is_rewritten(content, goal) {
            rollout::lemma_scanned_lines_are_utf8(
                text::lines_of(content, 10u8),
                goal.target,
                ModeView::AllProviders,
            );
            rollout::lemma_staged_file_is_settled(content, goal.target, ModeView::AllProviders);
        }
    }
}

// ---------------------------------------------------------------------------
// What is collected
// ---------------------------------------------------------------------------
/// Counting a provider once more raises its own count by one, as far as a `usize` counts,
/// and no other; a provider that was not counted yet is listed behind the others.
pub proof fn lemma_one_provider_is_counted(
    counts: Seq<(Seq<char>, usize)>,
    provider: Seq<char>,
    i: int,
)
    requires
        0 <= i <= counts.len(),
        forall|k: int| 0 <= k < i ==> (#[trigger] counts[k]).0 != provider,
        i < counts.len() ==> counts[i].0 == provider,
    ensures
        i == counts.len() ==> counted(counts, provider) == counts.push((provider, 1usize)),
        i < counts.len() && counts[i].1 < usize::MAX ==> counted(counts, provider)
            == counts.update(i, (provider, (counts[i].1 + 1) as usize)),
        i < counts.len() && counts[i].1 == usize::MAX ==> counted(counts, provider) == counts,
    decreases counts.len(),
{
    if counts.len() == 0 {
        assert(counted(counts, provider) =~= counts.push((provider, 1usize)));
    } else if counts[0].0 == provider {
        assert(i == 0);
        if counts[0].1 < usize::MAX {
            assert(counted(counts, provider) =~= counts.update(
                0,
                (provider, (counts[0].1 + 1) as usize),
            ));
        } else {
            assert(counted(counts, provider) =~= counts);
        }
    } else {
        let rest = counts.skip(1);
        assert forall|k: int| 0 <= k < i - 1 implies (#[trigger] rest[k]).0 != provider by {
            assert(rest[k] == counts[k + 1]);
        }
        lemma_one_provider_is_counted(rest, provider, i - 1);
        let next = counted(rest, provider);
        if i == counts.len() {
            assert(seq![counts[0]] + next =~= counts.push((provider, 1usize)));
        } else if counts[i].1 < usize::MAX {
            assert(seq![counts[0]] + next =~= counts.update(
                i,
                (provider, (counts[i].1 + 1) as usize),
            ));
        } else {
            assert(seq![counts[0]] + next =~= counts);
        }
    }
}

/// Of several providers each is counted, one after the other.
pub proof fn lemma_all_providers_are_counted(
    counts: Seq<(Seq<char>, usize)>,
    providers: Seq<Seq<char>>,
    provider: Seq<char>,
)
    ensures
        counted_all(counts, Seq::empty()) == counts,
        counted_all(counts, providers.push(provider)) == counted(
            counted_all(counts, providers),
            provider,
        ),
{
    assert(providers.push(provider).drop_last() =~= providers);
}

/// Whether a thread is left out of a synchronisation: it is excluded and not the user's for
/// certain.
pub open spec fn is_left_out(
    thread_id: Option<Seq<char>>,
    excluded: Seq<Seq<char>>,
    explicit: Seq<Seq<char>>,
) -> bool {
    thread_id matches Some(id) && excluded.contains(id) && !explicit.contains(id)
}

/// A file with sessions of a root thread that is not left out becomes a change, which says
/// of the file what was found in it; no other file does. A file of a thread that is no root
/// thread tells of that thread. Encrypted content is counted for the providers of a file
/// that becomes a change. A record is kept in any case.
pub proof fn lemma_what_becomes_a_change(
    v: CollectView,
    path: Seq<char>,
    found: FoundView,
    mtime: Option<ModifiedTime>,
    state: Option<StateView>,
    excluded: Seq<Seq<char>>,
    explicit: Seq<Seq<char>>,
)
    ensures
        ({
            let after = with_found(v, path, found, mtime, state, excluded, explicit);
            let becomes = found.session_meta_count > 0 && !found.marks_non_root_agent
                && !is_left_out(found.thread_id, excluded, explicit);
            &&& after.skipped == v.skipped
            &&& state matches Some(s) ==> after.states == v.states.push(s)
            &&& state is None ==> after.states == v.states
            &&& !becomes ==> after.changes == v.changes && after.counts == v.counts
            &&& becomes ==> {
                &&& after.changes.len() == v.changes.len() + 1
                &&& after.changes.drop_last() == v.changes
                &&& after.changes.last().path == path
                &&& after.changes.last().sha256 == found.sha256
                &&& after.changes.last().size == found.size
                &&& after.changes.last().thread_id == found.thread_id
                &&& after.changes.last().cwd == found.cwd
                &&& after.changes.last().has_user_event == found.has_user_event
                &&& after.changes.last().rewrite_needed == found.rewrite_needed
                &&& after.changes.last().mtime == mtime
                &&& after.changes.last().mode is AllProviders
                &&& found.has_encrypted_content ==> after.counts == counted_all(
                    v.counts,
                    found.providers,
                )
                &&& !found.has_encrypted_content ==> after.counts == v.counts
                &&& after.subagents == v.subagents
            }
            &&& forall|id: Seq<char>| #[trigger]
                after.subagents.contains(id) <==> v.subagents.contains(id) || (
                found.session_meta_count > 0 && found.marks_non_root_agent && found.thread_id
                    == Some(id))
        }),
{
    let after = with_found(v, path, found, mtime, state, excluded, explicit);
    assert(v.changes.push(change_of(path, found, mtime, ModeView::AllProviders)).drop_last()
        =~= v.changes);
    assert forall|id: Seq<char>| #[trigger]
        after.subagents.contains(id) <==> v.subagents.contains(id) || (found.session_meta_count > 0
            && found.marks_non_root_agent && found.thread_id == Some(id)) by {
        if let Some(x) = found.thread_id {
            text::lemma_push_contains(v.subagents, x, id);
        }
    }
}

/// What a record tells is taken as it stands; it asks for a rewrite unless the target is the
/// only provider on record.
pub proof fn lemma_record_is_taken_as_it_stands(s: StateView, target: Seq<char>)
    ensures
        ({
            let found = found_before(s, target);
            &&& !found.rewrite_needed <==> forall|p: Seq<char>| #[trigger]
                s.providers.contains(p) ==> p == target
            &&& found.thread_id == s.thread_id
            &&& found.cwd == s.cwd
            &&& found.providers == s.providers
            &&& found.session_meta_count == s.session_meta_count
            &&& found.has_user_event == s.has_user_event
            &&& found.has_encrypted_content == s.has_encrypted_content
            &&& found.marks_non_root_agent == s.marks_non_root_agent
            &&& found.sha256 == s.sha256
            &&& found.size == s.size
        }),
{
    scan_state::lemma_recorded_providers_tell(s.providers, target, target);
}

/// Where a record can be used, the file is not scanned: whatever a scan would say makes no
/// difference. Where none can, the scan alone counts: a file that somebody holds is listed
/// and left, and a scan that fails ends the collection. The record of a file is used up
/// either way.
pub proof fn lemma_record_or_scan(
    c: CollectState,
    path: Seq<char>,
    relative_path: Seq<char>,
    observed: Option<FileObservation>,
    outcome: OutcomeView,
    other: OutcomeView,
    goal: ScanGoal,
)
    ensures
        ({
            let r = collect_one(c, path, relative_path, observed, outcome, goal);
            let usable = find_state(c.states, relative_path) matches Some(s)
                && scan_state::is_scanned_file(observed, s) && scan_state::body_can_be_skipped(
                s,
                goal.target,
                goal.excluded,
                goal.explicit,
            );
            &&& usable ==> r is Ok && r == collect_one(
                c,
                path,
                relative_path,
                observed,
                other,
                goal,
            )
            &&& usable ==> r->Ok_0.collected == with_found(
                c.collected,
                path,
                found_before(find_state(c.states, relative_path)->0, goal.target),
                observed->0.modified,
                find_state(c.states, relative_path),
                goal.excluded,
                goal.explicit,
            )
            &&& !usable ==> match outcome {
                OutcomeView::Found(found, mtime, state) => r is Ok && r->Ok_0.collected
                    == with_found(
                    c.collected,
                    path,
                    found,
                    mtime,
                    state,
                    goal.excluded,
                    goal.explicit,
                ),
                OutcomeView::Locked => r is Ok && r->Ok_0.collected.skipped
                    == c.collected.skipped.push(path) && r->Ok_0.collected.changes
                    == c.collected.changes && r->Ok_0.collected.counts == c.collected.counts
                    && r->Ok_0.collected.subagents == c.collected.subagents
                    && r->Ok_0.collected.states == c.collected.states,
                OutcomeView::Failed(e) => r == Err::<CollectState, Seq<char>>(e),
            }
            &&& r is Ok ==> r->Ok_0.states == without_state(c.states, relative_path)
        }),
{
}

/// The record of a path is the first one that has the path, and that one alone is used up.
pub proof fn lemma_first_record_is_used(states: Seq<StateView>, path: Seq<char>, i: int)
    requires
        0 <= i <= states.len(),
        forall|k: int| 0 <= k < i ==> (#[trigger] states[k]).relative_path != path,
        i < states.len() ==> states[i].relative_path == path,
    ensures
        i == states.len() ==> find_state(states, path) is None && without_state(states, path)
            == states,
        i < states.len() ==> find_state(states, path) == Some(states[i]) && without_state(
            states,
            path,
        ) == states.remove(i),
{
    if i < states.len() {
        lemma_find_at(states, path, i);
    } else {
        lemma_find_nowhere(states, path);
    }
}

/// The changes that rewrite a file are those that are needed, in their order.
pub proof fn lemma_needed_rewrites(v: Seq<ChangeView>, c: ChangeView)
    ensures
        rewrites_among(v).contains(c) <==> v.contains(c) && c.rewrite_needed,
        rewrites_among(Seq::empty()) == Seq::<ChangeView>::empty(),
        c.rewrite_needed ==> rewrites_among(v.push(c)) == rewrites_among(v).push(c),
        !c.rewrite_needed ==> rewrites_among(v.push(c)) == rewrites_among(v),
    decreases v.len(),
{
    assert(v.push(c).drop_last() =~= v);
    if v.len() > 0 {
        let init = v.drop_last();
        lemma_needed_rewrites(init, c);
        assert(v =~= init.push(v.last()));
        text::lemma_push_contains(init, v.last(), c);
        text::lemma_push_contains(rewrites_among(init), v.last(), c);
    }
}

/// The threads in which the user wrote are those of which a change says so, each once.
pub proof fn lemma_threads_with_user_events(v: Seq<ChangeView>, id: Seq<char>)
    ensures
        user_threads(v).contains(id) <==> exists|i: int|
            0 <= i < v.len() && (#[trigger] v[i]).thread_id == Some(id) && v[i].has_user_event,
        user_threads(v).no_duplicates(),
    decreases v.len(),
{
    if v.len() > 0 {
        let init = v.drop_last();
        let n = v.len() - 1;
        lemma_threads_with_user_events(init, id);
        if let Some(x) = v[n].thread_id {
            text::lemma_push_contains(user_threads(init), x, id);
        }
        if user_threads(init).contains(id) {
            let i = choose|i: int|
                0 <= i < init.len() && (#[trigger] init[i]).thread_id == Some(id)
                    && init[i].has_user_event;
            assert(v[i] == init[i]);
        }
        if exists|i: int|
            0 <= i < v.len() && (#[trigger] v[i]).thread_id == Some(id) && v[i].has_user_event {
            let i = choose|i: int|
                0 <= i < v.len() && (#[trigger] v[i]).thread_id == Some(id)
                    && v[i].has_user_event;
            if i < n {
                assert(init[i] == v[i]);
            }
        }
        assert(v[n] == v.last());
    }
}

/// The working directory of a thread is the one of the last change that has one for it. A
/// thread that belongs to no project gets none.
pub proof fn lemma_directory_of_a_thread(
    v: Seq<ChangeView>,
    projectless: Seq<Seq<char>>,
    id: Seq<char>,
    i: int,
)
    requires
        0 <= i < v.len(),
        v[i].thread_id == Some(id),
        v[i].cwd is Some,
        forall|k: int| i < k < v.len() ==> (#[trigger] v[k]).thread_id != Some(id) || v[k].cwd is None,
    ensures
        projectless.contains(id) ==> !cwd_by_thread(v, projectless).contains_key(id),
        !projectless.contains(id) ==> cwd_by_thread(v, projectless).contains_key(id)
            && cwd_by_thread(v, projectless)[id] == v[i].cwd->0,
    decreases v.len(),
{
    let init = v.drop_last();
    if projectless.contains(id) {
        lemma_no_directory(v, projectless, id);
    } else if i < init.len() {
        assert(init[i] == v[i]);
        assert forall|k: int| i < k < init.len() implies (#[trigger] init[k]).thread_id != Some(id)
            || init[k].cwd is None by {
            assert(v[k] == init[k]);
        }
        lemma_directory_of_a_thread(init, projectless, id, i);
        assert(v[v.len() - 1].thread_id != Some(id) || v[v.len() - 1].cwd is None);
    }
}

/// A thread gets a working directory only where a change has one for it and it belongs to
/// a project.
pub proof fn lemma_no_directory(v: Seq<ChangeView>, projectless: Seq<Seq<char>>, id: Seq<char>)
    requires
        projectless.contains(id) || forall|k: int|
            0 <= k < v.len() ==> (#[trigger] v[k]).thread_id != Some(id) || v[k].cwd is None,
    ensures
        !cwd_by_thread(v, projectless).contains_key(id),
    decreases v.len(),
{
    if v.len() > 0 {
        let init = v.drop_last();
        if !projectless.contains(id) {
            assert forall|k: int| 0 <= k < init.len() implies (#[trigger] init[k]).thread_id
                != Some(id) || init[k].cwd is None by {
                assert(v[k] == init[k]);
            }
            assert(v[v.len() - 1].thread_id != Some(id) || v[v.len() - 1].cwd is None);
        }
        lemma_no_directory(init, projectless, id);
    }
}

/// For one thread a file becomes a change where it has sessions and is that thread's own;
/// only the one provider is to be replaced in it.
pub proof fn lemma_change_for_one_thread(
    path: Seq<char>,
    found: FoundView,
    mtime: Option<ModifiedTime>,
    thread_id: Seq<char>,
    source_provider: Seq<char>,
)
    ensures
        ({
            let r = single_change(path, found, mtime, thread_id, source_provider);
            let own = found.session_meta_count > 0 && found.thread_id == Some(thread_id);
            &&& !own ==> r.changes.len() == 0 && r.counts.len() == 0
            &&& own ==> r.changes.len() == 1 && {
                &&& r.changes[0].path == path
                &&& r.changes[0].sha256 == found.sha256
                &&& r.changes[0].size == found.size
                &&& r.changes[0].thread_id == Some(thread_id)
                &&& r.changes[0].cwd == found.cwd
                &&& r.changes[0].has_user_event == found.has_user_event
                &&& r.changes[0].rewrite_needed == found.rewrite_needed
                &&& r.changes[0].mtime == mtime
                &&& r.changes[0].mode == ModeView::SourceProvider(source_provider)
            }
            &&& own && !found.has_encrypted_content ==> r.counts.len() == 0
            &&& own && found.has_encrypted_content ==> r.counts == counted_all(
                Seq::empty(),
                found.providers,
            )
            &&& r.skipped.len() == 0
            &&& r.subagents.len() == 0
            &&& r.states.len() == 0
        }),
{
}

/// A synchronisation rewrites the files whose sessions name another provider than the
/// target, unless their thread is no root thread or is left out, and leaves every other
/// file as it is.
pub proof fn lemma_which_files_are_rewritten(content: Seq<u8>, goal: ScanGoal)
    ensures
        ({
            let lines = text::lines_of(content, 10u8);
            let scan = rollout::scan_lines(lines, goal.target, ModeView::AllProviders);
            let wanted = scan matches Some(v) && !v.marks_non_root_agent && !is_left_out(
                v.thread_id,
                goal.excluded,
                goal.explicit,
            ) && exists|i: int, p: Map<Seq<char>, JsonView>| #[trigger]
                rollout::session_at(lines, i, p) && !rollout::names_provider(p, goal.target);
            &&& is_rewritten(content, goal) <==> wanted
            &&& !wanted ==> synchronised(content, goal) == content
            &&& wanted ==> synchronised(content, goal) == text::joined(
                rollout::staged_lines(lines, goal.target, ModeView::AllProviders),
            )
        }),
{
    let lines = text::lines_of(content, 10u8);
    let scan = rollout::scan_lines(lines, goal.target, ModeView::AllProviders);
    if scan is Some {
        rollout::lemma_scan_finds_the_providers(lines, goal.target, ModeView::AllProviders);
        rollout::lemma_scan_finds_the_marks(lines, goal.target, ModeView::AllProviders);
        let v = scan->0;
        assert forall|i: int, p: Map<Seq<char>, JsonView>| #[trigger] rollout::session_at(
            lines,
            i,
            p,
        ) implies rollout::is_to_be_rewritten(p, goal.target, ModeView::AllProviders)
            == !rollout::names_provider(p, goal.target) by {}
        if exists|i: int, p: Map<Seq<char>, JsonView>| #[trigger]
            rollout::session_at(lines, i, p) && !rollout::names_provider(p, goal.target) {
            let (i, p) = choose|i: int, p: Map<Seq<char>, JsonView>| #[trigger]
                rollout::session_at(lines, i, p) && !rollout::names_provider(p, goal.target);
            assert(rollout::session_at(lines, i, p));
            assert(v.rewrite_needed);
            assert(v.session_meta_count > 0);
        }
        if v.rewrite_needed {
            let (i, p) = choose|i: int, p: Map<Seq<char>, JsonView>| #[trigger]
                rollout::session_at(lines, i, p) && rollout::is_to_be_rewritten(
                    p,
                    goal.target,
                    ModeView::AllProviders,
                );
            assert(rollout::session_at(lines, i, p));
            assert(v.session_meta_count > 0);
        }
    }
}

/// What is known of a change, and of what was collected, as a value stands in the fields
/// that have its name.
pub proof fn lemma_changes_as_values(c: SessionChange, s: SessionChanges)
    ensures
        c@.path == c.path@,
        c@.sha256 == c.original_sha256@,
        c@.size == c.original_size,
        c@.thread_id == text::text_of(c.thread_id),
        c@.cwd == text::text_of(c.cwd),
        c@.has_user_event == c.has_user_event,
        c@.rewrite_needed == c.rewrite_needed,
        c@.mtime == c.original_mtime,
        c@.mode == c.rewrite_mode@,
        s@.changes.len() == s.changes@.len(),
        forall|i: int| 0 <= i < s.changes@.len() ==> #[trigger] s@.changes[i] == s.changes@[i]@,
        s@.skipped == text::texts(s.skipped_locked_rollout_files@),
        s@.subagents == text::texts(s.subagent_thread_ids@),
        s@.states == scan_state::states_of(s.scan_state_entries@),
        s@.counts.len() == s.encrypted_content_counts@.len(),
        forall|i: int|
            0 <= i < s.encrypted_content_counts@.len() ==> (#[trigger] s@.counts[i]).0
                == s.encrypted_content_counts@[i].provider@ && s@.counts[i].1
                == s.encrypted_content_counts@[i].count,
{
}

/// Files are taken in one after the other; the first failure ends the collection.
pub proof fn lemma_files_are_taken_in_order(
    files: Seq<RolloutFile>,
    n: nat,
    states: Seq<StateView>,
    observed: Seq<Option<FileObservation>>,
    outcomes: Seq<ScanOutcome>,
    goal: ScanGoal,
)
    ensures
        collect_files(files, 0, states, observed, outcomes, goal) matches Ok(c) && c.states
            == states && c.collected.changes.len() == 0 && c.collected.skipped.len() == 0
            && c.collected.counts.len() == 0 && c.collected.subagents.len() == 0
            && c.collected.states.len() == 0,
        collect_files(files, n + 1, states, observed, outcomes, goal) == match collect_files(
            files,
            n,
            states,
            observed,
            outcomes,
            goal,
        ) {
            Err(e) => Err(e),
            Ok(c) => collect_one(
                c,
                files[n as int].path@,
                files[n as int].relative_path@,
                observed[n as int],
                outcomes[n as int]@,
                goal,
            ),
        },
{
}

/// The working directories of threads, as a list of pairs: the last pair of a thread
/// counts.
pub proof fn lemma_directories_as_pairs(v: Seq<ThreadCwd>, c: ThreadCwd)
    ensures
        cwds_of(Seq::empty()) == Map::<Seq<char>, Seq<char>>::empty(),
        cwds_of(v.push(c)) == cwds_of(v).insert(c.thread_id@, c.cwd@),
{
    assert(v.push(c).drop_last() =~= v);
}

/// What a collection comes to is what taking in all files comes to, with answers that were
/// given: a file with a record was looked at, and a file whose record cannot be used was
/// scanned.
pub proof fn lemma_what_a_collection_comes_to<O: Fn(usize) -> Option<FileObservation>, S: Fn(
    usize,
) -> ScanOutcome>(
    result: Result<CollectView, Seq<char>>,
    files: Seq<RolloutFile>,
    states: Seq<StateView>,
    goal: ScanGoal,
    observed: Seq<Option<FileObservation>>,
    outcomes: Seq<ScanOutcome>,
    observe: O,
    scanner: S,
    i: int,
)
    requires
        is_collection(result, files, states, goal, observed, outcomes, observe, scanner),
        0 <= i < files.len(),
    ensures
        result == match collect_files(files, files.len(), states, observed, outcomes, goal) {
            Ok(c) => Ok::<CollectView, Seq<char>>(c.collected),
            Err(e) => Err(e),
        },
        collect_files(files, i as nat, states, observed, outcomes, goal) matches Ok(c) ==> {
            let path = files[i].relative_path@;
            &&& find_state(c.states, path) is Some ==> call_ensures(
                observe,
                (i as usize,),
                observed[i],
            )
            &&& find_state(c.states, path) is None ==> call_ensures(
                scanner,
                (i as usize,),
                outcomes[i],
            )
            &&& find_state(c.states, path) matches Some(s) ==> !(scan_state::is_scanned_file(
                observed[i],
                s,
            ) && scan_state::body_can_be_skipped(s, goal.target, goal.excluded, goal.explicit))
                ==> call_ensures(scanner, (i as usize,), outcomes[i])
        },
{
}

/// What is known of the result of a collection as a value.
pub proof fn lemma_result_of_a_collection(r: Result<SessionChanges, String>)
    ensures
        r matches Ok(c) ==> collect_result(r) == Ok::<CollectView, Seq<char>>(c@),
        r matches Err(e) ==> collect_result(r) == Err::<CollectView, Seq<char>>(e@),
{
}

} // verus!
