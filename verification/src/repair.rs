//! Carrying out a plan for the catalog of one database: what is inserted and removed
//! in which order, and what is counted and recorded of it.

use crate::catalog;
use crate::catalog::{CatalogRepairPlan, CatalogRepairThread};
use crate::text;
use crate::threads;
use vstd::prelude::*;

verus! {

// ---------------------------------------------------------------------------
// Counts
// ---------------------------------------------------------------------------
/// How many rows of the catalog were inserted and removed.
#[derive(Debug, Clone, Copy, PartialEq, Eq, Structural)]
pub struct CatalogRepairCounts {
    pub inserted_rows: usize,
    pub removed_rows: usize,
}

impl CatalogRepairCounts {
    pub open spec fn sum(self) -> nat {
        (self.inserted_rows + self.removed_rows) as nat
    }

    pub fn none() -> (r: CatalogRepairCounts)
        ensures
            r.inserted_rows == 0,
            r.removed_rows == 0,
    {
        CatalogRepairCounts { inserted_rows: 0, removed_rows: 0 }
    }

    pub fn total(&self) -> (r: usize)
        requires
            self.sum() <= usize::MAX,
        ensures
            r == self.sum(),
    {
        self.inserted_rows + self.removed_rows
    }

    pub fn add(&mut self, other: CatalogRepairCounts)
        requires
            old(self).inserted_rows + other.inserted_rows <= usize::MAX,
            old(self).removed_rows + other.removed_rows <= usize::MAX,
        ensures
            final(self).inserted_rows == old(self).inserted_rows + other.inserted_rows,
            final(self).removed_rows == old(self).removed_rows + other.removed_rows,
            final(self).sum() == old(self).sum() + other.sum(),
    {
        self.inserted_rows = self.inserted_rows + other.inserted_rows;
        self.removed_rows = self.removed_rows + other.removed_rows;
    }
}

/// How many rows of the databases were changed.
#[derive(Debug, Clone, Copy, PartialEq, Eq, Structural)]
pub struct SqliteUpdateCounts {
    pub provider_rows: usize,
    pub user_event_rows: usize,
    pub cwd_rows: usize,
    pub catalog_insert_rows: usize,
    pub catalog_remove_rows: usize,
}

impl SqliteUpdateCounts {
    pub open spec fn sum(self) -> nat {
        (self.provider_rows + self.user_event_rows + self.cwd_rows + self.catalog_insert_rows
            + self.catalog_remove_rows) as nat
    }

    pub fn none() -> (r: SqliteUpdateCounts)
        ensures
            r.provider_rows == 0,
            r.user_event_rows == 0,
            r.cwd_rows == 0,
            r.catalog_insert_rows == 0,
            r.catalog_remove_rows == 0,
    {
        SqliteUpdateCounts {
            provider_rows: 0,
            user_event_rows: 0,
            cwd_rows: 0,
            catalog_insert_rows: 0,
            catalog_remove_rows: 0,
        }
    }

    pub fn total(&self) -> (r: usize)
        requires
            self.sum() <= usize::MAX,
        ensures
            r == self.sum(),
    {
        self.provider_rows + self.user_event_rows + self.cwd_rows + self.catalog_insert_rows
            + self.catalog_remove_rows
    }

    pub fn add(&mut self, other: SqliteUpdateCounts)
        requires
            old(self).provider_rows + other.provider_rows <= usize::MAX,
            old(self).user_event_rows + other.user_event_rows <= usize::MAX,
            old(self).cwd_rows + other.cwd_rows <= usize::MAX,
            old(self).catalog_insert_rows + other.catalog_insert_rows <= usize::MAX,
            old(self).catalog_remove_rows + other.catalog_remove_rows <= usize::MAX,
        ensures
            final(self).provider_rows == old(self).provider_rows + other.provider_rows,
            final(self).user_event_rows == old(self).user_event_rows + other.user_event_rows,
            final(self).cwd_rows == old(self).cwd_rows + other.cwd_rows,
            final(self).catalog_insert_rows == old(self).catalog_insert_rows
                + other.catalog_insert_rows,
            final(self).catalog_remove_rows == old(self).catalog_remove_rows
                + other.catalog_remove_rows,
            final(self).sum() == old(self).sum() + other.sum(),
    {
        self.provider_rows = self.provider_rows + other.provider_rows;
        self.user_event_rows = self.user_event_rows + other.user_event_rows;
        self.cwd_rows = self.cwd_rows + other.cwd_rows;
        self.catalog_insert_rows = self.catalog_insert_rows + other.catalog_insert_rows;
        self.catalog_remove_rows = self.catalog_remove_rows + other.catalog_remove_rows;
    }

    /// The counts with what the repair of the catalogs did.
    pub fn set_catalog_repairs(&mut self, repairs: CatalogRepairCounts)
        ensures
            *final(self) == (SqliteUpdateCounts {
                catalog_insert_rows: repairs.inserted_rows,
                catalog_remove_rows: repairs.removed_rows,
                ..*old(self)
            }),
    {
        self.catalog_insert_rows = repairs.inserted_rows;
        self.catalog_remove_rows = repairs.removed_rows;
    }
}

// ---------------------------------------------------------------------------
// What there is to do
// ---------------------------------------------------------------------------
/// What the catalog of a database holds of the local host.
#[derive(Debug)]
pub struct CatalogContents {
    pub path: String,
    pub thread_ids: Vec<String>,
}

pub open spec fn thread_ids_of(v: Seq<CatalogRepairThread>) -> Seq<Seq<char>> {
    v.map_values(|t: CatalogRepairThread| t.id@)
}

/// How many rows are missing in a catalog, or are in it and should not be.
pub open spec fn repairs_needed(plan: CatalogRepairPlan, c: CatalogContents) -> nat {
    let present = text::texts(c.thread_ids@);
    catalog::ids_without(thread_ids_of(plan.threads@), present).len() + threads::count_in(
        plan.removals(c.path@),
        present,
    )
}

pub open spec fn all_repairs_needed(plan: CatalogRepairPlan, v: Seq<CatalogContents>) -> nat
    decreases v.len(),
{
    if v.len() == 0 {
        0
    } else {
        all_repairs_needed(plan, v.drop_last()) + repairs_needed(plan, v.last())
    }
}

fn missing_threads(plan: &CatalogRepairPlan, present: &Vec<String>) -> (r: usize)
    ensures
        r == catalog::ids_without(thread_ids_of(plan.threads@), text::texts(present@)).len(),
{
    let ghost all = thread_ids_of(plan.threads@);
    let ghost there = text::texts(present@);
    let mut n: usize = 0;
    let mut i: usize = 0;
    while i < plan.threads.len()
        invariant
            n <= i <= plan.threads.len(),
            all == thread_ids_of(plan.threads@),
            there == text::texts(present@),
            n == catalog::ids_without(all.take(i as int), there).len(),
        decreases plan.threads.len() - i,
    {
        assert(all.take(i + 1).drop_last() =~= all.take(i as int));
        assert(all.take(i + 1).last() == plan.threads@[i as int].id@);
        if !text::contains_text(present, plan.threads[i].id.as_str()) {
            n += 1;
        }
        i += 1;
    }
    assert(all.take(i as int) =~= all);
    n
}

fn count_present(ids: &Vec<String>, present: &Vec<String>) -> (r: usize)
    ensures
        r == threads::count_in(text::texts(ids@), text::texts(present@)),
{
    let ghost all = text::texts(ids@);
    let ghost there = text::texts(present@);
    let mut n: usize = 0;
    let mut i: usize = 0;
    while i < ids.len()
        invariant
            n <= i <= ids.len(),
            all == text::texts(ids@),
            there == text::texts(present@),
            n == threads::count_in(all.take(i as int), there),
        decreases ids.len() - i,
    {
        assert(all.take(i + 1).drop_last() =~= all.take(i as int));
        assert(all.take(i + 1).last() == ids@[i as int]@);
        if text::contains_text(present, ids[i].as_str()) {
            n += 1;
        }
        i += 1;
    }
    assert(all.take(i as int) =~= all);
    n
}

proof fn lemma_repairs_grow(plan: CatalogRepairPlan, v: Seq<CatalogContents>, i: int)
    requires
        0 <= i <= v.len(),
    ensures
        all_repairs_needed(plan, v.take(i)) <= all_repairs_needed(plan, v),
    decreases v.len(),
{
    if i < v.len() {
        assert(v.drop_last().take(i) =~= v.take(i));
        lemma_repairs_grow(plan, v.drop_last(), i);
    } else {
        assert(v.take(i) =~= v);
    }
}

/// How many rows the plan would insert and remove, given what the catalogs hold.
pub fn count_local_thread_catalog_repairs(
    plan: &CatalogRepairPlan,
    catalogs: &Vec<CatalogContents>,
) -> (r: usize)
    requires
        all_repairs_needed(*plan, catalogs@) <= usize::MAX,
    ensures
        r == all_repairs_needed(*plan, catalogs@),
{
    let mut total: usize = 0;
    let mut i: usize = 0;
    while i < catalogs.len()
        invariant
            i <= catalogs.len(),
            all_repairs_needed(*plan, catalogs@) <= usize::MAX,
            total == all_repairs_needed(*plan, catalogs@.take(i as int)),
        decreases catalogs.len() - i,
    {
        proof {
            assert(catalogs@.take(i + 1).drop_last() =~= catalogs@.take(i as int));
            lemma_repairs_grow(*plan, catalogs@, i + 1);
        }
        let missing = missing_threads(plan, &catalogs[i].thread_ids);
        let removals = plan.cleanup_thread_ids_for_path(catalogs[i].path.as_str());
        let present = count_present(&removals, &catalogs[i].thread_ids);
        total = total + missing + present;
        i += 1;
    }
    assert(catalogs@.take(i as int) =~= catalogs@);
    total
}

/// Whether something may have to be removed.
pub open spec fn has_removals(plan: CatalogRepairPlan) -> bool {
    plan.non_root_thread_ids@.len() > 0 || plan.ineligible_thread_ids@.len() > 0 || exists|i: int|
        0 <= i < plan.catalog_non_root_thread_ids@.len() && (
        #[trigger] plan.catalog_non_root_thread_ids@[i]).thread_ids@.len() > 0
}

/// Whether the catalogs have to be looked at: rows are only removed where the whole
/// catalog is brought up to date.
pub fn repair_is_needed(plan: &CatalogRepairPlan, full: bool) -> (r: bool)
    ensures
        r == (plan.threads@.len() > 0 || (full && has_removals(*plan))),
{
    plan.threads.len() > 0 || (full && plan.has_cleanup_candidates())
}

// ---------------------------------------------------------------------------
// The order of threads
// ---------------------------------------------------------------------------
/// Whether threads are in the order of their ids.
pub open spec fn in_id_order(v: Seq<CatalogRepairThread>) -> bool {
    forall|i: int, j: int| 0 <= i < j < v.len() ==> !text::text_less(v[j].id@, v[i].id@)
}

/// A list with `t` behind all threads that do not come after it.
pub open spec fn id_placed(v: Seq<CatalogRepairThread>, t: CatalogRepairThread) -> Seq<
    CatalogRepairThread,
>
    decreases v.len(),
{
    if v.len() > 0 && text::text_less(t.id@, v.last().id@) {
        id_placed(v.drop_last(), t).push(v.last())
    } else {
        v.push(t)
    }
}

/// The threads in the order of their ids.
pub open spec fn id_sorted(v: Seq<CatalogRepairThread>) -> Seq<CatalogRepairThread>
    decreases v.len(),
{
    if v.len() == 0 {
        Seq::empty()
    } else {
        id_placed(id_sorted(v.drop_last()), v.last())
    }
}

fn place_by_id(v: &mut Vec<CatalogRepairThread>, thread: CatalogRepairThread)
    ensures
        final(v)@ == id_placed(old(v)@, thread),
{
    let ghost before = v@;
    let mut i: usize = v.len();
    assert(before.take(i as int) =~= before);
    assert(id_placed(before, thread) =~= id_placed(before.take(i as int), thread) + before.skip(
        i as int,
    ));
    while i > 0 && text::less_text(thread.id.as_str(), v[i - 1].id.as_str())
        invariant
            i <= v.len(),
            before == v@,
            id_placed(before, thread) == id_placed(before.take(i as int), thread) + before.skip(
                i as int,
            ),
        decreases i,
    {
        proof {
            assert(before.take(i as int).drop_last() =~= before.take(i - 1));
            let rest = id_placed(before.take(i - 1), thread);
            assert(rest.push(before[i - 1]) + before.skip(i as int) =~= rest + before.skip(i - 1));
        }
        i -= 1;
    }
    if i > 0 {
        assert(before.take(i as int).last() == before[i - 1]);
    }
    v.insert(i, thread);
    assert(before.take(i as int).push(thread) + before.skip(i as int) =~= before.insert(
        i as int,
        thread,
    ));
}

fn sort_by_id(threads: &Vec<CatalogRepairThread>) -> (r: Vec<CatalogRepairThread>)
    ensures
        r@ == id_sorted(threads@),
{
    let mut out: Vec<CatalogRepairThread> = Vec::new();
    let mut i: usize = 0;
    while i < threads.len()
        invariant
            i <= threads.len(),
            out@ == id_sorted(threads@.take(i as int)),
        decreases threads.len() - i,
    {
        assert(threads@.take(i + 1).drop_last() =~= threads@.take(i as int));
        place_by_id(&mut out, catalog::copy_thread(&threads[i]));
        i += 1;
    }
    assert(threads@.take(i as int) =~= threads@);
    out
}

proof fn lemma_id_placed(v: Seq<CatalogRepairThread>, t: CatalogRepairThread)
    requires
        in_id_order(v),
    ensures
        in_id_order(id_placed(v, t)),
        id_placed(v, t).to_multiset() == v.to_multiset().insert(t),
        forall|i: int|
            0 <= i < id_placed(v, t).len() ==> (#[trigger] id_placed(v, t)[i]) == t || v.contains(
                id_placed(v, t)[i],
            ),
    decreases v.len(),
{
    broadcast use vstd::seq_lib::group_to_multiset_ensures;

    let r = id_placed(v, t);
    if v.len() > 0 && text::text_less(t.id@, v.last().id@) {
        let init = v.drop_last();
        assert(in_id_order(init));
        lemma_id_placed(init, t);
        let before = id_placed(init, t);
        assert(v =~= init.push(v.last()));
        assert(r.to_multiset() =~= v.to_multiset().insert(t));
        assert forall|i: int| 0 <= i < r.len() implies (#[trigger] r[i]) == t || v.contains(
            r[i],
        ) by {
            if i < before.len() {
                assert(r[i] == before[i]);
                if before[i] != t {
                    let k = choose|k: int| 0 <= k < init.len() && init[k] == before[i];
                    assert(v[k] == r[i]);
                }
            } else {
                assert(v[v.len() - 1] == r[i]);
            }
        }
        assert forall|a: int, b: int| 0 <= a < b < r.len() implies !text::text_less(
            r[b].id@,
            r[a].id@,
        ) by {
            assert(r[a] == before[a]);
            if b < before.len() {
                assert(r[b] == before[b]);
            } else if before[a] == t {
                text::lemma_text_less_total(t.id@, v.last().id@);
            } else {
                let k = choose|k: int| 0 <= k < init.len() && init[k] == before[a];
                assert(!text::text_less(v[v.len() - 1].id@, v[k].id@));
            }
        }
    } else {
        assert forall|i: int| 0 <= i < r.len() implies (#[trigger] r[i]) == t || v.contains(
            r[i],
        ) by {
            if i < v.len() {
                assert(v[i] == r[i]);
            }
        }
        assert forall|a: int, b: int| 0 <= a < b < r.len() implies !text::text_less(
            r[b].id@,
            r[a].id@,
        ) by {
            if b == v.len() && a < v.len() - 1 {
                let last = v[v.len() - 1];
                text::lemma_text_less_total(t.id@, last.id@);
                text::lemma_text_less_total(last.id@, v[a].id@);
                text::lemma_text_less_total(t.id@, v[a].id@);
                if text::text_less(t.id@, v[a].id@) && t.id@ != last.id@ {
                    text::lemma_text_less_transitive(last.id@, t.id@, v[a].id@);
                }
            }
        }
    }
}

/// Threads are inserted in the order of their ids, all of them and no others.
pub proof fn lemma_id_sorted(v: Seq<CatalogRepairThread>)
    ensures
        in_id_order(id_sorted(v)),
        id_sorted(v).to_multiset() == v.to_multiset(),
    decreases v.len(),
{
    broadcast use vstd::seq_lib::group_to_multiset_ensures;

    if v.len() > 0 {
        lemma_id_sorted(v.drop_last());
        lemma_id_placed(id_sorted(v.drop_last()), v.last());
        assert(v =~= v.drop_last().push(v.last()));
    } else {
        assert(id_sorted(v) =~= v);
    }
}

// ---------------------------------------------------------------------------
// Carrying out the plan
// ---------------------------------------------------------------------------
/// The repair of the catalog of one database, while it goes on.
#[derive(Debug)]
pub struct CatalogRepair {
    /// Threads to remove, in order.
    pub removals: Vec<String>,
    /// Threads to insert, in order.
    pub threads: Vec<CatalogRepairThread>,
    /// Whether the whole catalog is brought up to date.
    pub full: bool,
    pub removals_done: usize,
    pub threads_done: usize,
    /// The highest number that a row has got.
    pub observation_sequence: i64,
    pub removed: usize,
    pub inserted: usize,
    /// The time of the newest thread that was inserted, or the number that stands for
    /// zero.
    pub max_source_updated_at: i64,
}

/// The statement that comes next.
#[derive(Debug, Clone, Copy, PartialEq, Eq, Structural)]
pub enum RepairStep {
    /// Remove the row of the thread at this place among the removals.
    Delete { removal: usize },
    /// Insert a row for the thread at this place among the threads, with this number.
    Insert { thread: usize, sequence: i64 },
    Finished,
}

/// What a repair came to.
#[derive(Debug, Clone, Copy, PartialEq, Eq, Structural)]
pub struct RepairOutcome {
    pub counts: CatalogRepairCounts,
    /// By how much the revision of the catalog goes up, where it changes.
    pub revision_step: Option<usize>,
    /// Whether the state of synchronisation is recorded.
    pub record_sync_state: bool,
}

impl CatalogRepair {
    /// Whether the parts fit together.
    pub open spec fn wf(self) -> bool {
        &&& self.removals_done <= self.removals@.len()
        &&& self.threads_done <= self.threads@.len()
        &&& self.removals_done < self.removals@.len() ==> self.threads_done == 0
    }

    pub open spec fn step(self) -> RepairStep {
        if self.removals_done < self.removals@.len() {
            RepairStep::Delete { removal: self.removals_done }
        } else if self.threads_done < self.threads@.len() {
            RepairStep::Insert {
                thread: self.threads_done,
                sequence: (self.observation_sequence + 1) as i64,
            }
        } else {
            RepairStep::Finished
        }
    }

    /// Starts the repair of the catalog of the database with this path. Rows are only
    /// removed where the whole catalog is brought up to date.
    pub fn new(
        plan: &CatalogRepairPlan,
        path: &str,
        full: bool,
        observation_sequence: i64,
    ) -> (r: CatalogRepair)
        ensures
            r.wf(),
            r.full == full,
            full ==> text::is_sorted_set(text::texts(r.removals@), plan.removals(path@)),
            !full ==> r.removals@.len() == 0,
            r.threads@ == id_sorted(plan.threads@),
            r.removals_done == 0,
            r.threads_done == 0,
            r.observation_sequence == observation_sequence,
            r.removed == 0,
            r.inserted == 0,
            r.max_source_updated_at == 0,
    {
        let removals = if full {
            let ids = plan.cleanup_thread_ids_for_path(path);
            text::sorted_set(&ids)
        } else {
            Vec::new()
        };
        CatalogRepair {
            removals,
            threads: sort_by_id(&plan.threads),
            full,
            removals_done: 0,
            threads_done: 0,
            observation_sequence,
            removed: 0,
            inserted: 0,
            max_source_updated_at: 0,
        }
    }

    /// The statement that comes next. A row gets a number of its own, one more than the
    /// highest so far.
    pub fn next(&self) -> (r: RepairStep)
        requires
            self.wf(),
            self.step() is Insert ==> self.observation_sequence < i64::MAX,
        ensures
            r == self.step(),
    {
        if self.removals_done < self.removals.len() {
            RepairStep::Delete { removal: self.removals_done }
        } else if self.threads_done < self.threads.len() {
            RepairStep::Insert {
                thread: self.threads_done,
                sequence: self.observation_sequence + 1,
            }
        } else {
            RepairStep::Finished
        }
    }

    /// Notes how many rows the statement changed. A number that no row got is used
    /// again.
    pub fn note(&mut self, affected: usize)
        requires
            old(self).wf(),
            old(self).step() is Delete ==> old(self).removed + affected <= usize::MAX,
            old(self).step() is Insert ==> old(self).inserted + affected <= usize::MAX,
            old(self).step() is Insert && affected > 0 ==> old(self).observation_sequence
                < i64::MAX,
        ensures
            final(self).wf(),
            *final(self) == noted(*old(self), affected),
    {
        if self.removals_done < self.removals.len() {
            self.removed = self.removed + affected;
            self.removals_done = self.removals_done + 1;
        } else if self.threads_done < self.threads.len() {
            if affected > 0 {
                self.observation_sequence = self.observation_sequence + 1;
                self.inserted = self.inserted + affected;
                if self.threads[self.threads_done].source_updated_at > self.max_source_updated_at {
                    self.max_source_updated_at = self.threads[self.threads_done].source_updated_at;
                }
            }
            self.threads_done = self.threads_done + 1;
        }
    }

    /// What the repair came to.
    pub fn outcome(&self) -> (r: RepairOutcome)
        requires
            self.inserted + self.removed <= usize::MAX,
        ensures
            r.counts.inserted_rows == self.inserted,
            r.counts.removed_rows == self.removed,
            r.revision_step == (if self.inserted + self.removed > 0 {
                Some((self.inserted + self.removed) as usize)
            } else {
                None
            }),
            r.record_sync_state == (self.inserted + self.removed > 0 && self.full),
    {
        let changed: usize = self.inserted + self.removed;
        RepairOutcome {
            counts: CatalogRepairCounts {
                inserted_rows: self.inserted,
                removed_rows: self.removed,
            },
            revision_step: if changed > 0 {
                Some(changed)
            } else {
                None
            },
            record_sync_state: changed > 0 && self.full,
        }
    }
}

/// The repair after a statement that changed so many rows.
pub open spec fn noted(r: CatalogRepair, affected: usize) -> CatalogRepair {
    match r.step() {
        RepairStep::Delete { removal } => CatalogRepair {
            removed: (r.removed + affected) as usize,
            removals_done: (removal + 1) as usize,
            ..r
        },
        RepairStep::Insert { thread, sequence } => if affected > 0 {
            CatalogRepair {
                observation_sequence: sequence,
                inserted: (r.inserted + affected) as usize,
                max_source_updated_at: if r.threads@[thread as int].source_updated_at
                    > r.max_source_updated_at {
                    r.threads@[thread as int].source_updated_at
                } else {
                    r.max_source_updated_at
                },
                threads_done: (thread + 1) as usize,
                ..r
            }
        } else {
            CatalogRepair { threads_done: (thread + 1) as usize, ..r }
        },
        RepairStep::Finished => r,
    }
}

/// Whether `affected` is what the statements of a run change, without running out of
/// numbers.
pub open spec fn is_run(r: CatalogRepair, affected: Seq<usize>) -> bool
    decreases affected.len(),
{
    affected.len() > 0 ==> {
        let before = after_run(r, affected.drop_last());
        &&& is_run(r, affected.drop_last())
        &&& !(before.step() is Finished)
        &&& before.step() is Delete ==> before.removed + affected.last() <= usize::MAX
        &&& before.step() is Insert ==> {
            &&& before.inserted + affected.last() <= usize::MAX
            &&& before.observation_sequence < i64::MAX
        }
    }
}

/// The repair after some statements.
pub open spec fn after_run(r: CatalogRepair, affected: Seq<usize>) -> CatalogRepair
    decreases affected.len(),
{
    if affected.len() == 0 {
        r
    } else {
        noted(after_run(r, affected.drop_last()), affected.last())
    }
}

/// How many rows some statements changed.
pub open spec fn rows(affected: Seq<usize>) -> nat
    decreases affected.len(),
{
    if affected.len() == 0 {
        0
    } else {
        rows(affected.drop_last()) + affected.last() as nat
    }
}

/// How many of some statements changed rows.
pub open spec fn effective(affected: Seq<usize>) -> nat
    decreases affected.len(),
{
    if affected.len() == 0 {
        0
    } else {
        effective(affected.drop_last()) + if affected.last() > 0 {
            1nat
        } else {
            0nat
        }
    }
}

/// A repair removes first and inserts then; it counts every row that a statement
/// changed, gives one number to each insertion that had an effect, and ends after as
/// many statements as there are threads to remove and to insert.
pub proof fn lemma_repair_accounts_for_every_row(r: CatalogRepair, affected: Seq<usize>)
    requires
        r.wf(),
        r.removals_done == 0,
        r.threads_done == 0,
        r.removed == 0,
        r.inserted == 0,
        is_run(r, affected),
    ensures
        ({
            let n = r.removals@.len() as int;
            let end = after_run(r, affected);
            let m = if affected.len() < n {
                affected.len() as int
            } else {
                n
            };
            &&& end.wf()
            &&& end.removals == r.removals
            &&& end.threads == r.threads
            &&& end.full == r.full
            &&& end.removals_done == m
            &&& end.threads_done == affected.len() - m
            &&& end.removed == rows(affected.take(m))
            &&& end.inserted == rows(affected.skip(m))
            &&& end.observation_sequence == r.observation_sequence + effective(affected.skip(m))
            &&& affected.len() <= n + r.threads@.len()
            &&& end.step() is Finished <==> affected.len() == n + r.threads@.len()
        }),
    decreases affected.len(),
{
    let n = r.removals@.len() as int;
    assert(r.removals.len() == n);
    assert(r.threads.len() == r.threads@.len());
    if affected.len() == 0 {
        assert(affected.take(0) =~= affected);
        assert(affected.skip(0) =~= affected);
    } else {
        let init = affected.drop_last();
        lemma_repair_accounts_for_every_row(r, init);
        let before = after_run(r, init);
        if affected.len() <= n {
            assert(affected.take(affected.len() as int) =~= affected);
            assert(init.take(init.len() as int) =~= init);
            assert(affected.skip(affected.len() as int) =~= Seq::<usize>::empty());
            assert(init.skip(init.len() as int) =~= Seq::<usize>::empty());
        } else {
            assert(affected.take(n) =~= init.take(n));
            assert(affected.skip(n).drop_last() =~= init.skip(n));
            assert(affected.skip(n).last() == affected.last());
        }
    }
}

// ---------------------------------------------------------------------------
// Rows of the catalog
// ---------------------------------------------------------------------------
/// A column of the catalog.
#[derive(Debug, Clone, Copy, PartialEq, Eq, Structural)]
pub enum CatalogColumn {
    HostId,
    ThreadId,
    DisplayTitle,
    SourceCreatedAt,
    SourceUpdatedAt,
    Cwd,
    SourceKind,
    ModelProvider,
    ObservationSequence,
    SourceDetail,
    MissingCandidate,
    GitBranch,
    ThreadSource,
}

/// A value of a row. A time is given by a number in the same order.
#[derive(Debug)]
pub enum CatalogValue {
    Text(String),
    Real(i64),
    Integer(i64),
    Null,
}

pub open spec fn name_of_column(c: CatalogColumn) -> Seq<char> {
    match c {
        CatalogColumn::HostId => "host_id"@,
        CatalogColumn::ThreadId => "thread_id"@,
        CatalogColumn::DisplayTitle => "display_title"@,
        CatalogColumn::SourceCreatedAt => "source_created_at"@,
        CatalogColumn::SourceUpdatedAt => "source_updated_at"@,
        CatalogColumn::Cwd => "cwd"@,
        CatalogColumn::SourceKind => "source_kind"@,
        CatalogColumn::ModelProvider => "model_provider"@,
        CatalogColumn::ObservationSequence => "observation_sequence"@,
        CatalogColumn::SourceDetail => "source_detail"@,
        CatalogColumn::MissingCandidate => "missing_candidate"@,
        CatalogColumn::GitBranch => "git_branch"@,
        CatalogColumn::ThreadSource => "thread_source"@,
    }
}

/// The name of a column.
pub fn column_name(c: CatalogColumn) -> (r: &'static str)
    ensures
        r@ == name_of_column(c),
{
    match c {
        CatalogColumn::HostId => "host_id",
        CatalogColumn::ThreadId => "thread_id",
        CatalogColumn::DisplayTitle => "display_title",
        CatalogColumn::SourceCreatedAt => "source_created_at",
        CatalogColumn::SourceUpdatedAt => "source_updated_at",
        CatalogColumn::Cwd => "cwd",
        CatalogColumn::SourceKind => "source_kind",
        CatalogColumn::ModelProvider => "model_provider",
        CatalogColumn::ObservationSequence => "observation_sequence",
        CatalogColumn::SourceDetail => "source_detail",
        CatalogColumn::MissingCandidate => "missing_candidate",
        CatalogColumn::GitBranch => "git_branch",
        CatalogColumn::ThreadSource => "thread_source",
    }
}

/// The columns that a catalog must have.
pub open spec fn required_columns() -> Seq<CatalogColumn> {
    seq![
        CatalogColumn::HostId,
        CatalogColumn::ThreadId,
        CatalogColumn::DisplayTitle,
        CatalogColumn::SourceCreatedAt,
        CatalogColumn::SourceUpdatedAt,
        CatalogColumn::Cwd,
        CatalogColumn::SourceKind,
        CatalogColumn::ModelProvider,
        CatalogColumn::ObservationSequence,
    ]
}

/// The columns that a catalog may have.
pub open spec fn optional_columns() -> Seq<CatalogColumn> {
    seq![
        CatalogColumn::SourceDetail,
        CatalogColumn::MissingCandidate,
        CatalogColumn::GitBranch,
        CatalogColumn::ThreadSource,
    ]
}

/// Those of some columns that a table has.
pub open spec fn columns_there(columns: Seq<Seq<char>>, v: Seq<CatalogColumn>) -> Seq<
    CatalogColumn,
>
    decreases v.len(),
{
    if v.len() == 0 {
        Seq::empty()
    } else {
        let before = columns_there(columns, v.drop_last());
        if columns.contains(name_of_column(v.last())) {
            before.push(v.last())
        } else {
            before
        }
    }
}

fn required() -> (r: Vec<CatalogColumn>)
    ensures
        r@ == required_columns(),
{
    let r = vec![
        CatalogColumn::HostId,
        CatalogColumn::ThreadId,
        CatalogColumn::DisplayTitle,
        CatalogColumn::SourceCreatedAt,
        CatalogColumn::SourceUpdatedAt,
        CatalogColumn::Cwd,
        CatalogColumn::SourceKind,
        CatalogColumn::ModelProvider,
        CatalogColumn::ObservationSequence,
    ];
    assert(r@ =~= required_columns());
    r
}

/// Whether a catalog has the columns that a row needs.
pub fn catalog_supports_repair(columns: &Vec<String>) -> (r: bool)
    ensures
        r == forall|i: int|
            0 <= i < required_columns().len() ==> text::texts(columns@).contains(
                name_of_column(#[trigger] required_columns()[i]),
            ),
{
    let needed = required();
    let mut i: usize = 0;
    while i < needed.len()
        invariant
            i <= needed.len(),
            needed@ == required_columns(),
            forall|k: int|
                0 <= k < i ==> text::texts(columns@).contains(
                    name_of_column(#[trigger] required_columns()[k]),
                ),
        decreases needed.len() - i,
    {
        if !text::contains_text(columns, column_name(needed[i])) {
            assert(!text::texts(columns@).contains(
                name_of_column(required_columns()[i as int]),
            ));
            return false;
        }
        i += 1;
    }
    true
}

/// The columns that are filled: those that must be there, then those of the others
/// that are.
pub fn local_catalog_insert_columns(columns: &Vec<String>) -> (r: Vec<CatalogColumn>)
    ensures
        r@ == required_columns() + columns_there(text::texts(columns@), optional_columns()),
{
    let ghost there = text::texts(columns@);
    let mut out = required();
    let optional = vec![
        CatalogColumn::SourceDetail,
        CatalogColumn::MissingCandidate,
        CatalogColumn::GitBranch,
        CatalogColumn::ThreadSource,
    ];
    assert(optional@ =~= optional_columns());
    let mut i: usize = 0;
    assert(out@ =~= required_columns() + columns_there(there, optional_columns().take(0)));
    while i < optional.len()
        invariant
            i <= optional.len(),
            there == text::texts(columns@),
            optional@ == optional_columns(),
            out@ == required_columns() + columns_there(there, optional_columns().take(i as int)),
        decreases optional.len() - i,
    {
        assert(optional_columns().take(i + 1).drop_last() =~= optional_columns().take(i as int));
        if text::contains_text(columns, column_name(optional[i])) {
            out.push(optional[i]);
            assert(out@ =~= required_columns() + columns_there(
                there,
                optional_columns().take(i + 1),
            ));
        }
        i += 1;
    }
    assert(optional_columns().take(i as int) =~= optional_columns());
    out
}

pub open spec fn text_or_null(o: Option<String>) -> CatalogValue {
    match o {
        Some(s) => CatalogValue::Text(s),
        None => CatalogValue::Null,
    }
}

/// What a row holds in a column.
pub open spec fn value_in_column(
    c: CatalogColumn,
    host_id: String,
    t: CatalogRepairThread,
    observation_sequence: i64,
) -> CatalogValue {
    match c {
        CatalogColumn::HostId => CatalogValue::Text(host_id),
        CatalogColumn::ThreadId => CatalogValue::Text(t.id),
        CatalogColumn::DisplayTitle => CatalogValue::Text(t.display_title),
        CatalogColumn::SourceCreatedAt => CatalogValue::Real(t.source_created_at),
        CatalogColumn::SourceUpdatedAt => CatalogValue::Real(t.source_updated_at),
        CatalogColumn::Cwd => CatalogValue::Text(t.cwd),
        CatalogColumn::SourceKind => CatalogValue::Text(t.source_kind),
        CatalogColumn::ModelProvider => CatalogValue::Text(t.model_provider),
        CatalogColumn::ObservationSequence => CatalogValue::Integer(observation_sequence),
        CatalogColumn::SourceDetail => CatalogValue::Text(t.source_detail),
        CatalogColumn::MissingCandidate => CatalogValue::Integer(0),
        CatalogColumn::GitBranch => text_or_null(t.git_branch),
        CatalogColumn::ThreadSource => text_or_null(t.thread_source),
    }
}

fn value_of_option(o: &Option<String>) -> (r: CatalogValue)
    ensures
        r == text_or_null(*o),
{
    match o {
        Some(s) => CatalogValue::Text(s.clone()),
        None => CatalogValue::Null,
    }
}

fn column_value(
    c: CatalogColumn,
    host_id: &String,
    thread: &CatalogRepairThread,
    observation_sequence: i64,
) -> (r: CatalogValue)
    ensures
        r == value_in_column(c, *host_id, *thread, observation_sequence),
{
    match c {
        CatalogColumn::HostId => CatalogValue::Text(host_id.clone()),
        CatalogColumn::ThreadId => CatalogValue::Text(thread.id.clone()),
        CatalogColumn::DisplayTitle => CatalogValue::Text(thread.display_title.clone()),
        CatalogColumn::SourceCreatedAt => CatalogValue::Real(thread.source_created_at),
        CatalogColumn::SourceUpdatedAt => CatalogValue::Real(thread.source_updated_at),
        CatalogColumn::Cwd => CatalogValue::Text(thread.cwd.clone()),
        CatalogColumn::SourceKind => CatalogValue::Text(thread.source_kind.clone()),
        CatalogColumn::ModelProvider => CatalogValue::Text(thread.model_provider.clone()),
        CatalogColumn::ObservationSequence => CatalogValue::Integer(observation_sequence),
        CatalogColumn::SourceDetail => CatalogValue::Text(thread.source_detail.clone()),
        CatalogColumn::MissingCandidate => CatalogValue::Integer(0),
        CatalogColumn::GitBranch => value_of_option(&thread.git_branch),
        CatalogColumn::ThreadSource => value_of_option(&thread.thread_source),
    }
}

/// The row of a thread says of it, column by column, what the thread says of itself: each
/// part of the thread stands in the column that has its name, and nowhere else.
pub proof fn lemma_row_describes_its_thread(
    host_id: String,
    t: CatalogRepairThread,
    observation_sequence: i64,
)
    ensures
        ({
            let row = |c: CatalogColumn| value_in_column(c, host_id, t, observation_sequence);
            &&& row(CatalogColumn::HostId) == CatalogValue::Text(host_id)
            &&& row(CatalogColumn::ThreadId) == CatalogValue::Text(t.id)
            &&& row(CatalogColumn::DisplayTitle) == CatalogValue::Text(t.display_title)
            &&& row(CatalogColumn::SourceCreatedAt) == CatalogValue::Real(t.source_created_at)
            &&& row(CatalogColumn::SourceUpdatedAt) == CatalogValue::Real(t.source_updated_at)
            &&& row(CatalogColumn::Cwd) == CatalogValue::Text(t.cwd)
            &&& row(CatalogColumn::SourceKind) == CatalogValue::Text(t.source_kind)
            &&& row(CatalogColumn::ModelProvider) == CatalogValue::Text(t.model_provider)
            &&& row(CatalogColumn::ObservationSequence) == CatalogValue::Integer(
                observation_sequence,
            )
            &&& row(CatalogColumn::SourceDetail) == CatalogValue::Text(t.source_detail)
            &&& row(CatalogColumn::MissingCandidate) == CatalogValue::Integer(0)
            &&& t.git_branch matches Some(b) ==> row(CatalogColumn::GitBranch)
                == CatalogValue::Text(b)
            &&& t.git_branch is None ==> row(CatalogColumn::GitBranch) == CatalogValue::Null
            &&& t.thread_source matches Some(b) ==> row(CatalogColumn::ThreadSource)
                == CatalogValue::Text(b)
            &&& t.thread_source is None ==> row(CatalogColumn::ThreadSource) == CatalogValue::Null
        }),
{
}

/// A thread can be told from its row: two threads with the same row in a catalog that has
/// every column are the same thread, of the same host and with the same number.
pub proof fn lemma_thread_is_told_from_its_row(
    a_host: String,
    a: CatalogRepairThread,
    a_sequence: i64,
    b_host: String,
    b: CatalogRepairThread,
    b_sequence: i64,
)
    requires
        forall|c: CatalogColumn| #[trigger]
            value_in_column(c, a_host, a, a_sequence) == value_in_column(
                c,
                b_host,
                b,
                b_sequence,
            ),
    ensures
        a_host == b_host,
        a == b,
        a_sequence == b_sequence,
{
    let same = |c: CatalogColumn|
        value_in_column(c, a_host, a, a_sequence) == value_in_column(c, b_host, b, b_sequence);
    assert(same(CatalogColumn::HostId));
    assert(same(CatalogColumn::ThreadId));
    assert(same(CatalogColumn::DisplayTitle));
    assert(same(CatalogColumn::SourceCreatedAt));
    assert(same(CatalogColumn::SourceUpdatedAt));
    assert(same(CatalogColumn::Cwd));
    assert(same(CatalogColumn::SourceKind));
    assert(same(CatalogColumn::ModelProvider));
    assert(same(CatalogColumn::ObservationSequence));
    assert(same(CatalogColumn::SourceDetail));
    assert(same(CatalogColumn::GitBranch));
    assert(same(CatalogColumn::ThreadSource));
}

/// The values of the row of a thread, column by column.
pub fn local_catalog_insert_values(
    columns: &Vec<CatalogColumn>,
    host_id: &String,
    thread: &CatalogRepairThread,
    observation_sequence: i64,
) -> (r: Vec<CatalogValue>)
    ensures
        r@.len() == columns@.len(),
        forall|i: int|
            0 <= i < r@.len() ==> #[trigger] r@[i] == value_in_column(
                columns@[i],
                *host_id,
                *thread,
                observation_sequence,
            ),
        forall|i: int|
            0 <= i < columns@.len() ==> (match #[trigger] columns@[i] {
                CatalogColumn::HostId => r@[i] == CatalogValue::Text(*host_id),
                CatalogColumn::ThreadId => r@[i] == CatalogValue::Text(thread.id),
                CatalogColumn::DisplayTitle => r@[i] == CatalogValue::Text(thread.display_title),
                CatalogColumn::SourceCreatedAt => r@[i] == CatalogValue::Real(thread.source_created_at),
                CatalogColumn::SourceUpdatedAt => r@[i] == CatalogValue::Real(thread.source_updated_at),
                CatalogColumn::Cwd => r@[i] == CatalogValue::Text(thread.cwd),
                CatalogColumn::SourceKind => r@[i] == CatalogValue::Text(thread.source_kind),
                CatalogColumn::ModelProvider => r@[i] == CatalogValue::Text(thread.model_provider),
                CatalogColumn::ObservationSequence => r@[i] == CatalogValue::Integer(observation_sequence),
                CatalogColumn::SourceDetail => r@[i] == CatalogValue::Text(thread.source_detail),
                CatalogColumn::MissingCandidate => r@[i] == CatalogValue::Integer(0),
                CatalogColumn::GitBranch => match thread.git_branch {
                    Some(s) => r@[i] == CatalogValue::Text(s),
                    None => r@[i] == CatalogValue::Null,
                },
                CatalogColumn::ThreadSource => match thread.thread_source {
                    Some(s) => r@[i] == CatalogValue::Text(s),
                    None => r@[i] == CatalogValue::Null,
                },
            }),
{
    let mut out: Vec<CatalogValue> = Vec::new();
    let mut i: usize = 0;
    while i < columns.len()
        invariant
            i <= columns.len(),
            out@.len() == i,
            forall|k: int|
                0 <= k < i ==> #[trigger] out@[k] == value_in_column(
                    columns@[k],
                    *host_id,
                    *thread,
                    observation_sequence,
                ),
        decreases columns.len() - i,
    {
        out.push(column_value(columns[i], host_id, thread, observation_sequence));
        i += 1;
    }
    out
}

// ---------------------------------------------------------------------------
// What a repair comes to
// ---------------------------------------------------------------------------
/// Of the threads that are inserted the newest one counts for the time of the catalog; one
/// whose statement changed nothing does not count, and the time never goes back.
pub proof fn lemma_newest_inserted_thread_counts(r: CatalogRepair, affected: usize)
    requires
        r.wf(),
        r.step() is Insert,
        r.inserted + affected <= usize::MAX,
        r.observation_sequence < i64::MAX,
    ensures
        ({
            let t = r.threads@[r.threads_done as int];
            let after = noted(r, affected);
            &&& affected == 0 ==> after.max_source_updated_at == r.max_source_updated_at
                && after.observation_sequence == r.observation_sequence && after.inserted
                == r.inserted
            &&& affected > 0 ==> after.max_source_updated_at >= t.source_updated_at
                && after.max_source_updated_at >= r.max_source_updated_at && (
            after.max_source_updated_at == t.source_updated_at || after.max_source_updated_at
                == r.max_source_updated_at)
            &&& affected > 0 ==> after.observation_sequence == r.observation_sequence + 1
                && after.inserted == r.inserted + affected
            &&& after.threads_done == r.threads_done + 1
            &&& r.step() == (RepairStep::Insert {
                thread: r.threads_done,
                sequence: (r.observation_sequence + 1) as i64,
            })
        }),
{
    assert(r.threads.len() == r.threads@.len());
}

/// A removal counts the rows that it removed, and touches neither numbers nor times.
pub proof fn lemma_what_a_removal_counts(r: CatalogRepair, affected: usize)
    requires
        r.wf(),
        r.step() is Delete,
        r.removed + affected <= usize::MAX,
    ensures
        r.step() == (RepairStep::Delete { removal: r.removals_done }),
        noted(r, affected).removed == r.removed + affected,
        noted(r, affected).removals_done == r.removals_done + 1,
        noted(r, affected).observation_sequence == r.observation_sequence,
        noted(r, affected).max_source_updated_at == r.max_source_updated_at,
        noted(r, affected).inserted == r.inserted,
{
    assert(r.removals.len() == r.removals@.len());
}

/// A catalog needs a repair for each thread of the plan that it lacks and for each thread
/// that it has and should not have. It needs none where it lacks none and has none too
/// many.
pub proof fn lemma_when_a_catalog_needs_no_repair(plan: CatalogRepairPlan, c: CatalogContents)
    ensures
        repairs_needed(plan, c) == 0 <==> {
            &&& forall|i: int|
                0 <= i < plan.threads@.len() ==> text::texts(c.thread_ids@).contains(
                    (#[trigger] plan.threads@[i]).id@,
                )
            &&& forall|id: Seq<char>| #[trigger]
                plan.removals(c.path@).contains(id) ==> !text::texts(c.thread_ids@).contains(id)
        },
{
    let present = text::texts(c.thread_ids@);
    let wanted = thread_ids_of(plan.threads@);
    let unwanted = plan.removals(c.path@);
    let missing = catalog::ids_without(wanted, present);
    catalog::lemma_ids_without(wanted, present);
    threads::lemma_counting(unwanted, present, Seq::empty());
    if missing.len() > 0 {
        assert(missing.contains(missing[0]));
        let i = choose|i: int| 0 <= i < wanted.len() && wanted[i] == missing[0];
        assert(plan.threads@[i].id@ == missing[0]);
    } else {
        assert forall|i: int| 0 <= i < plan.threads@.len() implies present.contains(
            (#[trigger] plan.threads@[i]).id@,
        ) by {
            assert(wanted[i] == plan.threads@[i].id@);
            assert(wanted.contains(wanted[i]));
            if !present.contains(wanted[i]) {
                assert(missing.contains(wanted[i]));
            }
        }
    }
    if threads::count_in(unwanted, present) == 0 {
        assert forall|id: Seq<char>| #[trigger] unwanted.contains(id) implies !present.contains(
            id,
        ) by {
            let i = choose|i: int| 0 <= i < unwanted.len() && unwanted[i] == id;
            assert(!present.contains(unwanted[i]));
        }
    } else {
        let i = choose|i: int| 0 <= i < unwanted.len() && present.contains(#[trigger] unwanted[i]);
        assert(unwanted.contains(unwanted[i]));
    }
}

/// The repairs of several catalogs add up.
pub proof fn lemma_repairs_add_up(
    plan: CatalogRepairPlan,
    v: Seq<CatalogContents>,
    c: CatalogContents,
)
    ensures
        all_repairs_needed(plan, Seq::empty()) == 0,
        all_repairs_needed(plan, v.push(c)) == all_repairs_needed(plan, v) + repairs_needed(
            plan,
            c,
        ),
{
    assert(v.push(c).drop_last() =~= v);
}

/// Something may have to be removed where a thread is listed for it, for all catalogs or
/// for one.
pub proof fn lemma_when_something_may_be_removed(plan: CatalogRepairPlan)
    ensures
        !has_removals(plan) ==> forall|path: Seq<char>| #[trigger] plan.removals(path).len() == 0,
{
    if !has_removals(plan) {
        assert forall|path: Seq<char>| #[trigger] plan.removals(path).len() == 0 by {
            let a = text::texts(plan.non_root_thread_ids@);
            let b = text::texts(plan.ineligible_thread_ids@);
            let v = catalog::path_ids_of(plan.catalog_non_root_thread_ids@);
            assert forall|i: int| 0 <= i < v.len() implies (#[trigger] v[i]).ids.len() == 0 by {
                assert(plan.catalog_non_root_thread_ids@[i].thread_ids@.len() == 0);
            }
            lemma_no_ids_for_path(v, path);
            text::lemma_with_texts(a, b);
            let ab = text::with_texts(a, b);
            let c = catalog::ids_for_path(v, path);
            text::lemma_with_texts(ab, c);
            let all = text::with_texts(ab, c);
            if all.len() > 0 {
                assert(all.contains(all[0]));
                assert(ab.contains(all[0]) || c.contains(all[0]));
            }
        }
    }
}

proof fn lemma_no_ids_for_path(v: Seq<catalog::PathIdsView>, path: Seq<char>)
    requires
        forall|i: int| 0 <= i < v.len() ==> (#[trigger] v[i]).ids.len() == 0,
    ensures
        catalog::ids_for_path(v, path).len() == 0,
    decreases v.len(),
{
    if v.len() > 0 {
        let init = v.drop_last();
        assert forall|i: int| 0 <= i < init.len() implies (#[trigger] init[i]).ids.len() == 0 by {
            assert(init[i] == v[i]);
        }
        lemma_no_ids_for_path(init, path);
        assert(v[v.len() - 1].ids.len() == 0);
    }
}

/// Every column has a name of its own, that of the part of a thread that stands in it.
pub proof fn lemma_names_of_columns()
    ensures
        name_of_column(CatalogColumn::HostId) == "host_id"@,
        name_of_column(CatalogColumn::ThreadId) == "thread_id"@,
        name_of_column(CatalogColumn::DisplayTitle) == "display_title"@,
        name_of_column(CatalogColumn::SourceCreatedAt) == "source_created_at"@,
        name_of_column(CatalogColumn::SourceUpdatedAt) == "source_updated_at"@,
        name_of_column(CatalogColumn::Cwd) == "cwd"@,
        name_of_column(CatalogColumn::SourceKind) == "source_kind"@,
        name_of_column(CatalogColumn::ModelProvider) == "model_provider"@,
        name_of_column(CatalogColumn::ObservationSequence) == "observation_sequence"@,
        name_of_column(CatalogColumn::SourceDetail) == "source_detail"@,
        name_of_column(CatalogColumn::MissingCandidate) == "missing_candidate"@,
        name_of_column(CatalogColumn::GitBranch) == "git_branch"@,
        name_of_column(CatalogColumn::ThreadSource) == "thread_source"@,
{
}

/// A row fills the columns that a catalog must have, and of the others those that it has.
pub proof fn lemma_which_columns_are_filled(columns: Seq<Seq<char>>, c: CatalogColumn)
    ensures
        ({
            let filled = required_columns() + columns_there(columns, optional_columns());
            let optional = c is SourceDetail || c is MissingCandidate || c is GitBranch
                || c is ThreadSource;
            filled.contains(c) <==> !optional || columns.contains(name_of_column(c))
        }),
{
    let filled = required_columns() + columns_there(columns, optional_columns());
    lemma_columns_there(columns, optional_columns(), c);
    let r = required_columns();
    let o = optional_columns();
    assert(r[0] is HostId && r[1] is ThreadId && r[2] is DisplayTitle && r[3] is SourceCreatedAt
        && r[4] is SourceUpdatedAt && r[5] is Cwd && r[6] is SourceKind && r[7] is ModelProvider
        && r[8] is ObservationSequence);
    assert(o[0] is SourceDetail && o[1] is MissingCandidate && o[2] is GitBranch
        && o[3] is ThreadSource);
    let t = columns_there(columns, o);
    if t.contains(c) {
        let k = choose|k: int| 0 <= k < t.len() && t[k] == c;
        assert(filled[r.len() + k] == c);
    }
    if filled.contains(c) {
        let k = choose|k: int| 0 <= k < filled.len() && filled[k] == c;
        if k < r.len() {
            assert(r[k] == c);
        } else {
            assert(t[k - r.len()] == c);
        }
    }
    assert(filled[0] == r[0] && filled[1] == r[1] && filled[2] == r[2] && filled[3] == r[3]
        && filled[4] == r[4] && filled[5] == r[5] && filled[6] == r[6] && filled[7] == r[7]
        && filled[8] == r[8]);
}

proof fn lemma_columns_there(columns: Seq<Seq<char>>, v: Seq<CatalogColumn>, c: CatalogColumn)
    ensures
        columns_there(columns, v).contains(c) <==> v.contains(c) && columns.contains(
            name_of_column(c),
        ),
    decreases v.len(),
{
    if v.len() > 0 {
        let init = v.drop_last();
        lemma_columns_there(columns, init, c);
        assert(v =~= init.push(v.last()));
        text::lemma_push_contains(init, v.last(), c);
        text::lemma_push_contains(columns_there(columns, init), v.last(), c);
    }
}

/// Something may have to be removed only where a catalog has something to be removed from
/// it.
pub proof fn lemma_removals_are_there_where_they_are_expected(plan: CatalogRepairPlan)
    requires
        has_removals(plan),
    ensures
        exists|path: Seq<char>| #[trigger] plan.removals(path).len() > 0,
{
    let a = text::texts(plan.non_root_thread_ids@);
    let b = text::texts(plan.ineligible_thread_ids@);
    let v = catalog::path_ids_of(plan.catalog_non_root_thread_ids@);
    text::lemma_with_texts(a, b);
    let ab = text::with_texts(a, b);
    if a.len() > 0 || b.len() > 0 {
        let path = Seq::<char>::empty();
        let c = catalog::ids_for_path(v, path);
        text::lemma_with_texts(ab, c);
        let x = if a.len() > 0 {
            a[0]
        } else {
            b[0]
        };
        assert(a.contains(x) || b.contains(x));
        assert(ab.contains(x));
        assert(plan.removals(path).contains(x));
        assert(plan.removals(path).len() > 0);
    } else {
        let i = choose|i: int|
            0 <= i < plan.catalog_non_root_thread_ids@.len() && (
            #[trigger] plan.catalog_non_root_thread_ids@[i]).thread_ids@.len() > 0;
        let path = v[i].path;
        let x = v[i].ids[0];
        assert(v[i].ids.contains(x));
        lemma_ids_for_path_hold(v, i, x);
        let c = catalog::ids_for_path(v, path);
        text::lemma_with_texts(ab, c);
        assert(plan.removals(path).contains(x));
        assert(plan.removals(path).len() > 0);
    }
}

proof fn lemma_ids_for_path_hold(v: Seq<catalog::PathIdsView>, i: int, x: Seq<char>)
    requires
        0 <= i < v.len(),
        v[i].ids.contains(x),
    ensures
        catalog::ids_for_path(v, v[i].path).contains(x),
    decreases v.len(),
{
    let init = v.drop_last();
    let n = v.len() - 1;
    let before = catalog::ids_for_path(init, v[i].path);
    text::lemma_with_texts(before, v[n].ids);
    if i < n {
        assert(init[i] == v[i]);
        lemma_ids_for_path_hold(init, i, x);
    }
}

/// The counts of a repair and of an update are the sums of their parts.
pub proof fn lemma_counts_are_sums(r: CatalogRepairCounts, u: SqliteUpdateCounts)
    ensures
        r.sum() == r.inserted_rows + r.removed_rows,
        u.sum() == u.provider_rows + u.user_event_rows + u.cwd_rows + u.catalog_insert_rows
            + u.catalog_remove_rows,
{
}

/// Threads are inserted in the order of their ids, whatever order the plan lists them in,
/// all of them and no others.
pub proof fn lemma_threads_are_inserted_in_order(v: Seq<CatalogRepairThread>)
    ensures
        forall|i: int, j: int|
            0 <= i < j < id_sorted(v).len() ==> id_sorted(v)[i].id@ == id_sorted(v)[j].id@
                || text::text_less(id_sorted(v)[i].id@, id_sorted(v)[j].id@),
        id_sorted(v).to_multiset() == v.to_multiset(),
{
    lemma_id_sorted(v);
    assert forall|i: int, j: int| 0 <= i < j < id_sorted(v).len() implies id_sorted(v)[i].id@
        == id_sorted(v)[j].id@ || text::text_less(id_sorted(v)[i].id@, id_sorted(v)[j].id@) by {
        text::lemma_text_less_total(id_sorted(v)[i].id@, id_sorted(v)[j].id@);
    }
}

} // verus!
