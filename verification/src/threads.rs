//! Threads as the databases and the rollout files know them: which are the user's,
//! which are alive, which only the catalog knows, and which can be recovered.

use crate::catalog;
use crate::catalog::{CatalogMark, KindsView, ProviderSyncThreadKinds, ThreadKind};
use crate::names;
use crate::provider::DEFAULT_PROVIDER;
use crate::source;
use crate::text;
use vstd::prelude::*;

verus! {

// ---------------------------------------------------------------------------
// Kinds of threads
// ---------------------------------------------------------------------------
/// What a database says about the kinds of threads.
#[derive(Debug)]
pub struct ThreadKindRows {
    /// Threads that other threads spawned or that jobs were given to.
    pub spawned_thread_ids: Vec<String>,
    /// The rows of the table of threads and of the catalog.
    pub rows: Vec<CatalogMark>,
}

pub open spec fn kinds_with_spawned(before: KindsView, ids: Seq<Seq<char>>) -> KindsView {
    KindsView { subagents: text::with_texts(before.subagents, ids), ..before }
}

pub open spec fn kinds_with_rows(before: KindsView, rows: Seq<CatalogMark>) -> KindsView
    decreases rows.len(),
{
    if rows.len() == 0 {
        before
    } else {
        catalog::with_kind(
            kinds_with_rows(before, rows.drop_last()),
            rows.last().thread_id@,
            catalog::kind_of(rows.last().source_kind@, text::text_of(rows.last().thread_source)),
        )
    }
}

/// What some databases say about the kinds of threads, one after the other.
pub open spec fn kinds_in(dbs: Seq<ThreadKindRows>) -> KindsView
    decreases dbs.len(),
{
    if dbs.len() == 0 {
        KindsView { subagents: Seq::empty(), users: Seq::empty() }
    } else {
        kinds_with_rows(
            kinds_with_spawned(
                kinds_in(dbs.drop_last()),
                text::texts(dbs.last().spawned_thread_ids@),
            ),
            dbs.last().rows@,
        )
    }
}

/// A thread that one database marks as the user's is nobody else's.
pub open spec fn settled(k: KindsView) -> KindsView {
    KindsView { subagents: catalog::ids_without(k.subagents, k.users), ..k }
}

fn take_in_rows(kinds: &mut ProviderSyncThreadKinds, rows: &Vec<CatalogMark>)
    ensures
        final(kinds)@ == kinds_with_rows(old(kinds)@, rows@),
{
    let ghost before = kinds@;
    let mut i: usize = 0;
    while i < rows.len()
        invariant
            i <= rows.len(),
            kinds@ == kinds_with_rows(before, rows@.take(i as int)),
        decreases rows.len() - i,
    {
        assert(rows@.take(i + 1).drop_last() =~= rows@.take(i as int));
        kinds.take_in_row(
            text::copy_text(rows[i].thread_id.as_str()),
            rows[i].source_kind.as_str(),
            catalog::option_str(&rows[i].thread_source),
        );
        i += 1;
    }
    assert(rows@.take(i as int) =~= rows@);
}

/// The kinds of threads that some databases know.
pub fn sqlite_provider_sync_thread_kinds(dbs: &Vec<ThreadKindRows>) -> (r: ProviderSyncThreadKinds)
    ensures
        r@ == settled(kinds_in(dbs@)),
{
    let mut kinds = ProviderSyncThreadKinds::new();
    let mut i: usize = 0;
    while i < dbs.len()
        invariant
            i <= dbs.len(),
            kinds@ == kinds_in(dbs@.take(i as int)),
        decreases dbs.len() - i,
    {
        assert(dbs@.take(i + 1).drop_last() =~= dbs@.take(i as int));
        text::insert_texts(&mut kinds.subagent_thread_ids, &dbs[i].spawned_thread_ids);
        take_in_rows(&mut kinds, &dbs[i].rows);
        i += 1;
    }
    assert(dbs@.take(i as int) =~= dbs@);
    kinds.finish();
    kinds
}

/// No thread is both the user's for certain and another thread's.
pub proof fn lemma_user_threads_are_no_subagents(dbs: Seq<ThreadKindRows>, id: Seq<char>)
    requires
        settled(kinds_in(dbs)).users.contains(id),
    ensures
        !settled(kinds_in(dbs)).subagents.contains(id),
{
    catalog::lemma_ids_without(kinds_in(dbs).subagents, kinds_in(dbs).users);
}

// ---------------------------------------------------------------------------
// Living threads
// ---------------------------------------------------------------------------
/// A rollout file: its name, where it is text, and the thread that its records name,
/// where it could be read and they name one.
#[derive(Debug)]
pub struct LiveRollout {
    pub file_name: Option<String>,
    pub thread_id: Option<String>,
}

/// The threads that a rollout file stands for.
pub open spec fn rollout_threads(before: Seq<Seq<char>>, file: LiveRollout) -> Seq<Seq<char>> {
    let named = match file.file_name {
        Some(name) => match names::name_thread_id(name@) {
            Some(id) => text::with_text(before, id),
            None => before,
        },
        None => before,
    };
    match file.thread_id {
        Some(id) => if text::is_blank(id@) {
            named
        } else {
            text::with_text(named, id@)
        },
        None => named,
    }
}

pub open spec fn live_threads(files: Seq<LiveRollout>) -> Seq<Seq<char>>
    decreases files.len(),
{
    if files.len() == 0 {
        Seq::empty()
    } else {
        rollout_threads(live_threads(files.drop_last()), files.last())
    }
}

pub open spec fn has_whole_names(files: Seq<LiveRollout>) -> bool {
    forall|i: int|
        0 <= i < files.len() ==> ((#[trigger] files[i]).file_name matches Some(name)
            ==> names::has_whole_tail(name@))
}

/// The threads that rollout files or databases know.
pub fn collect_live_thread_ids(files: &Vec<LiveRollout>, sqlite_ids: &Vec<String>) -> (r: Vec<
    String,
>)
    requires
        has_whole_names(files@),
    ensures
        text::texts(r@) == text::with_texts(live_threads(files@), text::texts(sqlite_ids@)),
{
    let mut ids: Vec<String> = Vec::new();
    let mut i: usize = 0;
    assert(text::texts(ids@) =~= Seq::<Seq<char>>::empty());
    while i < files.len()
        invariant
            i <= files.len(),
            has_whole_names(files@),
            text::texts(ids@) == live_threads(files@.take(i as int)),
        decreases files.len() - i,
    {
        assert(files@.take(i + 1).drop_last() =~= files@.take(i as int));
        assert(files@.take(i + 1).last() == files@[i as int]);
        if let Some(name) = &files[i].file_name {
            if let Some(id) = names::rollout_thread_id_from_filename(name.as_str()) {
                text::insert_text(&mut ids, id);
            }
        }
        if let Some(id) = &files[i].thread_id {
            if !text::blank(id.as_str()) {
                text::insert_text(&mut ids, text::copy_text(id.as_str()));
            }
        }
        i += 1;
    }
    assert(files@.take(i as int) =~= files@);
    text::insert_texts(&mut ids, sqlite_ids);
    ids
}

proof fn lemma_live_threads(files: Seq<LiveRollout>, i: int)
    requires
        0 <= i < files.len(),
    ensures
        files[i].file_name matches Some(name) ==> (names::name_thread_id(name@) matches Some(id)
            ==> live_threads(files).contains(id)),
        files[i].thread_id matches Some(id) ==> !text::is_blank(id@) ==> live_threads(
            files,
        ).contains(id@),
    decreases files.len(),
{
    let init = files.drop_last();
    let before = live_threads(init);
    let named = match files.last().file_name {
        Some(name) => match names::name_thread_id(name@) {
            Some(id) => text::with_text(before, id),
            None => before,
        },
        None => before,
    };
    if i < init.len() {
        lemma_live_threads(init, i);
    }
    assert forall|s: Seq<char>| before.contains(s) implies named.contains(s) by {
        if let Some(name) = files.last().file_name {
            if let Some(id) = names::name_thread_id(name@) {
                text::lemma_push_contains(before, id, s);
            }
        }
    }
    assert forall|s: Seq<char>| named.contains(s) implies live_threads(files).contains(s) by {
        if let Some(id) = files.last().thread_id {
            text::lemma_push_contains(named, id@, s);
        }
    }
    if let Some(name) = files.last().file_name {
        if let Some(id) = names::name_thread_id(name@) {
            text::lemma_push_contains(before, id, id);
        }
    }
    if let Some(id) = files.last().thread_id {
        text::lemma_push_contains(named, id@, id@);
    }
}

/// A thread whose rollout file is there, or that a database knows, is alive.
pub proof fn lemma_known_threads_are_alive(
    files: Seq<LiveRollout>,
    sqlite_ids: Seq<Seq<char>>,
    id: Seq<char>,
)
    requires
        sqlite_ids.contains(id) || exists|i: int|
            0 <= i < files.len() && #[trigger] rollout_threads(
                Seq::empty(),
                files[i],
            ).contains(id),
    ensures
        text::with_texts(live_threads(files), sqlite_ids).contains(id),
{
    text::lemma_with_texts(live_threads(files), sqlite_ids);
    if !sqlite_ids.contains(id) {
        let i = choose|i: int|
            0 <= i < files.len() && #[trigger] rollout_threads(
                Seq::empty(),
                files[i],
            ).contains(id);
        lemma_live_threads(files, i);
        let none = Seq::<Seq<char>>::empty();
        let named = match files[i].file_name {
            Some(name) => match names::name_thread_id(name@) {
                Some(n) => text::with_text(none, n),
                None => none,
            },
            None => none,
        };
        if let Some(t) = files[i].thread_id {
            text::lemma_push_contains(named, t@, id);
        }
        if let Some(name) = files[i].file_name {
            if let Some(n) = names::name_thread_id(name@) {
                text::lemma_push_contains(none, n, id);
            }
        }
    }
}

// ---------------------------------------------------------------------------
// Threads that only the catalog knows
// ---------------------------------------------------------------------------
/// The threads of a catalog that no row marks as no root threads.
pub open spec fn user_threads(rows: Seq<CatalogMark>) -> Seq<Seq<char>>
    decreases rows.len(),
{
    if rows.len() == 0 {
        Seq::empty()
    } else {
        let before = user_threads(rows.drop_last());
        let row = rows.last();
        if source::names_non_root(text::text_of(row.thread_source)) || source::marks_non_root(
            row.source_kind@,
        ) {
            before
        } else {
            text::with_text(before, row.thread_id@)
        }
    }
}

/// The threads of a catalog that are taken for the user's.
pub fn sqlite_user_thread_ids(rows: &Vec<CatalogMark>) -> (r: Vec<String>)
    ensures
        text::texts(r@) == user_threads(rows@),
{
    let mut ids: Vec<String> = Vec::new();
    let mut i: usize = 0;
    assert(text::texts(ids@) =~= Seq::<Seq<char>>::empty());
    while i < rows.len()
        invariant
            i <= rows.len(),
            text::texts(ids@) == user_threads(rows@.take(i as int)),
        decreases rows.len() - i,
    {
        assert(rows@.take(i + 1).drop_last() =~= rows@.take(i as int));
        let row = &rows[i];
        if !source::thread_source_marks_non_root(catalog::option_str(&row.thread_source))
            && !source::source_marks_non_root_agent(row.source_kind.as_str()) {
            text::insert_text(&mut ids, text::copy_text(row.thread_id.as_str()));
        }
        i += 1;
    }
    assert(rows@.take(i as int) =~= rows@);
    ids
}

/// What the threads are that only the catalog knows.
#[derive(Debug, Clone, Copy, PartialEq, Eq, Structural)]
pub struct ProviderSyncAudit {
    pub catalog_only_sessions: usize,
    pub catalog_only_with_current_rollout: usize,
    pub catalog_only_with_backup_database: usize,
    pub catalog_only_without_recovery_source: usize,
}

impl Default for ProviderSyncAudit {
    fn default() -> (r: Self)
        ensures
            r.catalog_only_sessions == 0,
            r.catalog_only_with_current_rollout == 0,
            r.catalog_only_with_backup_database == 0,
            r.catalog_only_without_recovery_source == 0,
    {
        ProviderSyncAudit {
            catalog_only_sessions: 0,
            catalog_only_with_current_rollout: 0,
            catalog_only_with_backup_database: 0,
            catalog_only_without_recovery_source: 0,
        }
    }
}

/// How many of `ids` are in `a`.
pub open spec fn count_in(ids: Seq<Seq<char>>, a: Seq<Seq<char>>) -> nat
    decreases ids.len(),
{
    if ids.len() == 0 {
        0
    } else {
        count_in(ids.drop_last(), a) + if a.contains(ids.last()) {
            1nat
        } else {
            0nat
        }
    }
}

/// Each thread that the catalogs know and the tables of threads do not, once.
pub open spec fn catalog_only(
    catalog_ids: Seq<Seq<char>>,
    canonical_ids: Seq<Seq<char>>,
) -> Seq<Seq<char>> {
    catalog::ids_without(text::with_texts(Seq::empty(), catalog_ids), canonical_ids)
}

/// Counts the threads that the catalogs know and the tables of threads do not, by
/// where they could be recovered from.
pub fn audit_provider_sync_state(
    canonical_ids: &Vec<String>,
    catalog_ids: &Vec<String>,
    current_rollout_ids: &Vec<String>,
    backup_database_ids: &Vec<String>,
) -> (r: ProviderSyncAudit)
    ensures
        ({
            let only = catalog_only(text::texts(catalog_ids@), text::texts(canonical_ids@));
            let rollouts = text::texts(current_rollout_ids@);
            let backups = text::texts(backup_database_ids@);
            let rest = catalog::ids_without(only, rollouts);
            &&& r.catalog_only_sessions == only.len()
            &&& r.catalog_only_with_current_rollout == count_in(only, rollouts)
            &&& r.catalog_only_with_backup_database == count_in(rest, backups)
            &&& r.catalog_only_without_recovery_source == catalog::ids_without(
                rest,
                backups,
            ).len()
            &&& r.catalog_only_sessions == r.catalog_only_with_current_rollout
                + r.catalog_only_with_backup_database + r.catalog_only_without_recovery_source
        }),
{
    let mut distinct: Vec<String> = Vec::new();
    assert(text::texts(distinct@) =~= Seq::<Seq<char>>::empty());
    text::insert_texts(&mut distinct, catalog_ids);
    let only = catalog::remove_ids(&distinct, canonical_ids);
    let rest = catalog::remove_ids(&only, current_rollout_ids);
    let lost = catalog::remove_ids(&rest, backup_database_ids);
    proof {
        let all = text::texts(only@);
        let left = text::texts(rest@);
        lemma_count_in(all, text::texts(current_rollout_ids@));
        lemma_count_in(left, text::texts(backup_database_ids@));
        assert(all.len() == only@.len());
        assert(left.len() == rest@.len());
        assert(text::texts(lost@).len() == lost@.len());
    }
    ProviderSyncAudit {
        catalog_only_sessions: only.len(),
        catalog_only_with_current_rollout: only.len() - rest.len(),
        catalog_only_with_backup_database: rest.len() - lost.len(),
        catalog_only_without_recovery_source: lost.len(),
    }
}

proof fn lemma_count_in(ids: Seq<Seq<char>>, a: Seq<Seq<char>>)
    ensures
        count_in(ids, a) + catalog::ids_without(ids, a).len() == ids.len(),
    decreases ids.len(),
{
    if ids.len() > 0 {
        lemma_count_in(ids.drop_last(), a);
    }
}

// ---------------------------------------------------------------------------
// Threads whose row in the catalog can be recovered
// ---------------------------------------------------------------------------
/// A row of the catalog of the local host.
#[derive(Debug)]
pub struct CatalogProviderRow {
    pub thread_id: String,
    pub provider: String,
    pub missing_candidate: i64,
}

/// What a database knows about threads that may have to be recovered.
#[derive(Debug)]
pub struct RecoveryRows {
    pub thread_ids: Vec<String>,
    /// The catalog of the local host, where there is one.
    pub catalog: Option<Vec<CatalogProviderRow>>,
}

/// Those of `ids` that are asked for.
pub open spec fn known_ids(
    before: Seq<Seq<char>>,
    ids: Seq<Seq<char>>,
    requested: Seq<Seq<char>>,
) -> Seq<Seq<char>>
    decreases ids.len(),
{
    if ids.len() == 0 {
        before
    } else {
        let earlier = known_ids(before, ids.drop_last(), requested);
        if requested.contains(ids.last()) {
            text::with_text(earlier, ids.last())
        } else {
            earlier
        }
    }
}

/// Whether a row of the catalog is as it should be.
pub open spec fn row_is_ready(
    row: CatalogProviderRow,
    target: Seq<char>,
    requested: Seq<Seq<char>>,
) -> bool {
    requested.contains(row.thread_id@) && row.provider@ == target && row.missing_candidate == 0
}

pub open spec fn ready_ids(
    before: Seq<Seq<char>>,
    rows: Seq<CatalogProviderRow>,
    target: Seq<char>,
    requested: Seq<Seq<char>>,
) -> Seq<Seq<char>>
    decreases rows.len(),
{
    if rows.len() == 0 {
        before
    } else {
        let earlier = ready_ids(before, rows.drop_last(), target, requested);
        if row_is_ready(rows.last(), target, requested) {
            text::with_text(earlier, rows.last().thread_id@)
        } else {
            earlier
        }
    }
}

pub open spec fn known_in(dbs: Seq<RecoveryRows>, requested: Seq<Seq<char>>) -> Seq<Seq<char>>
    decreases dbs.len(),
{
    if dbs.len() == 0 {
        Seq::empty()
    } else {
        known_ids(
            known_in(dbs.drop_last(), requested),
            text::texts(dbs.last().thread_ids@),
            requested,
        )
    }
}

pub open spec fn ready_in(
    dbs: Seq<RecoveryRows>,
    target: Seq<char>,
    requested: Seq<Seq<char>>,
) -> Seq<Seq<char>>
    decreases dbs.len(),
{
    if dbs.len() == 0 {
        Seq::empty()
    } else {
        let earlier = ready_in(dbs.drop_last(), target, requested);
        match dbs.last().catalog {
            Some(rows) => ready_ids(earlier, rows@, target, requested),
            None => earlier,
        }
    }
}

pub open spec fn has_catalog(dbs: Seq<RecoveryRows>) -> bool {
    exists|i: int| 0 <= i < dbs.len() && (#[trigger] dbs[i]).catalog is Some
}

/// The threads to recover: those that are asked for and known, and that no catalog
/// holds as they should be. Without a catalog there are none.
pub open spec fn to_recover(
    dbs: Seq<RecoveryRows>,
    target: Seq<char>,
    requested: Seq<Seq<char>>,
) -> Seq<Seq<char>> {
    if has_catalog(dbs) {
        catalog::ids_without(known_in(dbs, requested), ready_in(dbs, target, requested))
    } else {
        Seq::empty()
    }
}

fn add_known(known: &mut Vec<String>, ids: &Vec<String>, requested: &Vec<String>)
    ensures
        text::texts(final(known)@) == known_ids(
            text::texts(old(known)@),
            text::texts(ids@),
            text::texts(requested@),
        ),
{
    let ghost before = text::texts(known@);
    let ghost all = text::texts(ids@);
    let mut i: usize = 0;
    while i < ids.len()
        invariant
            i <= ids.len(),
            all == text::texts(ids@),
            text::texts(known@) == known_ids(
                before,
                all.take(i as int),
                text::texts(requested@),
            ),
        decreases ids.len() - i,
    {
        assert(all.take(i + 1).drop_last() =~= all.take(i as int));
        assert(all.take(i + 1).last() == ids@[i as int]@);
        if text::contains_text(requested, ids[i].as_str()) {
            text::insert_text(known, text::copy_text(ids[i].as_str()));
        }
        i += 1;
    }
    assert(all.take(i as int) =~= all);
}

fn add_ready(
    ready: &mut Vec<String>,
    rows: &Vec<CatalogProviderRow>,
    target_provider: &str,
    requested: &Vec<String>,
)
    ensures
        text::texts(final(ready)@) == ready_ids(
            text::texts(old(ready)@),
            rows@,
            target_provider@,
            text::texts(requested@),
        ),
{
    let ghost before = text::texts(ready@);
    let mut i: usize = 0;
    while i < rows.len()
        invariant
            i <= rows.len(),
            text::texts(ready@) == ready_ids(
                before,
                rows@.take(i as int),
                target_provider@,
                text::texts(requested@),
            ),
        decreases rows.len() - i,
    {
        assert(rows@.take(i + 1).drop_last() =~= rows@.take(i as int));
        let row = &rows[i];
        if text::contains_text(requested, row.thread_id.as_str()) && text::same_text(
            row.provider.as_str(),
            target_provider,
        ) && row.missing_candidate == 0 {
            text::insert_text(ready, text::copy_text(row.thread_id.as_str()));
        }
        i += 1;
    }
    assert(rows@.take(i as int) =~= rows@);
}

/// The threads whose row in the catalog is to be recovered.
pub fn remote_control_catalog_recovery_thread_ids(
    dbs: &Vec<RecoveryRows>,
    target_provider: &str,
    requested_thread_ids: &Vec<String>,
) -> (r: Vec<String>)
    ensures
        text::texts(r@) == to_recover(
            dbs@,
            target_provider@,
            text::texts(requested_thread_ids@),
        ),
{
    let ghost requested = text::texts(requested_thread_ids@);
    let mut known: Vec<String> = Vec::new();
    let mut ready: Vec<String> = Vec::new();
    let mut found = false;
    let mut i: usize = 0;
    assert(text::texts(known@) =~= Seq::<Seq<char>>::empty());
    while i < dbs.len()
        invariant
            i <= dbs.len(),
            requested == text::texts(requested_thread_ids@),
            text::texts(known@) == known_in(dbs@.take(i as int), requested),
            text::texts(ready@) == ready_in(dbs@.take(i as int), target_provider@, requested),
            found == has_catalog(dbs@.take(i as int)),
        decreases dbs.len() - i,
    {
        let ghost now = dbs@.take(i + 1);
        assert(now.drop_last() =~= dbs@.take(i as int));
        proof {
            assert(now[i as int] == dbs@[i as int]);
            if has_catalog(dbs@.take(i as int)) {
                let k = choose|k: int|
                    0 <= k < i && (#[trigger] dbs@.take(i as int)[k]).catalog is Some;
                assert(now[k].catalog is Some);
            }
            if has_catalog(now) && !(dbs@[i as int].catalog is Some) {
                let k = choose|k: int| 0 <= k < now.len() && (#[trigger] now[k]).catalog is Some;
                assert(dbs@.take(i as int)[k].catalog is Some);
            }
        }
        add_known(&mut known, &dbs[i].thread_ids, requested_thread_ids);
        if let Some(rows) = &dbs[i].catalog {
            found = true;
            add_ready(&mut ready, rows, target_provider, requested_thread_ids);
        }
        i += 1;
    }
    assert(dbs@.take(i as int) =~= dbs@);
    if !found {
        let none: Vec<String> = Vec::new();
        assert(text::texts(none@) =~= Seq::<Seq<char>>::empty());
        return none;
    }
    catalog::remove_ids(&known, &ready)
}

proof fn lemma_known_ids(
    before: Seq<Seq<char>>,
    ids: Seq<Seq<char>>,
    requested: Seq<Seq<char>>,
    id: Seq<char>,
)
    ensures
        known_ids(before, ids, requested).contains(id) ==> before.contains(id)
            || requested.contains(id),
    decreases ids.len(),
{
    if ids.len() > 0 {
        lemma_known_ids(before, ids.drop_last(), requested, id);
        text::lemma_push_contains(
            known_ids(before, ids.drop_last(), requested),
            ids.last(),
            id,
        );
    }
}

proof fn lemma_known_in(dbs: Seq<RecoveryRows>, requested: Seq<Seq<char>>, id: Seq<char>)
    ensures
        known_in(dbs, requested).contains(id) ==> requested.contains(id),
    decreases dbs.len(),
{
    if dbs.len() > 0 {
        lemma_known_in(dbs.drop_last(), requested, id);
        lemma_known_ids(
            known_in(dbs.drop_last(), requested),
            text::texts(dbs.last().thread_ids@),
            requested,
            id,
        );
    }
}

proof fn lemma_ready_ids(
    before: Seq<Seq<char>>,
    rows: Seq<CatalogProviderRow>,
    target: Seq<char>,
    requested: Seq<Seq<char>>,
    id: Seq<char>,
)
    ensures
        before.contains(id) || (exists|k: int|
            0 <= k < rows.len() && (#[trigger] rows[k]).thread_id@ == id && row_is_ready(
                rows[k],
                target,
                requested,
            )) ==> ready_ids(before, rows, target, requested).contains(id),
    decreases rows.len(),
{
    if rows.len() > 0 {
        let init = rows.drop_last();
        lemma_ready_ids(before, init, target, requested, id);
        text::lemma_push_contains(
            ready_ids(before, init, target, requested),
            rows.last().thread_id@,
            id,
        );
        if exists|k: int|
            0 <= k < rows.len() && (#[trigger] rows[k]).thread_id@ == id && row_is_ready(
                rows[k],
                target,
                requested,
            ) {
            let k = choose|k: int|
                0 <= k < rows.len() && (#[trigger] rows[k]).thread_id@ == id && row_is_ready(
                    rows[k],
                    target,
                    requested,
                );
            if k < init.len() {
                assert(init[k] == rows[k]);
            }
        }
    }
}

proof fn lemma_ready_in(
    dbs: Seq<RecoveryRows>,
    target: Seq<char>,
    requested: Seq<Seq<char>>,
    d: int,
    k: int,
)
    requires
        0 <= d < dbs.len(),
        dbs[d].catalog matches Some(rows) && 0 <= k < rows@.len() && row_is_ready(
            rows@[k],
            target,
            requested,
        ),
    ensures
        ready_in(dbs, target, requested).contains(dbs[d].catalog->Some_0@[k].thread_id@),
    decreases dbs.len(),
{
    let id = dbs[d].catalog->Some_0@[k].thread_id@;
    let init = dbs.drop_last();
    if d < init.len() {
        lemma_ready_in(init, target, requested, d, k);
    }
    if let Some(rows) = dbs.last().catalog {
        assert(d == init.len() ==> rows@[k].thread_id@ == id);
        lemma_ready_ids(ready_in(init, target, requested), rows@, target, requested, id);
    }
}

/// Only threads that were asked for are recovered.
pub proof fn lemma_only_requested_threads_are_recovered(
    dbs: Seq<RecoveryRows>,
    target: Seq<char>,
    requested: Seq<Seq<char>>,
    id: Seq<char>,
)
    requires
        to_recover(dbs, target, requested).contains(id),
    ensures
        requested.contains(id),
{
    catalog::lemma_ids_without(known_in(dbs, requested), ready_in(dbs, target, requested));
    lemma_known_in(dbs, requested, id);
}

/// A thread that one catalog holds as it should be is not recovered.
pub proof fn lemma_ready_threads_are_left_alone(
    dbs: Seq<RecoveryRows>,
    target: Seq<char>,
    requested: Seq<Seq<char>>,
    d: int,
    k: int,
)
    requires
        0 <= d < dbs.len(),
        dbs[d].catalog matches Some(rows) && 0 <= k < rows@.len() && row_is_ready(
            rows@[k],
            target,
            requested,
        ),
    ensures
        !to_recover(dbs, target, requested).contains(dbs[d].catalog->Some_0@[k].thread_id@),
{
    lemma_ready_in(dbs, target, requested, d, k);
    catalog::lemma_ids_without(known_in(dbs, requested), ready_in(dbs, target, requested));
}

// ---------------------------------------------------------------------------
// The rollout file of a thread that remote control created
// ---------------------------------------------------------------------------
/// What was found of a thread's rollout file.
#[derive(Debug)]
pub enum RemoteControlRolloutLookup {
    Ready(String),
    Archived,
    UnsupportedProvider,
    Missing,
}

/// What the rows that were read so far say.
#[derive(Debug, Clone, Copy, PartialEq, Eq, Structural)]
pub struct RolloutSearch {
    pub archived_seen: bool,
    pub unsupported_seen: bool,
}

/// Whether a thread of this provider may be handed to the target provider.
pub open spec fn may_take_over(provider: Seq<char>, target: Seq<char>) -> bool {
    provider == DEFAULT_PROVIDER@ || provider == target
}

/// What a row of the table of threads says.
pub enum RowVerdict {
    Archived,
    Unsupported,
    LookAtRollout,
}

pub open spec fn row_verdict(
    provider: Seq<char>,
    archived: i64,
    target: Seq<char>,
) -> RowVerdict {
    if archived != 0 {
        RowVerdict::Archived
    } else if provider.len() > 0 && !may_take_over(provider, target) {
        RowVerdict::Unsupported
    } else {
        RowVerdict::LookAtRollout
    }
}

/// What a rollout file says: whether it is another thread's, or has records of a
/// provider that is not to be taken over, or is the one that is looked for.
pub enum RolloutVerdict {
    OtherThread,
    Unsupported,
    Ready,
}

pub open spec fn rollout_verdict(
    rollout_thread_id: Seq<char>,
    providers: Seq<Seq<char>>,
    thread_id: Seq<char>,
    target: Seq<char>,
) -> RolloutVerdict {
    if rollout_thread_id != thread_id {
        RolloutVerdict::OtherThread
    } else if providers.len() == 0 || exists|i: int|
        0 <= i < providers.len() && !may_take_over(#[trigger] providers[i], target) {
        RolloutVerdict::Unsupported
    } else {
        RolloutVerdict::Ready
    }
}

fn can_take_over(provider: &str, target_provider: &str) -> (r: bool)
    ensures
        r == may_take_over(provider@, target_provider@),
{
    text::same_text(provider, DEFAULT_PROVIDER) || text::same_text(provider, target_provider)
}

impl RolloutSearch {
    pub fn new() -> (r: RolloutSearch)
        ensures
            !r.archived_seen,
            !r.unsupported_seen,
    {
        RolloutSearch { archived_seen: false, unsupported_seen: false }
    }

    /// Takes in a row. Returns whether the rollout file that it names is to be looked
    /// at.
    pub fn take_in_row(&mut self, provider: &str, archived: i64, target_provider: &str) -> (r: bool)
        ensures
            r == (row_verdict(provider@, archived, target_provider@) is LookAtRollout),
            final(self).archived_seen == (old(self).archived_seen || row_verdict(
                provider@,
                archived,
                target_provider@,
            ) is Archived),
            final(self).unsupported_seen == (old(self).unsupported_seen || row_verdict(
                provider@,
                archived,
                target_provider@,
            ) is Unsupported),
    {
        if archived != 0 {
            self.archived_seen = true;
            return false;
        }
        if !text::empty_text(provider) && !can_take_over(provider, target_provider) {
            self.unsupported_seen = true;
            return false;
        }
        true
    }

    /// Takes in what a rollout file says. Returns whether it is the one that is looked
    /// for.
    pub fn take_in_rollout(
        &mut self,
        rollout_thread_id: &str,
        providers: &Vec<String>,
        thread_id: &str,
        target_provider: &str,
    ) -> (r: bool)
        ensures
            r == (rollout_verdict(
                rollout_thread_id@,
                text::texts(providers@),
                thread_id@,
                target_provider@,
            ) is Ready),
            final(self).archived_seen == old(self).archived_seen,
            final(self).unsupported_seen == (old(self).unsupported_seen || rollout_verdict(
                rollout_thread_id@,
                text::texts(providers@),
                thread_id@,
                target_provider@,
            ) is Unsupported),
    {
        if !text::same_text(rollout_thread_id, thread_id) {
            return false;
        }
        let ghost all = text::texts(providers@);
        assert(all.len() == providers@.len());
        let mut unsupported = providers.len() == 0;
        let mut i: usize = 0;
        while i < providers.len()
            invariant
                i <= providers.len(),
                all == text::texts(providers@),
                unsupported == (providers@.len() == 0 || exists|k: int|
                    0 <= k < i && !may_take_over(#[trigger] all[k], target_provider@)),
            decreases providers.len() - i,
        {
            assert(all[i as int] == providers@[i as int]@);
            if !can_take_over(providers[i].as_str(), target_provider) {
                unsupported = true;
            }
            i += 1;
        }
        if unsupported {
            self.unsupported_seen = true;
        }
        !unsupported
    }

    /// What was found, given the rollout file that was found, if any.
    pub fn finish(&self, ready: Option<String>) -> (r: RemoteControlRolloutLookup)
        ensures
            match ready {
                Some(path) => r == RemoteControlRolloutLookup::Ready(path),
                None => r == if self.unsupported_seen {
                    RemoteControlRolloutLookup::UnsupportedProvider
                } else if self.archived_seen {
                    RemoteControlRolloutLookup::Archived
                } else {
                    RemoteControlRolloutLookup::Missing
                },
            },
    {
        match ready {
            Some(path) => RemoteControlRolloutLookup::Ready(path),
            None => if self.unsupported_seen {
                RemoteControlRolloutLookup::UnsupportedProvider
            } else if self.archived_seen {
                RemoteControlRolloutLookup::Archived
            } else {
                RemoteControlRolloutLookup::Missing
            },
        }
    }
}

// ---------------------------------------------------------------------------
// What the lists of threads hold
// ---------------------------------------------------------------------------
/// Whether a row says of this thread that it is of a kind.
pub open spec fn row_says(rows: Seq<CatalogMark>, id: Seq<char>, kind: ThreadKind) -> bool {
    exists|i: int|
        0 <= i < rows.len() && (#[trigger] rows[i]).thread_id@ == id && catalog::kind_of(
            rows[i].source_kind@,
            text::text_of(rows[i].thread_source),
        ) == kind
}

/// Whether a database says of this thread that it is of a kind.
pub open spec fn database_says(dbs: Seq<ThreadKindRows>, id: Seq<char>, kind: ThreadKind) -> bool {
    exists|d: int| 0 <= d < dbs.len() && row_says((#[trigger] dbs[d]).rows@, id, kind)
}

/// Whether a database calls this thread spawned.
pub open spec fn is_called_spawned(dbs: Seq<ThreadKindRows>, id: Seq<char>) -> bool {
    exists|d: int|
        0 <= d < dbs.len() && text::texts((#[trigger] dbs[d]).spawned_thread_ids@).contains(id)
}

proof fn lemma_kinds_of_rows(before: KindsView, rows: Seq<CatalogMark>, id: Seq<char>)
    ensures
        kinds_with_rows(before, rows).subagents.contains(id) <==> before.subagents.contains(id)
            || row_says(rows, id, ThreadKind::Subagent),
        kinds_with_rows(before, rows).users.contains(id) <==> before.users.contains(id) || row_says(
            rows,
            id,
            ThreadKind::ExplicitUser,
        ),
    decreases rows.len(),
{
    if rows.len() > 0 {
        let init = rows.drop_last();
        let n = rows.len() - 1;
        lemma_kinds_of_rows(before, init, id);
        let u = kinds_with_rows(before, init);
        catalog::lemma_kinds_are_listed_apart(u, rows[n].thread_id@, id);
        lemma_row_says_init(rows, id, ThreadKind::Subagent);
        lemma_row_says_init(rows, id, ThreadKind::ExplicitUser);
    }
}

proof fn lemma_row_says_init(rows: Seq<CatalogMark>, id: Seq<char>, kind: ThreadKind)
    requires
        rows.len() > 0,
    ensures
        row_says(rows, id, kind) <==> row_says(rows.drop_last(), id, kind) || (
        rows.last().thread_id@ == id && catalog::kind_of(
            rows.last().source_kind@,
            text::text_of(rows.last().thread_source),
        ) == kind),
{
    let init = rows.drop_last();
    let n = rows.len() - 1;
    if row_says(init, id, kind) {
        let i = choose|i: int|
            0 <= i < init.len() && (#[trigger] init[i]).thread_id@ == id && catalog::kind_of(
                init[i].source_kind@,
                text::text_of(init[i].thread_source),
            ) == kind;
        assert(rows[i] == init[i]);
    }
    if row_says(rows, id, kind) {
        let i = choose|i: int|
            0 <= i < rows.len() && (#[trigger] rows[i]).thread_id@ == id && catalog::kind_of(
                rows[i].source_kind@,
                text::text_of(rows[i].thread_source),
            ) == kind;
        if i < n {
            assert(init[i] == rows[i]);
        }
    }
    assert(rows[n] == rows.last());
}

proof fn lemma_kinds_of_databases(dbs: Seq<ThreadKindRows>, id: Seq<char>)
    ensures
        kinds_in(dbs).subagents.contains(id) <==> is_called_spawned(dbs, id) || database_says(
            dbs,
            id,
            ThreadKind::Subagent,
        ),
        kinds_in(dbs).users.contains(id) <==> database_says(dbs, id, ThreadKind::ExplicitUser),
    decreases dbs.len(),
{
    if dbs.len() > 0 {
        let init = dbs.drop_last();
        let n = dbs.len() - 1;
        lemma_kinds_of_databases(init, id);
        let before = kinds_in(init);
        let ids = text::texts(dbs[n].spawned_thread_ids@);
        text::lemma_with_texts(before.subagents, ids);
        lemma_kinds_of_rows(kinds_with_spawned(before, ids), dbs[n].rows@, id);
        assert forall|kind: ThreadKind| #[trigger]
            database_says(dbs, id, kind) <==> database_says(init, id, kind) || row_says(
                dbs[n].rows@,
                id,
                kind,
            ) by {
            if database_says(init, id, kind) {
                let d = choose|d: int|
                    0 <= d < init.len() && row_says((#[trigger] init[d]).rows@, id, kind);
                assert(dbs[d] == init[d]);
            }
            if database_says(dbs, id, kind) {
                let d = choose|d: int|
                    0 <= d < dbs.len() && row_says((#[trigger] dbs[d]).rows@, id, kind);
                if d < n {
                    assert(init[d] == dbs[d]);
                }
            }
        }
        if is_called_spawned(init, id) {
            let d = choose|d: int|
                0 <= d < init.len() && text::texts(
                    (#[trigger] init[d]).spawned_thread_ids@,
                ).contains(id);
            assert(dbs[d] == init[d]);
        }
        if is_called_spawned(dbs, id) {
            let d = choose|d: int|
                0 <= d < dbs.len() && text::texts(
                    (#[trigger] dbs[d]).spawned_thread_ids@,
                ).contains(id);
            if d < n {
                assert(init[d] == dbs[d]);
            }
        }
        assert(dbs[n] == dbs.last());
    }
}

/// A thread is the user's for certain where a row of any database says so. It is no root
/// thread where a database calls it spawned or a row marks it, unless it is the user's for
/// certain.
pub proof fn lemma_kinds_of_threads(dbs: Seq<ThreadKindRows>, id: Seq<char>)
    ensures
        ({
            let k = settled(kinds_in(dbs));
            let user = database_says(dbs, id, ThreadKind::ExplicitUser);
            &&& k.users.contains(id) <==> user
            &&& k.subagents.contains(id) <==> !user && (is_called_spawned(dbs, id)
                || database_says(dbs, id, ThreadKind::Subagent))
        }),
{
    lemma_kinds_of_databases(dbs, id);
    catalog::lemma_ids_without(kinds_in(dbs).subagents, kinds_in(dbs).users);
}

/// A thread is alive where the name of a rollout file or what is in it names the thread, or
/// a database knows it; no other thread is.
pub proof fn lemma_living_threads(
    files: Seq<LiveRollout>,
    sqlite_ids: Seq<Seq<char>>,
    id: Seq<char>,
)
    ensures
        text::with_texts(live_threads(files), sqlite_ids).contains(id) <==> sqlite_ids.contains(id)
            || exists|i: int|
            0 <= i < files.len() && (((#[trigger] files[i]).file_name matches Some(name)
                && names::name_thread_id(name@) == Some(id)) || (files[i].thread_id matches Some(s)
                && s@ == id && !text::all_white(id))),
{
    lemma_living_of_files(files, id);
    text::lemma_with_texts(live_threads(files), sqlite_ids);
}

proof fn lemma_living_of_files(files: Seq<LiveRollout>, id: Seq<char>)
    ensures
        live_threads(files).contains(id) <==> exists|i: int|
            0 <= i < files.len() && (((#[trigger] files[i]).file_name matches Some(name)
                && names::name_thread_id(name@) == Some(id)) || (files[i].thread_id matches Some(s)
                && s@ == id && !text::all_white(id))),
    decreases files.len(),
{
    if files.len() > 0 {
        let init = files.drop_last();
        let n = files.len() - 1;
        lemma_living_of_files(init, id);
        let before = live_threads(init);
        text::lemma_blank_is_white_space(id);
        let named = match files[n].file_name {
            Some(name) => match names::name_thread_id(name@) {
                Some(x) => text::with_text(before, x),
                None => before,
            },
            None => before,
        };
        if let Some(name) = files[n].file_name {
            if let Some(x) = names::name_thread_id(name@) {
                text::lemma_push_contains(before, x, id);
            }
        }
        if let Some(s) = files[n].thread_id {
            text::lemma_push_contains(named, s@, id);
        }
        if before.contains(id) {
            let i = choose|i: int|
                0 <= i < init.len() && (((#[trigger] init[i]).file_name matches Some(name)
                    && names::name_thread_id(name@) == Some(id)) || (
                init[i].thread_id matches Some(s) && s@ == id && !text::all_white(id)));
            assert(files[i] == init[i]);
        }
        if exists|i: int|
            0 <= i < files.len() && (((#[trigger] files[i]).file_name matches Some(name)
                && names::name_thread_id(name@) == Some(id)) || (files[i].thread_id matches Some(s)
                && s@ == id && !text::all_white(id))) {
            let i = choose|i: int|
                0 <= i < files.len() && (((#[trigger] files[i]).file_name matches Some(name)
                    && names::name_thread_id(name@) == Some(id)) || (
                files[i].thread_id matches Some(s) && s@ == id && !text::all_white(id)));
            if i < n {
                assert(init[i] == files[i]);
            }
        }
        assert(files[n] == files.last());
    }
}

/// A thread of a database is the user's where a row of it neither names another source nor
/// marks the thread.
pub proof fn lemma_threads_of_the_user(rows: Seq<CatalogMark>, id: Seq<char>)
    ensures
        user_threads(rows).contains(id) <==> exists|i: int|
            0 <= i < rows.len() && (#[trigger] rows[i]).thread_id@ == id
                && !source::names_non_root(text::text_of(rows[i].thread_source))
                && !source::marks_non_root(rows[i].source_kind@),
        user_threads(rows).no_duplicates(),
    decreases rows.len(),
{
    if rows.len() > 0 {
        let init = rows.drop_last();
        let n = rows.len() - 1;
        lemma_threads_of_the_user(init, id);
        text::lemma_push_contains(user_threads(init), rows[n].thread_id@, id);
        if user_threads(init).contains(id) {
            let i = choose|i: int|
                0 <= i < init.len() && (#[trigger] init[i]).thread_id@ == id
                    && !source::names_non_root(text::text_of(init[i].thread_source))
                    && !source::marks_non_root(init[i].source_kind@);
            assert(rows[i] == init[i]);
        }
        if exists|i: int|
            0 <= i < rows.len() && (#[trigger] rows[i]).thread_id@ == id
                && !source::names_non_root(text::text_of(rows[i].thread_source))
                && !source::marks_non_root(rows[i].source_kind@) {
            let i = choose|i: int|
                0 <= i < rows.len() && (#[trigger] rows[i]).thread_id@ == id
                    && !source::names_non_root(text::text_of(rows[i].thread_source))
                    && !source::marks_non_root(rows[i].source_kind@);
            if i < n {
                assert(init[i] == rows[i]);
            }
        }
        assert(rows[n] == rows.last());
    }
}

/// Counting ids that are in a list counts each place of an id that is, and no other.
pub proof fn lemma_counting(ids: Seq<Seq<char>>, a: Seq<Seq<char>>, id: Seq<char>)
    ensures
        count_in(Seq::empty(), a) == 0,
        count_in(ids.push(id), a) == count_in(ids, a) + if a.contains(id) {
            1nat
        } else {
            0nat
        },
        count_in(ids, a) <= ids.len(),
        count_in(ids, a) == 0 <==> forall|i: int|
            0 <= i < ids.len() ==> !a.contains(#[trigger] ids[i]),
    decreases ids.len(),
{
    assert(ids.push(id).drop_last() =~= ids);
    if ids.len() > 0 {
        let init = ids.drop_last();
        let n = ids.len() - 1;
        lemma_counting(init, a, id);
        if count_in(ids, a) == 0 {
            assert forall|i: int| 0 <= i < ids.len() implies !a.contains(#[trigger] ids[i]) by {
                if i < n {
                    assert(init[i] == ids[i]);
                }
            }
        }
        if forall|i: int| 0 <= i < ids.len() ==> !a.contains(#[trigger] ids[i]) {
            assert forall|i: int| 0 <= i < init.len() implies !a.contains(#[trigger] init[i]) by {
                assert(ids[i] == init[i]);
            }
            assert(!a.contains(ids[n]));
        }
    }
}

/// The threads that only a catalog knows are those of the catalogs that are not among the
/// others, each once.
pub proof fn lemma_threads_that_only_a_catalog_knows(
    catalog_ids: Seq<Seq<char>>,
    canonical_ids: Seq<Seq<char>>,
    id: Seq<char>,
)
    ensures
        catalog_only(catalog_ids, canonical_ids).contains(id) <==> catalog_ids.contains(id)
            && !canonical_ids.contains(id),
        catalog_only(catalog_ids, canonical_ids).no_duplicates(),
{
    let once = text::with_texts(Seq::empty(), catalog_ids);
    text::lemma_with_texts(Seq::empty(), catalog_ids);
    catalog::lemma_ids_without(once, canonical_ids);
    lemma_without_keeps_distinct(once, canonical_ids);
}

proof fn lemma_without_keeps_distinct(ids: Seq<Seq<char>>, others: Seq<Seq<char>>)
    requires
        ids.no_duplicates(),
    ensures
        catalog::ids_without(ids, others).no_duplicates(),
    decreases ids.len(),
{
    if ids.len() > 0 {
        let init = ids.drop_last();
        assert forall|i: int, j: int| 0 <= i < j < init.len() implies init[i] != init[j] by {
            assert(ids[i] != ids[j]);
        }
        lemma_without_keeps_distinct(init, others);
        catalog::lemma_ids_without(init, others);
        let before = catalog::ids_without(init, others);
        let x = ids.last();
        if before.contains(x) {
            assert(init.contains(x));
            let i = choose|i: int| 0 <= i < init.len() && init[i] == x;
            assert(ids[i] != ids[ids.len() - 1]);
        }
        assert forall|i: int, j: int| 0 <= i < j < before.push(x).len() implies before.push(x)[i]
            != before.push(x)[j] by {
            if j == before.len() {
                assert(before.contains(before[i]));
            }
        }
    }
}

/// Whether a database knows this thread.
pub open spec fn is_known(dbs: Seq<RecoveryRows>, id: Seq<char>) -> bool {
    exists|d: int|
        0 <= d < dbs.len() && text::texts((#[trigger] dbs[d]).thread_ids@).contains(id)
}

/// Whether a row of a catalog has this thread with the target provider, and not as a thread
/// that may be missing.
pub open spec fn is_ready(dbs: Seq<RecoveryRows>, target: Seq<char>, id: Seq<char>) -> bool {
    exists|d: int, k: int|
        0 <= d < dbs.len() && (dbs[d].catalog matches Some(rows) && 0 <= k < rows@.len() && (
        #[trigger] dbs[d].catalog->Some_0@[k]).thread_id@ == id && rows@[k].provider@ == target
            && rows@[k].missing_candidate == 0)
}

proof fn lemma_known_ids_exact(
    before: Seq<Seq<char>>,
    ids: Seq<Seq<char>>,
    requested: Seq<Seq<char>>,
    id: Seq<char>,
)
    ensures
        known_ids(before, ids, requested).contains(id) <==> before.contains(id) || (ids.contains(id)
            && requested.contains(id)),
    decreases ids.len(),
{
    if ids.len() > 0 {
        let init = ids.drop_last();
        lemma_known_ids_exact(before, init, requested, id);
        assert(ids =~= init.push(ids.last()));
        text::lemma_push_contains(init, ids.last(), id);
        text::lemma_push_contains(known_ids(before, init, requested), ids.last(), id);
    }
}

proof fn lemma_known_exact(dbs: Seq<RecoveryRows>, requested: Seq<Seq<char>>, id: Seq<char>)
    ensures
        known_in(dbs, requested).contains(id) <==> requested.contains(id) && is_known(dbs, id),
    decreases dbs.len(),
{
    if dbs.len() > 0 {
        let init = dbs.drop_last();
        let n = dbs.len() - 1;
        lemma_known_exact(init, requested, id);
        lemma_known_ids_exact(
            known_in(init, requested),
            text::texts(dbs[n].thread_ids@),
            requested,
            id,
        );
        if is_known(init, id) {
            let d = choose|d: int|
                0 <= d < init.len() && text::texts((#[trigger] init[d]).thread_ids@).contains(id);
            assert(dbs[d] == init[d]);
        }
        if is_known(dbs, id) {
            let d = choose|d: int|
                0 <= d < dbs.len() && text::texts((#[trigger] dbs[d]).thread_ids@).contains(id);
            if d < n {
                assert(init[d] == dbs[d]);
            }
        }
        assert(dbs[n] == dbs.last());
    }
}

proof fn lemma_ready_ids_exact(
    before: Seq<Seq<char>>,
    rows: Seq<CatalogProviderRow>,
    target: Seq<char>,
    requested: Seq<Seq<char>>,
    id: Seq<char>,
)
    ensures
        ready_ids(before, rows, target, requested).contains(id) <==> before.contains(id) || (
        requested.contains(id) && exists|k: int|
            0 <= k < rows.len() && (#[trigger] rows[k]).thread_id@ == id && rows[k].provider@
                == target && rows[k].missing_candidate == 0),
    decreases rows.len(),
{
    if rows.len() > 0 {
        let init = rows.drop_last();
        let n = rows.len() - 1;
        lemma_ready_ids_exact(before, init, target, requested, id);
        text::lemma_push_contains(
            ready_ids(before, init, target, requested),
            rows[n].thread_id@,
            id,
        );
        if exists|k: int|
            0 <= k < init.len() && (#[trigger] init[k]).thread_id@ == id && init[k].provider@
                == target && init[k].missing_candidate == 0 {
            let k = choose|k: int|
                0 <= k < init.len() && (#[trigger] init[k]).thread_id@ == id && init[k].provider@
                    == target && init[k].missing_candidate == 0;
            assert(rows[k] == init[k]);
        }
        if exists|k: int|
            0 <= k < rows.len() && (#[trigger] rows[k]).thread_id@ == id && rows[k].provider@
                == target && rows[k].missing_candidate == 0 {
            let k = choose|k: int|
                0 <= k < rows.len() && (#[trigger] rows[k]).thread_id@ == id && rows[k].provider@
                    == target && rows[k].missing_candidate == 0;
            if k < n {
                assert(init[k] == rows[k]);
            }
        }
        assert(rows[n] == rows.last());
    }
}

proof fn lemma_ready_exact(
    dbs: Seq<RecoveryRows>,
    target: Seq<char>,
    requested: Seq<Seq<char>>,
    id: Seq<char>,
)
    ensures
        ready_in(dbs, target, requested).contains(id) <==> requested.contains(id) && is_ready(
            dbs,
            target,
            id,
        ),
    decreases dbs.len(),
{
    if dbs.len() > 0 {
        let init = dbs.drop_last();
        let n = dbs.len() - 1;
        lemma_ready_exact(init, target, requested, id);
        let earlier = ready_in(init, target, requested);
        if let Some(rows) = dbs[n].catalog {
            lemma_ready_ids_exact(earlier, rows@, target, requested, id);
            if exists|k: int|
                0 <= k < rows@.len() && (#[trigger] rows@[k]).thread_id@ == id && rows@[k].provider@
                    == target && rows@[k].missing_candidate == 0 {
                let k = choose|k: int|
                    0 <= k < rows@.len() && (#[trigger] rows@[k]).thread_id@ == id
                        && rows@[k].provider@ == target && rows@[k].missing_candidate == 0;
                assert(dbs[n].catalog->Some_0@[k].thread_id@ == id);
                assert(is_ready(dbs, target, id));
            }
        }
        if is_ready(init, target, id) {
            let (d, k) = choose|d: int, k: int|
                0 <= d < init.len() && (init[d].catalog matches Some(rows) && 0 <= k < rows@.len()
                    && (#[trigger] init[d].catalog->Some_0@[k]).thread_id@ == id
                    && rows@[k].provider@ == target && rows@[k].missing_candidate == 0);
            assert(dbs[d] == init[d]);
            assert(dbs[d].catalog->Some_0@[k].thread_id@ == id);
        }
        if is_ready(dbs, target, id) {
            let (d, k) = choose|d: int, k: int|
                0 <= d < dbs.len() && (dbs[d].catalog matches Some(rows) && 0 <= k < rows@.len()
                    && (#[trigger] dbs[d].catalog->Some_0@[k]).thread_id@ == id
                    && rows@[k].provider@ == target && rows@[k].missing_candidate == 0);
            if d < n {
                assert(init[d] == dbs[d]);
                assert(init[d].catalog->Some_0@[k].thread_id@ == id);
            } else {
                assert(dbs[n].catalog->Some_0@[k].thread_id@ == id);
            }
        }
        assert(dbs[n] == dbs.last());
    }
}

/// A thread is to be recovered where it is asked for, a database knows it, there is a
/// catalog, and no catalog has it ready for the target provider; no other thread is.
pub proof fn lemma_threads_to_recover(
    dbs: Seq<RecoveryRows>,
    target: Seq<char>,
    requested: Seq<Seq<char>>,
    id: Seq<char>,
)
    ensures
        to_recover(dbs, target, requested).contains(id) <==> {
            &&& requested.contains(id)
            &&& is_known(dbs, id)
            &&& exists|d: int| 0 <= d < dbs.len() && (#[trigger] dbs[d]).catalog is Some
            &&& !is_ready(dbs, target, id)
        },
{
    lemma_known_exact(dbs, requested, id);
    lemma_ready_exact(dbs, target, requested, id);
    catalog::lemma_ids_without(known_in(dbs, requested), ready_in(dbs, target, requested));
}

/// A thread can be taken over from the default provider and from the target itself. A row
/// that is archived is out of the question, whatever its provider; so is a row that names
/// another provider. A rollout has to be the thread's own, and all its providers have to be
/// among those two, of which there is at least one.
pub proof fn lemma_what_can_be_taken_over(
    provider: Seq<char>,
    archived: i64,
    target: Seq<char>,
    rollout_thread_id: Seq<char>,
    providers: Seq<Seq<char>>,
    thread_id: Seq<char>,
)
    ensures
        archived != 0 ==> row_verdict(provider, archived, target) is Archived,
        archived == 0 && (provider.len() == 0 || provider == "openai"@ || provider == target)
            ==> row_verdict(provider, archived, target) is LookAtRollout,
        archived == 0 && !(provider.len() == 0 || provider == "openai"@ || provider == target)
            ==> row_verdict(provider, archived, target) is Unsupported,
        rollout_thread_id != thread_id ==> rollout_verdict(
            rollout_thread_id,
            providers,
            thread_id,
            target,
        ) is OtherThread,
        rollout_thread_id == thread_id ==> {
            let fits = providers.len() > 0 && forall|p: Seq<char>| #[trigger]
                providers.contains(p) ==> p == "openai"@ || p == target;
            &&& fits ==> rollout_verdict(rollout_thread_id, providers, thread_id, target) is Ready
            &&& !fits ==> rollout_verdict(
                rollout_thread_id,
                providers,
                thread_id,
                target,
            ) is Unsupported
        },
{
    if rollout_thread_id == thread_id && providers.len() > 0 {
        if forall|p: Seq<char>| #[trigger] providers.contains(p) ==> p == "openai"@ || p == target {
            assert forall|i: int| 0 <= i < providers.len() implies may_take_over(
                #[trigger] providers[i],
                target,
            ) by {
                assert(providers.contains(providers[i]));
            }
        }
        if forall|i: int| 0 <= i < providers.len() ==> may_take_over(#[trigger] providers[i], target) {
            assert forall|p: Seq<char>| #[trigger] providers.contains(p) implies p == "openai"@
                || p == target by {
                let i = choose|i: int| 0 <= i < providers.len() && providers[i] == p;
                assert(may_take_over(providers[i], target));
            }
        }
    }
}

} // verus!
