//! The thread catalog that the desktop application keeps in its databases: which
//! threads belong in it, which do not, and what is to be inserted and removed.

use crate::json;
use crate::source;
use crate::text;
use vstd::prelude::*;

verus! {

// ---------------------------------------------------------------------------
// Kinds of threads
// ---------------------------------------------------------------------------
/// What a database says about a thread.
#[derive(Clone, Copy, PartialEq, Eq, Structural, Debug)]
pub enum ThreadKind {
    Subagent,
    ExplicitUser,
    Unmarked,
}

/// A structured mark and a recorded thread source come first, then the mark of the
/// user, then plain text.
pub open spec fn kind_of(src: Seq<char>, thread_source: Option<Seq<char>>) -> ThreadKind {
    if source::structured_marks_non_root(src) || source::names_non_root(thread_source) {
        ThreadKind::Subagent
    } else if source::names_user(thread_source) {
        ThreadKind::ExplicitUser
    } else if source::marks_non_root(src) {
        ThreadKind::Subagent
    } else {
        ThreadKind::Unmarked
    }
}

/// What a row says about the kind of a thread.
pub fn thread_kind(src: &str, thread_source: Option<&str>) -> (r: ThreadKind)
    ensures
        r == kind_of(src@, text::str_of(thread_source)),
{
    if source::source_structured_marks_non_root_agent(src) || source::thread_source_marks_non_root(
        thread_source,
    ) {
        ThreadKind::Subagent
    } else if source::thread_source_is_user(thread_source) {
        ThreadKind::ExplicitUser
    } else if source::source_marks_non_root_agent(src) {
        ThreadKind::Subagent
    } else {
        ThreadKind::Unmarked
    }
}

/// The threads that are not the user's, and those that are for certain.
pub struct ProviderSyncThreadKinds {
    pub subagent_thread_ids: Vec<String>,
    pub explicit_user_thread_ids: Vec<String>,
}

#[verifier::ext_equal]
pub struct KindsView {
    pub subagents: Seq<Seq<char>>,
    pub users: Seq<Seq<char>>,
}

impl View for ProviderSyncThreadKinds {
    type V = KindsView;

    open spec fn view(&self) -> KindsView {
        KindsView {
            subagents: text::texts(self.subagent_thread_ids@),
            users: text::texts(self.explicit_user_thread_ids@),
        }
    }
}

/// One more thread of a kind.
pub open spec fn with_kind(v: KindsView, id: Seq<char>, kind: ThreadKind) -> KindsView {
    match kind {
        ThreadKind::Subagent => KindsView { subagents: text::with_text(v.subagents, id), ..v },
        ThreadKind::ExplicitUser => KindsView { users: text::with_text(v.users, id), ..v },
        ThreadKind::Unmarked => v,
    }
}

/// Those of `ids` that are not in `others`.
pub open spec fn ids_without(ids: Seq<Seq<char>>, others: Seq<Seq<char>>) -> Seq<Seq<char>>
    decreases ids.len(),
{
    if ids.len() == 0 {
        Seq::empty()
    } else if others.contains(ids.last()) {
        ids_without(ids.drop_last(), others)
    } else {
        ids_without(ids.drop_last(), others).push(ids.last())
    }
}

/// The ids that are not among the others.
pub fn remove_ids(ids: &Vec<String>, others: &Vec<String>) -> (r: Vec<String>)
    ensures
        text::texts(r@) == ids_without(text::texts(ids@), text::texts(others@)),
{
    let ghost all = text::texts(ids@);
    let mut out: Vec<String> = Vec::new();
    let mut i: usize = 0;
    while i < ids.len()
        invariant
            i <= ids.len(),
            all == text::texts(ids@),
            text::texts(out@) == ids_without(all.take(i as int), text::texts(others@)),
        decreases ids.len() - i,
    {
        assert(all.take(i + 1).drop_last() =~= all.take(i as int));
        assert(all.take(i + 1).last() == ids@[i as int]@);
        if !text::contains_text(others, ids[i].as_str()) {
            let ghost before = text::texts(out@);
            out.push(text::copy_text(ids[i].as_str()));
            assert(text::texts(out@) =~= before.push(ids@[i as int]@));
        }
        i += 1;
    }
    assert(all.take(i as int) =~= all);
    out
}

/// What `ids_without` leaves.
pub proof fn lemma_ids_without(ids: Seq<Seq<char>>, others: Seq<Seq<char>>)
    ensures
        forall|s: Seq<char>| #[trigger]
            ids_without(ids, others).contains(s) <==> ids.contains(s) && !others.contains(s),
    decreases ids.len(),
{
    if ids.len() > 0 {
        let init = ids.drop_last();
        lemma_ids_without(init, others);
        assert(ids =~= init.push(ids.last()));
        assert forall|s: Seq<char>| #[trigger]
            ids_without(ids, others).contains(s) <==> ids.contains(s) && !others.contains(s) by {
            text::lemma_push_contains(init, ids.last(), s);
            text::lemma_push_contains(ids_without(init, others), ids.last(), s);
        }
    }
}

impl ProviderSyncThreadKinds {
    pub fn new() -> (r: ProviderSyncThreadKinds)
        ensures
            r@ == (KindsView { subagents: Seq::empty(), users: Seq::empty() }),
    {
        let r = ProviderSyncThreadKinds {
            subagent_thread_ids: Vec::new(),
            explicit_user_thread_ids: Vec::new(),
        };
        assert(r@ =~= (KindsView { subagents: Seq::empty(), users: Seq::empty() }));
        r
    }

    /// Takes in what a row says about a thread.
    pub fn take_in_row(&mut self, thread_id: String, src: &str, thread_source: Option<&str>)
        ensures
            final(self)@ == with_kind(
                old(self)@,
                thread_id@,
                kind_of(src@, text::str_of(thread_source)),
            ),
    {
        match thread_kind(src, thread_source) {
            ThreadKind::Subagent => {
                text::insert_text(&mut self.subagent_thread_ids, thread_id);
            },
            ThreadKind::ExplicitUser => {
                text::insert_text(&mut self.explicit_user_thread_ids, thread_id);
            },
            ThreadKind::Unmarked => {},
        }
    }

    /// A thread that is the user's for certain is no other thread's.
    pub fn finish(&mut self)
        ensures
            final(self)@ == (KindsView {
                subagents: ids_without(old(self)@.subagents, old(self)@.users),
                ..old(self)@
            }),
    {
        let kept = remove_ids(&self.subagent_thread_ids, &self.explicit_user_thread_ids);
        self.subagent_thread_ids = kept;
    }
}

// ---------------------------------------------------------------------------
// Threads that belong in the catalog
// ---------------------------------------------------------------------------
/// A thread as it would stand in the catalog. Times are given by numbers in the
/// same order.
#[derive(Debug)]
pub struct CatalogRepairThread {
    pub id: String,
    pub display_title: String,
    pub source_created_at: i64,
    pub source_updated_at: i64,
    pub cwd: String,
    pub source_kind: String,
    pub source_detail: String,
    pub model_provider: String,
    pub git_branch: Option<String>,
    pub thread_source: Option<String>,
}

/// What a database says about a thread apart from what goes into the catalog.
#[derive(Debug)]
pub struct CatalogRowFacts {
    pub archived: i64,
    pub has_user_event: i64,
    pub agent_role: String,
    /// Whether the table has a column for the thread source.
    pub has_thread_source_column: bool,
    /// Whether the rollout file that the row names is there, or it names none.
    pub rollout_exists: bool,
}

#[derive(Debug)]
pub struct CatalogRepairObservedThread {
    pub thread: CatalogRepairThread,
    pub eligible: bool,
}

/// Whether a thread is not a root thread, for the catalog.
pub open spec fn is_non_root(
    src: Seq<char>,
    thread_source: Option<Seq<char>>,
    spawned: bool,
) -> bool {
    if source::structured_marks_non_root(src) || source::names_non_root(thread_source) {
        true
    } else if source::names_user(thread_source) {
        false
    } else {
        source::marks_non_root(src) || spawned
    }
}

/// Whether a thread belongs to a subagent. That a user made it counts for more than older
/// marks.
pub fn is_catalog_non_root_agent(
    source_kind: &str,
    thread_source: Option<&str>,
    thread_id: &str,
    spawned_child_ids: &Vec<String>,
) -> (r: bool)
    ensures
        r == is_non_root(
            source_kind@,
            text::str_of(thread_source),
            text::texts(spawned_child_ids@).contains(thread_id@),
        ),
{
    if source::source_structured_marks_non_root_agent(source_kind)
        || source::thread_source_marks_non_root(thread_source) {
        return true;
    }
    if source::thread_source_is_user(thread_source) {
        return false;
    }
    source::source_marks_non_root_agent(source_kind) || text::contains_text(
        spawned_child_ids,
        thread_id,
    )
}

/// What marks the user is stronger than plain text and spawned threads, and weaker
/// than a structured mark.
pub proof fn lemma_user_mark_is_authoritative(
    src: Seq<char>,
    thread_source: Option<Seq<char>>,
    spawned: bool,
)
    requires
        source::names_user(thread_source),
        !source::structured_marks_non_root(src),
    ensures
        !is_non_root(src, thread_source, spawned),
        kind_of(src, thread_source) == ThreadKind::ExplicitUser,
{
    if source::names_non_root(thread_source) {
        reveal_strlit("user");
        reveal_strlit("subagent");
        reveal_strlit("memory_consolidation");
        assert("user"@.len() != "subagent"@.len());
        assert("user"@.len() != "memory_consolidation"@.len());
    }
}

/// Whether a thread source names somebody other than the user.
pub open spec fn names_other(thread_source: Option<Seq<char>>) -> bool {
    match thread_source {
        Some(s) => !text::is_blank(s) && text::lower(text::trim(s)) != "user"@,
        None => false,
    }
}

/// Whether a thread belongs in the catalog, as far as a row tells.
pub open spec fn is_eligible(
    t: CatalogRepairThread,
    facts: CatalogRowFacts,
    spawned: bool,
) -> bool {
    &&& facts.archived == 0
    &&& facts.has_user_event == 1
    &&& text::is_blank(facts.agent_role@)
    &&& !(facts.has_thread_source_column && names_other(text::text_of(t.thread_source)))
    &&& text::lower(text::trim(t.source_kind@)) != "exec"@
    &&& !is_non_root(t.source_kind@, text::text_of(t.thread_source), spawned)
    &&& facts.rollout_exists
}

/// An optional text, borrowed.
pub fn option_str(o: &Option<String>) -> (r: Option<&str>)
    ensures
        text::str_of(r) == text::text_of(*o),
{
    match o {
        Some(s) => Some(s.as_str()),
        None => None,
    }
}

/// Whether a thread may have a row in a catalog.
pub fn catalog_row_is_eligible(
    thread: &CatalogRepairThread,
    facts: &CatalogRowFacts,
    spawned_child_ids: &Vec<String>,
) -> (r: bool)
    ensures
        r == is_eligible(
            *thread,
            *facts,
            text::texts(spawned_child_ids@).contains(thread.id@),
        ),
{
    let marked_non_user = facts.has_thread_source_column && match &thread.thread_source {
        Some(s) => !text::blank(s.as_str()) && !text::same_text(
            text::lower_text(text::trim_text(s.as_str()).as_str()).as_str(),
            "user",
        ),
        None => false,
    };
    let source_is_exec = text::same_text(
        text::lower_text(text::trim_text(thread.source_kind.as_str()).as_str()).as_str(),
        "exec",
    );
    let non_root = is_catalog_non_root_agent(
        thread.source_kind.as_str(),
        option_str(&thread.thread_source),
        thread.id.as_str(),
        spawned_child_ids,
    );
    facts.archived == 0 && facts.has_user_event == 1 && text::blank(facts.agent_role.as_str())
        && !marked_non_user && !source_is_exec && !non_root && facts.rollout_exists
}

/// The rollout file that has to be there for a thread to belong in the catalog. A row
/// need not name one.
pub fn catalog_rollout_path(rollout_path: &str) -> (r: Option<String>)
    ensures
        text::text_of(r) == if text::is_blank(rollout_path@) {
            None
        } else {
            Some(text::trim(rollout_path@))
        },
{
    let path = text::trim_text(rollout_path);
    if text::empty_text(path.as_str()) {
        None
    } else {
        Some(path)
    }
}

/// Whether what is seen now counts more than what was seen before: it is newer, or
/// it is as new and says that the thread does not belong in the catalog.
pub open spec fn supersedes(
    now: CatalogRepairObservedThread,
    before: CatalogRepairObservedThread,
) -> bool {
    now.thread.source_updated_at > before.thread.source_updated_at || (
    now.thread.source_updated_at == before.thread.source_updated_at && !now.eligible
        && before.eligible)
}

/// What is seen of all threads after one more row.
pub open spec fn with_observed(
    v: Seq<CatalogRepairObservedThread>,
    o: CatalogRepairObservedThread,
) -> Seq<CatalogRepairObservedThread>
    decreases v.len(),
{
    if v.len() == 0 {
        seq![o]
    } else if v[0].thread.id@ == o.thread.id@ {
        if supersedes(o, v[0]) {
            seq![o] + v.skip(1)
        } else {
            v
        }
    } else {
        seq![v[0]] + with_observed(v.skip(1), o)
    }
}

/// Takes in one more row about a thread.
pub fn observe_thread(
    observed: &mut Vec<CatalogRepairObservedThread>,
    thread: CatalogRepairThread,
    eligible: bool,
)
    ensures
        final(observed)@ == with_observed(
            old(observed)@,
            CatalogRepairObservedThread { thread, eligible },
        ),
{
    let entry = CatalogRepairObservedThread { thread, eligible };
    let ghost before = observed@;
    let ghost o = entry;
    let mut i: usize = 0;
    assert(before.skip(0) =~= before);
    assert(before.take(0) + with_observed(before, o) =~= with_observed(before, o));
    while i < observed.len()
        invariant
            i <= observed.len(),
            observed@ == before,
            before == old(observed)@,
            o == entry,
            o == (CatalogRepairObservedThread { thread, eligible }),
            with_observed(before, o) == before.take(i as int) + with_observed(
                before.skip(i as int),
                o,
            ),
        decreases observed.len() - i,
    {
        let ghost rest = before.skip(i as int);
        assert(rest[0] == before[i as int]);
        if text::same_text(observed[i].thread.id.as_str(), entry.thread.id.as_str()) {
            let newer = entry.thread.source_updated_at > observed[i].thread.source_updated_at || (
            entry.thread.source_updated_at == observed[i].thread.source_updated_at
                && !entry.eligible && observed[i].eligible);
            if newer {
                observed.set(i, entry);
                assert(observed@ =~= before.take(i as int) + (seq![o] + rest.skip(1)));
            } else {
                assert(before =~= before.take(i as int) + rest);
            }
            return;
        }
        proof {
            assert(rest.skip(1) =~= before.skip(i + 1));
            assert(before.take(i as int) + (seq![rest[0]] + with_observed(before.skip(i + 1), o))
                =~= before.take(i + 1) + with_observed(before.skip(i + 1), o));
        }
        i += 1;
    }
    proof {
        assert(before.take(i as int) =~= before);
        assert(before.skip(i as int) =~= Seq::<CatalogRepairObservedThread>::empty());
    }
    observed.push(entry);
    assert(observed@ =~= before + seq![o]);
}

/// Of two rows about a thread that are as new, one that says it does not belong in
/// the catalog is never superseded.
pub proof fn lemma_ineligible_wins_a_tie(
    now: CatalogRepairObservedThread,
    before: CatalogRepairObservedThread,
)
    requires
        now.thread.source_updated_at == before.thread.source_updated_at,
    ensures
        !before.eligible ==> !supersedes(now, before),
        !now.eligible && before.eligible ==> supersedes(now, before),
{
}

// ---------------------------------------------------------------------------
// The plan
// ---------------------------------------------------------------------------
/// Threads that the catalog of one database marks as no root threads.
#[derive(Debug)]
pub struct CatalogPathThreads {
    pub path: String,
    pub thread_ids: Vec<String>,
}

/// What is to be inserted into the catalogs and removed from them.
pub struct CatalogRepairPlan {
    pub threads: Vec<CatalogRepairThread>,
    pub non_root_thread_ids: Vec<String>,
    pub ineligible_thread_ids: Vec<String>,
    pub catalog_non_root_thread_ids: Vec<CatalogPathThreads>,
}

/// Whether a thread is asked for: any thread where none is named.
pub open spec fn is_requested(thread_ids: Option<Seq<Seq<char>>>, id: Seq<char>) -> bool {
    match thread_ids {
        Some(ids) => ids.contains(id),
        None => true,
    }
}

pub open spec fn request_of(thread_ids: Option<&Vec<String>>) -> Option<Seq<Seq<char>>> {
    match thread_ids {
        Some(ids) => Some(text::texts(ids@)),
        None => None,
    }
}

fn requested(thread_ids: Option<&Vec<String>>, id: &str) -> (r: bool)
    ensures
        r == is_requested(request_of(thread_ids), id@),
{
    match thread_ids {
        Some(ids) => text::contains_text(ids, id),
        None => true,
    }
}

/// The threads that are asked for and belong in the catalog.
pub open spec fn threads_to_insert(
    v: Seq<CatalogRepairObservedThread>,
    request: Option<Seq<Seq<char>>>,
) -> Seq<CatalogRepairThread>
    decreases v.len(),
{
    if v.len() == 0 {
        Seq::empty()
    } else {
        let before = threads_to_insert(v.drop_last(), request);
        if is_requested(request, v.last().thread.id@) && v.last().eligible {
            before.push(v.last().thread)
        } else {
            before
        }
    }
}

/// A reason to list a thread.
pub enum ListReason {
    /// The user is its source.
    User,
    /// It is not a root thread, given the threads that were spawned.
    NonRoot(Seq<Seq<char>>),
    /// It does not belong in the catalog.
    Ineligible,
}

pub open spec fn reason_holds(o: CatalogRepairObservedThread, reason: ListReason) -> bool {
    match reason {
        ListReason::User => source::names_user(text::text_of(o.thread.thread_source)),
        ListReason::NonRoot(spawned) => is_non_root(
            o.thread.source_kind@,
            text::text_of(o.thread.thread_source),
            spawned.contains(o.thread.id@),
        ),
        ListReason::Ineligible => !o.eligible,
    }
}

/// The threads that are asked for and for which a reason holds.
pub open spec fn listed_for(
    v: Seq<CatalogRepairObservedThread>,
    request: Option<Seq<Seq<char>>>,
    reason: ListReason,
) -> Seq<Seq<char>>
    decreases v.len(),
{
    if v.len() == 0 {
        Seq::empty()
    } else {
        let before = listed_for(v.drop_last(), request, reason);
        if is_requested(request, v.last().thread.id@) && reason_holds(v.last(), reason) {
            text::with_text(before, v.last().thread.id@)
        } else {
            before
        }
    }
}

/// Those of `ids` that are asked for and not the user's for certain.
pub open spec fn catalog_ids_kept(
    ids: Seq<Seq<char>>,
    request: Option<Seq<Seq<char>>>,
    users: Seq<Seq<char>>,
) -> Seq<Seq<char>>
    decreases ids.len(),
{
    if ids.len() == 0 {
        Seq::empty()
    } else {
        let before = catalog_ids_kept(ids.drop_last(), request, users);
        if is_requested(request, ids.last()) && !users.contains(ids.last()) {
            before.push(ids.last())
        } else {
            before
        }
    }
}

/// The threads that catalogs mark as no root threads, database by database.
#[verifier::ext_equal]
pub struct PathIdsView {
    pub path: Seq<char>,
    pub ids: Seq<Seq<char>>,
}

impl View for CatalogPathThreads {
    type V = PathIdsView;

    open spec fn view(&self) -> PathIdsView {
        PathIdsView { path: self.path@, ids: text::texts(self.thread_ids@) }
    }
}

pub open spec fn path_ids_of(v: Seq<CatalogPathThreads>) -> Seq<PathIdsView> {
    v.map_values(|p: CatalogPathThreads| p@)
}

/// What is left of the threads that catalogs mark, without empty lists.
pub open spec fn catalogs_kept(
    v: Seq<PathIdsView>,
    request: Option<Seq<Seq<char>>>,
    users: Seq<Seq<char>>,
) -> Seq<PathIdsView>
    decreases v.len(),
{
    if v.len() == 0 {
        Seq::empty()
    } else {
        let before = catalogs_kept(v.drop_last(), request, users);
        let ids = catalog_ids_kept(v.last().ids, request, users);
        if ids.len() == 0 {
            before
        } else {
            before.push(PathIdsView { path: v.last().path, ids })
        }
    }
}

/// The same thread once more.
pub fn copy_thread(t: &CatalogRepairThread) -> (r: CatalogRepairThread)
    ensures
        r == *t,
{
    CatalogRepairThread {
        id: t.id.clone(),
        display_title: t.display_title.clone(),
        source_created_at: t.source_created_at,
        source_updated_at: t.source_updated_at,
        cwd: t.cwd.clone(),
        source_kind: t.source_kind.clone(),
        source_detail: t.source_detail.clone(),
        model_provider: t.model_provider.clone(),
        git_branch: match &t.git_branch {
            Some(s) => Some(s.clone()),
            None => None,
        },
        thread_source: match &t.thread_source {
            Some(s) => Some(s.clone()),
            None => None,
        },
    }
}

fn keep_catalog_ids(
    ids: &Vec<String>,
    thread_ids: Option<&Vec<String>>,
    users: &Vec<String>,
) -> (r: Vec<String>)
    ensures
        text::texts(r@) == catalog_ids_kept(
            text::texts(ids@),
            request_of(thread_ids),
            text::texts(users@),
        ),
{
    let ghost all = text::texts(ids@);
    let mut out: Vec<String> = Vec::new();
    let mut i: usize = 0;
    while i < ids.len()
        invariant
            i <= ids.len(),
            all == text::texts(ids@),
            text::texts(out@) == catalog_ids_kept(
                all.take(i as int),
                request_of(thread_ids),
                text::texts(users@),
            ),
        decreases ids.len() - i,
    {
        assert(all.take(i + 1).drop_last() =~= all.take(i as int));
        assert(all.take(i + 1).last() == ids@[i as int]@);
        if requested(thread_ids, ids[i].as_str()) && !text::contains_text(users, ids[i].as_str()) {
            let ghost before = text::texts(out@);
            out.push(text::copy_text(ids[i].as_str()));
            assert(text::texts(out@) =~= before.push(ids@[i as int]@));
        }
        i += 1;
    }
    assert(all.take(i as int) =~= all);
    out
}

/// Whether a plan is the one that follows from what was seen of all threads, from the
/// spawned threads and from what the catalogs mark.
pub open spec fn is_plan(
    p: CatalogRepairPlan,
    observed: Seq<CatalogRepairObservedThread>,
    spawned: Seq<Seq<char>>,
    marked: Seq<PathIdsView>,
    request: Option<Seq<Seq<char>>>,
) -> bool {
    &&& p.threads@ == threads_to_insert(observed, request)
    &&& text::texts(p.non_root_thread_ids@) == listed_for(
        observed,
        request,
        ListReason::NonRoot(spawned),
    )
    &&& text::texts(p.ineligible_thread_ids@) == listed_for(
        observed,
        request,
        ListReason::Ineligible,
    )
    &&& path_ids_of(p.catalog_non_root_thread_ids@) == catalogs_kept(
        marked,
        request,
        listed_for(observed, request, ListReason::User),
    )
}

/// Works out what is to be inserted and removed, from what was seen of all threads
/// and what the catalogs mark. What only a catalog marks counts for that catalog
/// alone.
pub fn finish_catalog_repair_plan(
    observed: &Vec<CatalogRepairObservedThread>,
    spawned_child_ids: &Vec<String>,
    catalog_marked: &Vec<CatalogPathThreads>,
    thread_ids: Option<&Vec<String>>,
) -> (r: CatalogRepairPlan)
    ensures
        is_plan(
            r,
            observed@,
            text::texts(spawned_child_ids@),
            path_ids_of(catalog_marked@),
            request_of(thread_ids),
        ),
{
    let ghost request = request_of(thread_ids);
    let ghost spawned = text::texts(spawned_child_ids@);
    let mut threads: Vec<CatalogRepairThread> = Vec::new();
    let mut users: Vec<String> = Vec::new();
    let mut non_root: Vec<String> = Vec::new();
    let mut ineligible: Vec<String> = Vec::new();
    let mut i: usize = 0;
    assert(text::texts(Seq::<String>::empty()) =~= Seq::<Seq<char>>::empty());
    while i < observed.len()
        invariant
            i <= observed.len(),
            request == request_of(thread_ids),
            spawned == text::texts(spawned_child_ids@),
            threads@ == threads_to_insert(observed@.take(i as int), request),
            text::texts(users@) == listed_for(
                observed@.take(i as int),
                request,
                ListReason::User,
            ),
            text::texts(non_root@) == listed_for(
                observed@.take(i as int),
                request,
                ListReason::NonRoot(spawned),
            ),
            text::texts(ineligible@) == listed_for(
                observed@.take(i as int),
                request,
                ListReason::Ineligible,
            ),
        decreases observed.len() - i,
    {
        assert(observed@.take(i + 1).drop_last() =~= observed@.take(i as int));
        assert(observed@.take(i + 1).last() == observed@[i as int]);
        let o = &observed[i];
        if requested(thread_ids, o.thread.id.as_str()) {
            if o.eligible {
                threads.push(copy_thread(&o.thread));
            } else {
                text::insert_text(&mut ineligible, text::copy_text(o.thread.id.as_str()));
            }
            if source::thread_source_is_user(option_str(&o.thread.thread_source)) {
                text::insert_text(&mut users, text::copy_text(o.thread.id.as_str()));
            }
            if is_catalog_non_root_agent(
                o.thread.source_kind.as_str(),
                option_str(&o.thread.thread_source),
                o.thread.id.as_str(),
                spawned_child_ids,
            ) {
                text::insert_text(&mut non_root, text::copy_text(o.thread.id.as_str()));
            }
        }
        i += 1;
    }
    assert(observed@.take(i as int) =~= observed@);
    let ghost marked = path_ids_of(catalog_marked@);
    let mut kept: Vec<CatalogPathThreads> = Vec::new();
    let mut k: usize = 0;
    assert(path_ids_of(kept@) =~= Seq::<PathIdsView>::empty());
    while k < catalog_marked.len()
        invariant
            k <= catalog_marked.len(),
            request == request_of(thread_ids),
            marked == path_ids_of(catalog_marked@),
            path_ids_of(kept@) == catalogs_kept(
                marked.take(k as int),
                request,
                text::texts(users@),
            ),
        decreases catalog_marked.len() - k,
    {
        assert(marked.take(k + 1).drop_last() =~= marked.take(k as int));
        assert(marked.take(k + 1).last() == catalog_marked@[k as int]@);
        let ids = keep_catalog_ids(&catalog_marked[k].thread_ids, thread_ids, &users);
        assert(text::texts(ids@).len() == ids@.len());
        if ids.len() > 0 {
            let ghost before = path_ids_of(kept@);
            let entry = CatalogPathThreads {
                path: text::copy_text(catalog_marked[k].path.as_str()),
                thread_ids: ids,
            };
            let ghost v = entry@;
            kept.push(entry);
            assert(path_ids_of(kept@) =~= before.push(v));
        }
        k += 1;
    }
    assert(marked.take(k as int) =~= marked);
    CatalogRepairPlan {
        threads,
        non_root_thread_ids: non_root,
        ineligible_thread_ids: ineligible,
        catalog_non_root_thread_ids: kept,
    }
}

/// All that is listed for the database with this path.
pub open spec fn ids_for_path(v: Seq<PathIdsView>, path: Seq<char>) -> Seq<Seq<char>>
    decreases v.len(),
{
    if v.len() == 0 {
        Seq::empty()
    } else if v.last().path == path {
        text::with_texts(ids_for_path(v.drop_last(), path), v.last().ids)
    } else {
        ids_for_path(v.drop_last(), path)
    }
}

impl CatalogRepairPlan {
    /// What is removed from the catalog of the database with this path.
    pub open spec fn removals(self, path: Seq<char>) -> Seq<Seq<char>> {
        text::with_texts(
            text::with_texts(
                text::texts(self.non_root_thread_ids@),
                text::texts(self.ineligible_thread_ids@),
            ),
            ids_for_path(path_ids_of(self.catalog_non_root_thread_ids@), path),
        )
    }

    /// Whether something may have to be removed.
    pub fn has_cleanup_candidates(&self) -> (r: bool)
        ensures
            r == (self.non_root_thread_ids@.len() > 0 || self.ineligible_thread_ids@.len() > 0
                || exists|i: int|
                0 <= i < self.catalog_non_root_thread_ids@.len() && (
                #[trigger] self.catalog_non_root_thread_ids@[i]).thread_ids@.len() > 0),
    {
        if self.non_root_thread_ids.len() > 0 || self.ineligible_thread_ids.len() > 0 {
            return true;
        }
        let mut i: usize = 0;
        while i < self.catalog_non_root_thread_ids.len()
            invariant
                i <= self.catalog_non_root_thread_ids.len(),
                self.non_root_thread_ids@.len() == 0,
                self.ineligible_thread_ids@.len() == 0,
                forall|k: int|
                    0 <= k < i ==> (#[trigger] self.catalog_non_root_thread_ids@[k]).thread_ids@.len()
                        == 0,
            decreases self.catalog_non_root_thread_ids.len() - i,
        {
            if self.catalog_non_root_thread_ids[i].thread_ids.len() > 0 {
                return true;
            }
            i += 1;
        }
        false
    }

    /// What is to be removed from the catalog of the database with this path.
    pub fn cleanup_thread_ids_for_path(&self, path: &str) -> (r: Vec<String>)
        ensures
            text::texts(r@) == self.removals(path@),
    {
        let mut marked_here: Vec<String> = Vec::new();
        let ghost marked = path_ids_of(self.catalog_non_root_thread_ids@);
        let mut n: usize = 0;
        assert(text::texts(marked_here@) =~= Seq::<Seq<char>>::empty());
        while n < self.catalog_non_root_thread_ids.len()
            invariant
                n <= self.catalog_non_root_thread_ids.len(),
                marked == path_ids_of(self.catalog_non_root_thread_ids@),
                text::texts(marked_here@) == ids_for_path(marked.take(n as int), path@),
            decreases self.catalog_non_root_thread_ids.len() - n,
        {
            assert(marked.take(n + 1).drop_last() =~= marked.take(n as int));
            assert(marked.take(n + 1).last() == self.catalog_non_root_thread_ids@[n as int]@);
            let entry = &self.catalog_non_root_thread_ids[n];
            if text::same_text(entry.path.as_str(), path) {
                text::insert_texts(&mut marked_here, &entry.thread_ids);
            }
            n += 1;
        }
        assert(marked.take(n as int) =~= marked);
        let mut ids = text::copy_texts(&self.non_root_thread_ids);
        text::insert_texts(&mut ids, &self.ineligible_thread_ids);
        text::insert_texts(&mut ids, &marked_here);
        ids
    }
}

proof fn lemma_listed_for(
    v: Seq<CatalogRepairObservedThread>,
    request: Option<Seq<Seq<char>>>,
    reason: ListReason,
    id: Seq<char>,
)
    ensures
        listed_for(v, request, reason).contains(id) ==> exists|i: int|
            0 <= i < v.len() && (#[trigger] v[i]).thread.id@ == id && reason_holds(v[i], reason),
    decreases v.len(),
{
    if v.len() > 0 {
        let init = v.drop_last();
        lemma_listed_for(init, request, reason, id);
        if listed_for(v, request, reason).contains(id) {
            text::lemma_push_contains(
                listed_for(init, request, reason),
                v.last().thread.id@,
                id,
            );
            if listed_for(init, request, reason).contains(id) {
                let i = choose|i: int|
                    0 <= i < init.len() && (#[trigger] init[i]).thread.id@ == id && reason_holds(
                        init[i],
                        reason,
                    );
                assert(v[i] == init[i]);
            } else {
                assert(v[v.len() - 1].thread.id@ == id);
            }
        }
    }
}

proof fn lemma_inserted_thread(
    v: Seq<CatalogRepairObservedThread>,
    request: Option<Seq<Seq<char>>>,
    k: int,
)
    requires
        0 <= k < threads_to_insert(v, request).len(),
    ensures
        exists|i: int|
            0 <= i < v.len() && (#[trigger] v[i]).thread == threads_to_insert(v, request)[k]
                && v[i].eligible,
    decreases v.len(),
{
    if v.len() > 0 {
        let init = v.drop_last();
        if k < threads_to_insert(init, request).len() {
            lemma_inserted_thread(init, request, k);
            let i = choose|i: int|
                0 <= i < init.len() && (#[trigger] init[i]).thread == threads_to_insert(
                    init,
                    request,
                )[k] && init[i].eligible;
            assert(v[i] == init[i]);
        } else {
            assert(v[v.len() - 1].thread == threads_to_insert(v, request)[k]);
        }
    }
}

/// Whether no thread was seen twice.
pub open spec fn distinct_threads(v: Seq<CatalogRepairObservedThread>) -> bool {
    forall|i: int, j: int| 0 <= i < j < v.len() ==> v[i].thread.id@ != v[j].thread.id@
}

/// Taking in rows keeps the threads distinct.
proof fn lemma_observed_distinct(
    v: Seq<CatalogRepairObservedThread>,
    o: CatalogRepairObservedThread,
)
    requires
        distinct_threads(v),
    ensures
        distinct_threads(with_observed(v, o)),
        forall|i: int|
            0 <= i < with_observed(v, o).len() ==> (#[trigger] with_observed(v, o)[i]).thread.id@
                == o.thread.id@ || exists|k: int|
                0 <= k < v.len() && (#[trigger] v[k]).thread.id@ == with_observed(
                    v,
                    o,
                )[i].thread.id@,
    decreases v.len(),
{
    if v.len() > 0 {
        let r = with_observed(v, o);
        let rest = v.skip(1);
        assert(distinct_threads(rest)) by {
            assert forall|i: int, j: int| 0 <= i < j < rest.len() implies rest[i].thread.id@
                != rest[j].thread.id@ by {
                assert(v[i + 1].thread.id@ != v[j + 1].thread.id@);
            }
        }
        lemma_observed_distinct(rest, o);
        if v[0].thread.id@ == o.thread.id@ {
            assert forall|i: int| 0 <= i < r.len() implies (#[trigger] r[i]).thread.id@
                == v[i].thread.id@ by {
                if i > 0 && supersedes(o, v[0]) {
                    assert(r[i] == rest[i - 1]);
                }
            }
            assert forall|i: int, j: int| 0 <= i < j < r.len() implies r[i].thread.id@
                != r[j].thread.id@ by {
                assert(v[i].thread.id@ != v[j].thread.id@);
            }
        } else {
            let later = with_observed(rest, o);
            assert(r =~= seq![v[0]] + later);
            assert forall|i: int| 0 <= i < r.len() implies (#[trigger] r[i]).thread.id@
                == o.thread.id@ || exists|k: int|
                0 <= k < v.len() && (#[trigger] v[k]).thread.id@ == r[i].thread.id@ by {
                if i == 0 {
                    assert(v[0].thread.id@ == r[0].thread.id@);
                } else {
                    assert(r[i] == later[i - 1]);
                    if later[i - 1].thread.id@ != o.thread.id@ {
                        let k = choose|k: int|
                            0 <= k < rest.len() && (#[trigger] rest[k]).thread.id@ == later[i
                                - 1].thread.id@;
                        assert(v[k + 1].thread.id@ == r[i].thread.id@);
                    }
                }
            }
            assert forall|i: int, j: int| 0 <= i < j < r.len() implies r[i].thread.id@
                != r[j].thread.id@ by {
                assert(r[j] == later[j - 1]);
                if i == 0 {
                    if later[j - 1].thread.id@ != o.thread.id@ {
                        let k = choose|k: int|
                            0 <= k < rest.len() && (#[trigger] rest[k]).thread.id@ == later[j
                                - 1].thread.id@;
                        assert(v[0].thread.id@ != v[k + 1].thread.id@);
                    }
                } else {
                    assert(r[i] == later[i - 1]);
                }
            }
        }
    }
}

/// No thread is planned to be inserted that is planned to be removed everywhere.
proof fn lemma_plan_is_consistent(
    v: Seq<CatalogRepairObservedThread>,
    request: Option<Seq<Seq<char>>>,
    spawned: Seq<Seq<char>>,
    k: int,
)
    requires
        distinct_threads(v),
        forall|i: int|
            0 <= i < v.len() && (#[trigger] v[i]).eligible ==> !reason_holds(
                v[i],
                ListReason::NonRoot(spawned),
            ),
        0 <= k < threads_to_insert(v, request).len(),
    ensures
        ({
            let id = threads_to_insert(v, request)[k].id@;
            &&& !listed_for(v, request, ListReason::NonRoot(spawned)).contains(id)
            &&& !listed_for(v, request, ListReason::Ineligible).contains(id)
        }),
{
    let id = threads_to_insert(v, request)[k].id@;
    lemma_inserted_thread(v, request, k);
    let i = choose|i: int|
        0 <= i < v.len() && (#[trigger] v[i]).thread == threads_to_insert(v, request)[k]
            && v[i].eligible;
    lemma_listed_for(v, request, ListReason::NonRoot(spawned), id);
    lemma_listed_for(v, request, ListReason::Ineligible, id);
    if listed_for(v, request, ListReason::NonRoot(spawned)).contains(id) {
        let j = choose|j: int|
            0 <= j < v.len() && (#[trigger] v[j]).thread.id@ == id && reason_holds(
                v[j],
                ListReason::NonRoot(spawned),
            );
        if i < j {
            assert(v[i].thread.id@ != v[j].thread.id@);
        } else if j < i {
            assert(v[j].thread.id@ != v[i].thread.id@);
        }
    }
    if listed_for(v, request, ListReason::Ineligible).contains(id) {
        let j = choose|j: int|
            0 <= j < v.len() && (#[trigger] v[j]).thread.id@ == id && reason_holds(
                v[j],
                ListReason::Ineligible,
            );
        if i < j {
            assert(v[i].thread.id@ != v[j].thread.id@);
        } else if j < i {
            assert(v[j].thread.id@ != v[i].thread.id@);
        }
    }
}

// ---------------------------------------------------------------------------
// The plan for several databases
// ---------------------------------------------------------------------------
/// What a row of the catalog says about the source of a thread.
#[derive(Debug)]
pub struct CatalogMark {
    pub thread_id: String,
    pub source_kind: String,
    pub thread_source: Option<String>,
}

/// A row of the table of threads.
#[derive(Debug)]
pub struct CatalogThreadRow {
    pub thread: CatalogRepairThread,
    pub facts: CatalogRowFacts,
}

/// What the plan is made from, of one database.
#[derive(Debug)]
pub struct CatalogDatabase {
    pub path: String,
    pub spawned_child_ids: Vec<String>,
    pub marks: Vec<CatalogMark>,
    pub rows: Vec<CatalogThreadRow>,
}

/// The threads that other threads spawned.
pub open spec fn spawned_in(dbs: Seq<CatalogDatabase>) -> Seq<Seq<char>>
    decreases dbs.len(),
{
    if dbs.len() == 0 {
        Seq::empty()
    } else {
        text::with_texts(
            spawned_in(dbs.drop_last()),
            text::texts(dbs.last().spawned_child_ids@),
        )
    }
}

pub open spec fn mark_holds(m: CatalogMark, spawned: Seq<Seq<char>>) -> bool {
    is_non_root(
        m.source_kind@,
        text::text_of(m.thread_source),
        spawned.contains(m.thread_id@),
    )
}

/// The threads that the rows of a catalog mark as no root threads.
pub open spec fn marked_ids(marks: Seq<CatalogMark>, spawned: Seq<Seq<char>>) -> Seq<Seq<char>>
    decreases marks.len(),
{
    if marks.len() == 0 {
        Seq::empty()
    } else {
        let before = marked_ids(marks.drop_last(), spawned);
        if mark_holds(marks.last(), spawned) {
            text::with_text(before, marks.last().thread_id@)
        } else {
            before
        }
    }
}

pub open spec fn marked_in(
    dbs: Seq<CatalogDatabase>,
    spawned: Seq<Seq<char>>,
) -> Seq<PathIdsView> {
    dbs.map_values(
        |db: CatalogDatabase|
            PathIdsView { path: db.path@, ids: marked_ids(db.marks@, spawned) },
    )
}

/// What is seen of a thread in a row.
pub open spec fn observation(
    row: CatalogThreadRow,
    target_provider: String,
    spawned: Seq<Seq<char>>,
) -> CatalogRepairObservedThread {
    let thread = CatalogRepairThread { model_provider: target_provider, ..row.thread };
    CatalogRepairObservedThread {
        thread,
        eligible: is_eligible(thread, row.facts, spawned.contains(thread.id@)),
    }
}

/// What is seen of all threads after some rows.
pub open spec fn observed_rows(
    before: Seq<CatalogRepairObservedThread>,
    rows: Seq<CatalogThreadRow>,
    target_provider: String,
    spawned: Seq<Seq<char>>,
) -> Seq<CatalogRepairObservedThread>
    decreases rows.len(),
{
    if rows.len() == 0 {
        before
    } else {
        with_observed(
            observed_rows(before, rows.drop_last(), target_provider, spawned),
            observation(rows.last(), target_provider, spawned),
        )
    }
}

/// What is seen of all threads in some databases.
pub open spec fn observed_in(
    dbs: Seq<CatalogDatabase>,
    target_provider: String,
    spawned: Seq<Seq<char>>,
) -> Seq<CatalogRepairObservedThread>
    decreases dbs.len(),
{
    if dbs.len() == 0 {
        Seq::empty()
    } else {
        observed_rows(
            observed_in(dbs.drop_last(), target_provider, spawned),
            dbs.last().rows@,
            target_provider,
            spawned,
        )
    }
}

/// All threads that other threads spawned, each once.
pub fn collect_spawned_child_thread_ids(dbs: &Vec<CatalogDatabase>) -> (r: Vec<String>)
    ensures
        text::texts(r@) == spawned_in(dbs@),
{
    let mut ids: Vec<String> = Vec::new();
    let mut i: usize = 0;
    assert(text::texts(ids@) =~= Seq::<Seq<char>>::empty());
    while i < dbs.len()
        invariant
            i <= dbs.len(),
            text::texts(ids@) == spawned_in(dbs@.take(i as int)),
        decreases dbs.len() - i,
    {
        assert(dbs@.take(i + 1).drop_last() =~= dbs@.take(i as int));
        text::insert_texts(&mut ids, &dbs[i].spawned_child_ids);
        i += 1;
    }
    assert(dbs@.take(i as int) =~= dbs@);
    ids
}

fn marked_thread_ids(marks: &Vec<CatalogMark>, spawned_child_ids: &Vec<String>) -> (r: Vec<String>)
    ensures
        text::texts(r@) == marked_ids(marks@, text::texts(spawned_child_ids@)),
{
    let mut ids: Vec<String> = Vec::new();
    let mut i: usize = 0;
    assert(text::texts(ids@) =~= Seq::<Seq<char>>::empty());
    while i < marks.len()
        invariant
            i <= marks.len(),
            text::texts(ids@) == marked_ids(
                marks@.take(i as int),
                text::texts(spawned_child_ids@),
            ),
        decreases marks.len() - i,
    {
        assert(marks@.take(i + 1).drop_last() =~= marks@.take(i as int));
        let m = &marks[i];
        if is_catalog_non_root_agent(
            m.source_kind.as_str(),
            option_str(&m.thread_source),
            m.thread_id.as_str(),
            spawned_child_ids,
        ) {
            text::insert_text(&mut ids, text::copy_text(m.thread_id.as_str()));
        }
        i += 1;
    }
    assert(marks@.take(i as int) =~= marks@);
    ids
}

/// The threads that the catalogs mark as no root threads, database by database.
pub fn collect_catalog_marked_non_root_thread_ids(
    dbs: &Vec<CatalogDatabase>,
    spawned_child_ids: &Vec<String>,
) -> (r: Vec<CatalogPathThreads>)
    ensures
        path_ids_of(r@) == marked_in(dbs@, text::texts(spawned_child_ids@)),
{
    let ghost spawned = text::texts(spawned_child_ids@);
    let mut out: Vec<CatalogPathThreads> = Vec::new();
    let mut i: usize = 0;
    while i < dbs.len()
        invariant
            i <= dbs.len(),
            spawned == text::texts(spawned_child_ids@),
            path_ids_of(out@) == marked_in(dbs@, spawned).take(i as int),
        decreases dbs.len() - i,
    {
        let ghost before = path_ids_of(out@);
        let entry = CatalogPathThreads {
            path: text::copy_text(dbs[i].path.as_str()),
            thread_ids: marked_thread_ids(&dbs[i].marks, spawned_child_ids),
        };
        assert(entry@ == marked_in(dbs@, spawned)[i as int]);
        let ghost v = entry@;
        out.push(entry);
        assert(path_ids_of(out@) =~= before.push(v));
        i += 1;
    }
    out
}

fn observe_rows(
    observed: &mut Vec<CatalogRepairObservedThread>,
    rows: &Vec<CatalogThreadRow>,
    target_provider: &String,
    spawned_child_ids: &Vec<String>,
)
    ensures
        final(observed)@ == observed_rows(
            old(observed)@,
            rows@,
            *target_provider,
            text::texts(spawned_child_ids@),
        ),
{
    let ghost before = observed@;
    let ghost spawned = text::texts(spawned_child_ids@);
    let mut i: usize = 0;
    while i < rows.len()
        invariant
            i <= rows.len(),
            spawned == text::texts(spawned_child_ids@),
            observed@ == observed_rows(before, rows@.take(i as int), *target_provider, spawned),
        decreases rows.len() - i,
    {
        assert(rows@.take(i + 1).drop_last() =~= rows@.take(i as int));
        let mut thread = copy_thread(&rows[i].thread);
        thread.model_provider = target_provider.clone();
        let eligible = catalog_row_is_eligible(&thread, &rows[i].facts, spawned_child_ids);
        assert((CatalogRepairObservedThread { thread, eligible }) == observation(
            rows@[i as int],
            *target_provider,
            spawned,
        ));
        observe_thread(observed, thread, eligible);
        i += 1;
    }
    assert(rows@.take(i as int) =~= rows@);
}

/// Works out what is to be inserted into the catalogs of some databases and removed
/// from them, for all threads or for those that are named.
pub fn collect_catalog_repair_plan(
    dbs: &Vec<CatalogDatabase>,
    target_provider: &String,
    thread_ids: Option<&Vec<String>>,
) -> (r: CatalogRepairPlan)
    ensures
        is_plan(
            r,
            observed_in(dbs@, *target_provider, spawned_in(dbs@)),
            spawned_in(dbs@),
            marked_in(dbs@, spawned_in(dbs@)),
            request_of(thread_ids),
        ),
{
    let spawned_child_ids = collect_spawned_child_thread_ids(dbs);
    let marked = collect_catalog_marked_non_root_thread_ids(dbs, &spawned_child_ids);
    let ghost spawned = spawned_in(dbs@);
    let mut observed: Vec<CatalogRepairObservedThread> = Vec::new();
    let mut i: usize = 0;
    while i < dbs.len()
        invariant
            i <= dbs.len(),
            spawned == text::texts(spawned_child_ids@),
            observed@ == observed_in(dbs@.take(i as int), *target_provider, spawned),
        decreases dbs.len() - i,
    {
        assert(dbs@.take(i + 1).drop_last() =~= dbs@.take(i as int));
        observe_rows(&mut observed, &dbs[i].rows, target_provider, &spawned_child_ids);
        i += 1;
    }
    assert(dbs@.take(i as int) =~= dbs@);
    finish_catalog_repair_plan(&observed, &spawned_child_ids, &marked, thread_ids)
}

/// Whether no thread was seen twice, and none that belongs in the catalog is marked as
/// no root thread.
pub open spec fn consistent(
    v: Seq<CatalogRepairObservedThread>,
    spawned: Seq<Seq<char>>,
) -> bool {
    &&& distinct_threads(v)
    &&& forall|i: int|
        0 <= i < v.len() && (#[trigger] v[i]).eligible ==> !reason_holds(
            v[i],
            ListReason::NonRoot(spawned),
        )
}

proof fn lemma_observed_holds(
    v: Seq<CatalogRepairObservedThread>,
    o: CatalogRepairObservedThread,
    i: int,
)
    requires
        0 <= i < with_observed(v, o).len(),
    ensures
        with_observed(v, o)[i] == o || (exists|k: int|
            0 <= k < v.len() && #[trigger] v[k] == with_observed(v, o)[i]),
    decreases v.len(),
{
    if v.len() > 0 {
        let r = with_observed(v, o);
        let rest = v.skip(1);
        if v[0].thread.id@ == o.thread.id@ {
            if supersedes(o, v[0]) && i > 0 {
                assert(r[i] == v[i]);
            }
        } else if i == 0 {
            assert(r[0] == v[0]);
        } else {
            lemma_observed_holds(rest, o, i - 1);
            assert(r[i] == with_observed(rest, o)[i - 1]);
            if r[i] != o {
                let k = choose|k: int| 0 <= k < rest.len() && #[trigger] rest[k] == r[i];
                assert(v[k + 1] == r[i]);
            }
        }
    }
}

proof fn lemma_rows_stay_consistent(
    before: Seq<CatalogRepairObservedThread>,
    rows: Seq<CatalogThreadRow>,
    target_provider: String,
    spawned: Seq<Seq<char>>,
)
    requires
        consistent(before, spawned),
    ensures
        consistent(observed_rows(before, rows, target_provider, spawned), spawned),
    decreases rows.len(),
{
    if rows.len() > 0 {
        lemma_rows_stay_consistent(before, rows.drop_last(), target_provider, spawned);
        let v = observed_rows(before, rows.drop_last(), target_provider, spawned);
        let o = observation(rows.last(), target_provider, spawned);
        let r = with_observed(v, o);
        lemma_observed_distinct(v, o);
        assert forall|i: int| 0 <= i < r.len() && (#[trigger] r[i]).eligible implies !reason_holds(
            r[i],
            ListReason::NonRoot(spawned),
        ) by {
            lemma_observed_holds(v, o, i);
        }
    }
}

/// What is seen in some databases is consistent.
pub proof fn lemma_observed_consistent(
    dbs: Seq<CatalogDatabase>,
    target_provider: String,
    spawned: Seq<Seq<char>>,
)
    ensures
        consistent(observed_in(dbs, target_provider, spawned), spawned),
    decreases dbs.len(),
{
    if dbs.len() > 0 {
        lemma_observed_consistent(dbs.drop_last(), target_provider, spawned);
        lemma_rows_stay_consistent(
            observed_in(dbs.drop_last(), target_provider, spawned),
            dbs.last().rows@,
            target_provider,
            spawned,
        );
    }
}

/// No thread is planned to be inserted that is planned to be removed from every
/// catalog.
pub proof fn lemma_no_thread_is_inserted_and_removed(
    p: CatalogRepairPlan,
    dbs: Seq<CatalogDatabase>,
    target_provider: String,
    request: Option<Seq<Seq<char>>>,
    k: int,
)
    requires
        is_plan(
            p,
            observed_in(dbs, target_provider, spawned_in(dbs)),
            spawned_in(dbs),
            marked_in(dbs, spawned_in(dbs)),
            request,
        ),
        0 <= k < p.threads@.len(),
    ensures
        !text::texts(p.non_root_thread_ids@).contains(p.threads@[k].id@),
        !text::texts(p.ineligible_thread_ids@).contains(p.threads@[k].id@),
{
    lemma_observed_consistent(dbs, target_provider, spawned_in(dbs));
    lemma_plan_is_consistent(
        observed_in(dbs, target_provider, spawned_in(dbs)),
        request,
        spawned_in(dbs),
        k,
    );
}

proof fn lemma_kept_ids(
    ids: Seq<Seq<char>>,
    request: Option<Seq<Seq<char>>>,
    users: Seq<Seq<char>>,
    id: Seq<char>,
)
    ensures
        catalog_ids_kept(ids, request, users).contains(id) ==> ids.contains(id)
            && !users.contains(id) && is_requested(request, id),
    decreases ids.len(),
{
    if ids.len() > 0 {
        let init = ids.drop_last();
        lemma_kept_ids(init, request, users, id);
        assert(ids =~= init.push(ids.last()));
        text::lemma_push_contains(init, ids.last(), id);
        text::lemma_push_contains(
            catalog_ids_kept(init, request, users),
            ids.last(),
            id,
        );
    }
}

proof fn lemma_kept_catalogs(
    v: Seq<PathIdsView>,
    request: Option<Seq<Seq<char>>>,
    users: Seq<Seq<char>>,
    path: Seq<char>,
    id: Seq<char>,
)
    ensures
        ids_for_path(catalogs_kept(v, request, users), path).contains(id) ==> !users.contains(id)
            && is_requested(request, id) && exists|i: int|
            0 <= i < v.len() && (#[trigger] v[i]).path == path && v[i].ids.contains(id),
    decreases v.len(),
{
    if v.len() > 0 {
        let init = v.drop_last();
        lemma_kept_catalogs(init, request, users, path, id);
        let before = catalogs_kept(init, request, users);
        let ids = catalog_ids_kept(v.last().ids, request, users);
        let whole = catalogs_kept(v, request, users);
        if ids_for_path(whole, path).contains(id) {
            if ids.len() > 0 {
                assert(whole.drop_last() =~= before);
                assert(whole.last() == (PathIdsView { path: v.last().path, ids }));
                text::lemma_with_texts(ids_for_path(before, path), ids);
            }
            if ids_for_path(before, path).contains(id) {
                let i = choose|i: int|
                    0 <= i < init.len() && (#[trigger] init[i]).path == path
                        && init[i].ids.contains(id);
                assert(v[i] == init[i]);
            } else {
                lemma_kept_ids(v.last().ids, request, users, id);
                assert(v[v.len() - 1].path == path);
            }
        }
    }
}

/// What only a catalog says removes a row of that catalog alone, and never that of a
/// thread that is the user's for certain: a thread is removed from the catalog of a
/// database because of what was seen of it in the tables of threads, or because a row
/// of the catalog of that database marks it.
pub proof fn lemma_catalog_marks_stay_in_place(
    p: CatalogRepairPlan,
    dbs: Seq<CatalogDatabase>,
    target_provider: String,
    request: Option<Seq<Seq<char>>>,
    path: Seq<char>,
    id: Seq<char>,
)
    requires
        is_plan(
            p,
            observed_in(dbs, target_provider, spawned_in(dbs)),
            spawned_in(dbs),
            marked_in(dbs, spawned_in(dbs)),
            request,
        ),
        p.removals(path).contains(id),
        !text::texts(p.non_root_thread_ids@).contains(id),
        !text::texts(p.ineligible_thread_ids@).contains(id),
    ensures
        is_requested(request, id),
        !listed_for(
            observed_in(dbs, target_provider, spawned_in(dbs)),
            request,
            ListReason::User,
        ).contains(id),
        exists|i: int|
            0 <= i < dbs.len() && (#[trigger] dbs[i]).path@ == path && marked_ids(
                dbs[i].marks@,
                spawned_in(dbs),
            ).contains(id),
{
    let observed = observed_in(dbs, target_provider, spawned_in(dbs));
    let users = listed_for(observed, request, ListReason::User);
    let marked = marked_in(dbs, spawned_in(dbs));
    let non_root = text::texts(p.non_root_thread_ids@);
    let ineligible = text::texts(p.ineligible_thread_ids@);
    let here = ids_for_path(path_ids_of(p.catalog_non_root_thread_ids@), path);
    text::lemma_with_texts(text::with_texts(non_root, ineligible), here);
    text::lemma_with_texts(non_root, ineligible);
    lemma_kept_catalogs(marked, request, users, path, id);
    let i = choose|i: int|
        0 <= i < marked.len() && (#[trigger] marked[i]).path == path && marked[i].ids.contains(id);
    assert(dbs[i].path@ == path);
}

// ---------------------------------------------------------------------------
// What decides over a thread
// ---------------------------------------------------------------------------
/// Whether something in a row marks its thread as nobody's but an agent's for certain.
pub open spec fn is_surely_non_root(src: Seq<char>, thread_source: Option<Seq<char>>) -> bool {
    ||| json::parsed_json(text::trim(src)) matches Some(v) && source::value_marks_non_root(v)
    ||| thread_source matches Some(s) && (text::lower(text::trim(s)) == "subagent"@ || text::lower(
        text::trim(s),
    ) == "memory_consolidation"@)
}

/// A structured mark and a recorded source of another kind count most; then it counts that
/// the user is the source; then a mark in plain text, and that the thread was spawned.
pub proof fn lemma_what_counts_most(
    src: Seq<char>,
    thread_source: Option<Seq<char>>,
    spawned: bool,
)
    ensures
        ({
            let sure = is_surely_non_root(src, thread_source);
            let user = thread_source matches Some(s) && text::lower(text::trim(s)) == "user"@;
            let plain = source::text_marks_non_root(text::trim(src));
            &&& sure ==> is_non_root(src, thread_source, spawned) && kind_of(src, thread_source)
                == ThreadKind::Subagent
            &&& !sure && user ==> !is_non_root(src, thread_source, spawned) && kind_of(
                src,
                thread_source,
            ) == ThreadKind::ExplicitUser
            &&& !sure && !user && plain ==> is_non_root(src, thread_source, spawned) && kind_of(
                src,
                thread_source,
            ) == ThreadKind::Subagent
            &&& !sure && !user && !plain ==> is_non_root(src, thread_source, spawned) == spawned
                && kind_of(src, thread_source) == ThreadKind::Unmarked
        }),
{
    text::lemma_trim_splits(src);
    text::lemma_trimmed_is_kept(text::trim(src));
}

/// Each kind of thread goes into the list of its kind, once; a thread of no certain kind
/// goes into none.
pub proof fn lemma_kinds_are_listed_apart(v: KindsView, id: Seq<char>, other: Seq<char>)
    ensures
        with_kind(v, id, ThreadKind::Unmarked) == v,
        with_kind(v, id, ThreadKind::Subagent).users == v.users,
        with_kind(v, id, ThreadKind::ExplicitUser).subagents == v.subagents,
        with_kind(v, id, ThreadKind::Subagent).subagents.contains(other) <==> v.subagents.contains(
            other,
        ) || other == id,
        with_kind(v, id, ThreadKind::ExplicitUser).users.contains(other) <==> v.users.contains(
            other,
        ) || other == id,
{
    text::lemma_push_contains(v.subagents, id, other);
    text::lemma_push_contains(v.users, id, other);
}

/// Removing some ids from a list keeps all others, in their order and as often as they
/// stand there.
pub proof fn lemma_ids_without_keeps_the_rest(
    ids: Seq<Seq<char>>,
    others: Seq<Seq<char>>,
    id: Seq<char>,
)
    ensures
        ids_without(Seq::empty(), others) == Seq::<Seq<char>>::empty(),
        others.contains(id) ==> ids_without(ids.push(id), others) == ids_without(ids, others),
        !others.contains(id) ==> ids_without(ids.push(id), others) == ids_without(
            ids,
            others,
        ).push(id),
{
    assert(ids.push(id).drop_last() =~= ids);
}

/// A thread belongs in the catalog where nothing speaks against it, and anything may: that
/// it is archived, that the user never wrote in it, that it has the role of an agent, that
/// somebody other than the user is its source, that it was run by `exec`, that it is not a
/// root thread, and that its rollout file is gone.
pub proof fn lemma_what_keeps_a_thread_out(
    t: CatalogRepairThread,
    facts: CatalogRowFacts,
    spawned: bool,
)
    ensures
        ({
            let other_source = facts.has_thread_source_column && (t.thread_source matches Some(s)
                && !text::all_white(s@) && text::lower(text::trim(s@)) != "user"@);
            let against = ({
                ||| facts.archived != 0
                ||| facts.has_user_event != 1
                ||| !text::all_white(facts.agent_role@)
                ||| other_source
                ||| text::lower(text::trim(t.source_kind@)) == "exec"@
                ||| is_non_root(t.source_kind@, text::text_of(t.thread_source), spawned)
                ||| !facts.rollout_exists
            });
            is_eligible(t, facts, spawned) <==> !against
        }),
{
    text::lemma_blank_is_white_space(facts.agent_role@);
    if let Some(s) = t.thread_source {
        text::lemma_blank_is_white_space(s@);
    }
}

/// A row is taken over as it stands, with the target as the provider of its thread.
pub proof fn lemma_observation_keeps_the_thread(
    row: CatalogThreadRow,
    target_provider: String,
    spawned: Seq<Seq<char>>,
)
    ensures
        ({
            let o = observation(row, target_provider, spawned);
            &&& o.thread.id == row.thread.id
            &&& o.thread.display_title == row.thread.display_title
            &&& o.thread.source_created_at == row.thread.source_created_at
            &&& o.thread.source_updated_at == row.thread.source_updated_at
            &&& o.thread.cwd == row.thread.cwd
            &&& o.thread.source_kind == row.thread.source_kind
            &&& o.thread.source_detail == row.thread.source_detail
            &&& o.thread.git_branch == row.thread.git_branch
            &&& o.thread.thread_source == row.thread.thread_source
            &&& o.thread.model_provider == target_provider
            &&& o.eligible == is_eligible(
                o.thread,
                row.facts,
                spawned.contains(row.thread.id@),
            )
        }),
{
}

/// Whether what one row says of a thread counts at least as much as what another says: it
/// is newer, or it is as new and does not say more in favour of the thread.
pub open spec fn counts_as_much(
    a: CatalogRepairObservedThread,
    b: CatalogRepairObservedThread,
) -> bool {
    ||| a.thread.source_updated_at > b.thread.source_updated_at
    ||| a.thread.source_updated_at == b.thread.source_updated_at && (a.eligible ==> b.eligible)
}

/// Whether what is known of a thread counts at least as much as `o`.
pub open spec fn outdoes(
    v: Seq<CatalogRepairObservedThread>,
    o: CatalogRepairObservedThread,
) -> bool {
    exists|i: int|
        0 <= i < v.len() && (#[trigger] v[i]).thread.id@ == o.thread.id@ && counts_as_much(v[i], o)
}

/// After one more row is seen, what is known of its thread counts at least as much as that
/// row and as all that was known before. Nothing is known that no row said.
pub proof fn lemma_newest_row_counts(
    v: Seq<CatalogRepairObservedThread>,
    o: CatalogRepairObservedThread,
    before: CatalogRepairObservedThread,
)
    ensures
        outdoes(with_observed(v, o), o),
        outdoes(v, before) ==> outdoes(with_observed(v, o), before),
        forall|i: int|
            0 <= i < with_observed(v, o).len() ==> (#[trigger] with_observed(v, o)[i] == o
                || v.contains(with_observed(v, o)[i])),
    decreases v.len(),
{
    let w = with_observed(v, o);
    if v.len() == 0 {
        assert(w[0] == o);
    } else if v[0].thread.id@ == o.thread.id@ {
        assert(w[0].thread.id@ == o.thread.id@ && counts_as_much(w[0], o));
        if outdoes(v, before) {
            let i = choose|i: int|
                0 <= i < v.len() && (#[trigger] v[i]).thread.id@ == before.thread.id@
                    && counts_as_much(v[i], before);
            if i == 0 {
                assert(w[0].thread.id@ == before.thread.id@ && counts_as_much(w[0], before));
            } else {
                assert(w[i] == v[i]);
            }
        }
        assert forall|i: int| 0 <= i < w.len() implies (#[trigger] w[i] == o || v.contains(
            w[i],
        )) by {
            if i > 0 {
                assert(w[i] == v[i]);
            }
        }
    } else {
        let rest = v.skip(1);
        let u = with_observed(rest, o);
        lemma_newest_row_counts(rest, o, before);
        assert(w == seq![v[0]] + u);
        let k = choose|k: int|
            0 <= k < u.len() && (#[trigger] u[k]).thread.id@ == o.thread.id@ && counts_as_much(
                u[k],
                o,
            );
        assert(w[k + 1] == u[k]);
        if outdoes(v, before) {
            let i = choose|i: int|
                0 <= i < v.len() && (#[trigger] v[i]).thread.id@ == before.thread.id@
                    && counts_as_much(v[i], before);
            if i == 0 {
                assert(w[0] == v[0]);
            } else {
                assert(rest[i - 1] == v[i]);
                assert(outdoes(rest, before));
                let j = choose|j: int|
                    0 <= j < u.len() && (#[trigger] u[j]).thread.id@ == before.thread.id@
                        && counts_as_much(u[j], before);
                assert(w[j + 1] == u[j]);
            }
        }
        assert forall|i: int| 0 <= i < w.len() implies (#[trigger] w[i] == o || v.contains(
            w[i],
        )) by {
            if i == 0 {
                assert(w[0] == v[0]);
            } else {
                assert(w[i] == u[i - 1]);
                if u[i - 1] != o {
                    let j = choose|j: int| 0 <= j < rest.len() && rest[j] == u[i - 1];
                    assert(v[j + 1] == w[i]);
                }
            }
        }
    }
}

proof fn lemma_rows_are_outdone(
    before: Seq<CatalogRepairObservedThread>,
    rows: Seq<CatalogThreadRow>,
    target_provider: String,
    spawned: Seq<Seq<char>>,
    o: CatalogRepairObservedThread,
)
    requires
        outdoes(before, o) || exists|k: int|
            0 <= k < rows.len() && observation(#[trigger] rows[k], target_provider, spawned) == o,
    ensures
        outdoes(observed_rows(before, rows, target_provider, spawned), o),
    decreases rows.len(),
{
    if rows.len() > 0 {
        let init = rows.drop_last();
        let n = rows.len() - 1;
        let last = observation(rows[n], target_provider, spawned);
        let u = observed_rows(before, init, target_provider, spawned);
        lemma_newest_row_counts(u, last, o);
        if outdoes(before, o) {
            lemma_rows_are_outdone(before, init, target_provider, spawned, o);
        } else {
            let k = choose|k: int|
                0 <= k < rows.len() && observation(#[trigger] rows[k], target_provider, spawned)
                    == o;
            if k < n {
                assert(init[k] == rows[k]);
                lemma_rows_are_outdone(before, init, target_provider, spawned, o);
            }
        }
    }
}

proof fn lemma_databases_are_outdone(
    dbs: Seq<CatalogDatabase>,
    target_provider: String,
    spawned: Seq<Seq<char>>,
    d: int,
    k: int,
)
    requires
        0 <= d < dbs.len(),
        0 <= k < dbs[d].rows@.len(),
    ensures
        outdoes(
            observed_in(dbs, target_provider, spawned),
            observation(dbs[d].rows@[k], target_provider, spawned),
        ),
    decreases dbs.len(),
{
    let init = dbs.drop_last();
    let o = observation(dbs[d].rows@[k], target_provider, spawned);
    if d < init.len() {
        assert(init[d] == dbs[d]);
        lemma_databases_are_outdone(init, target_provider, spawned, d, k);
    }
    lemma_rows_are_outdone(
        observed_in(init, target_provider, spawned),
        dbs.last().rows@,
        target_provider,
        spawned,
        o,
    );
}

proof fn lemma_observed_rows_come_from(
    before: Seq<CatalogRepairObservedThread>,
    rows: Seq<CatalogThreadRow>,
    target_provider: String,
    spawned: Seq<Seq<char>>,
    o: CatalogRepairObservedThread,
)
    requires
        observed_rows(before, rows, target_provider, spawned).contains(o),
    ensures
        before.contains(o) || exists|k: int|
            0 <= k < rows.len() && observation(#[trigger] rows[k], target_provider, spawned) == o,
    decreases rows.len(),
{
    if rows.len() > 0 {
        let init = rows.drop_last();
        let n = rows.len() - 1;
        let last = observation(rows[n], target_provider, spawned);
        let u = observed_rows(before, init, target_provider, spawned);
        lemma_newest_row_counts(u, last, o);
        if o != last {
            assert(u.contains(o));
            lemma_observed_rows_come_from(before, init, target_provider, spawned, o);
            if !before.contains(o) {
                let k = choose|k: int|
                    0 <= k < init.len() && observation(#[trigger] init[k], target_provider, spawned)
                        == o;
                assert(rows[k] == init[k]);
            }
        }
    }
}

/// Whether a row of a database says this of a thread.
pub open spec fn is_said(
    dbs: Seq<CatalogDatabase>,
    target_provider: String,
    spawned: Seq<Seq<char>>,
    o: CatalogRepairObservedThread,
) -> bool {
    exists|d: int, k: int|
        0 <= d < dbs.len() && 0 <= k < dbs[d].rows@.len() && observation(
            #[trigger] dbs[d].rows@[k],
            target_provider,
            spawned,
        ) == o
}

proof fn lemma_observed_is_said(
    dbs: Seq<CatalogDatabase>,
    target_provider: String,
    spawned: Seq<Seq<char>>,
    o: CatalogRepairObservedThread,
)
    requires
        observed_in(dbs, target_provider, spawned).contains(o),
    ensures
        is_said(dbs, target_provider, spawned, o),
    decreases dbs.len(),
{
    if dbs.len() > 0 {
        let init = dbs.drop_last();
        let n = dbs.len() - 1;
        let before = observed_in(init, target_provider, spawned);
        lemma_observed_rows_come_from(before, dbs[n].rows@, target_provider, spawned, o);
        if before.contains(o) {
            lemma_observed_is_said(init, target_provider, spawned, o);
            let (d, k) = choose|d: int, k: int|
                0 <= d < init.len() && 0 <= k < init[d].rows@.len() && observation(
                    #[trigger] init[d].rows@[k],
                    target_provider,
                    spawned,
                ) == o;
            assert(dbs[d] == init[d]);
            assert(observation(dbs[d].rows@[k], target_provider, spawned) == o);
        } else {
            let k = choose|k: int|
                0 <= k < dbs[n].rows@.len() && observation(
                    #[trigger] dbs[n].rows@[k],
                    target_provider,
                    spawned,
                ) == o;
            assert(observation(dbs[n].rows@[k], target_provider, spawned) == o);
        }
    }
}

/// What is known of the threads of all databases is said by their rows, and counts at least
/// as much as any of them.
pub proof fn lemma_newest_row_of_all_databases_counts(
    dbs: Seq<CatalogDatabase>,
    target_provider: String,
    spawned: Seq<Seq<char>>,
)
    ensures
        forall|o: CatalogRepairObservedThread| #[trigger]
            observed_in(dbs, target_provider, spawned).contains(o) ==> is_said(
                dbs,
                target_provider,
                spawned,
                o,
            ),
        forall|o: CatalogRepairObservedThread| #[trigger]
            is_said(dbs, target_provider, spawned, o) ==> outdoes(
                observed_in(dbs, target_provider, spawned),
                o,
            ),
        distinct_threads(observed_in(dbs, target_provider, spawned)),
{
    assert forall|o: CatalogRepairObservedThread| #[trigger]
        observed_in(dbs, target_provider, spawned).contains(o) implies is_said(
        dbs,
        target_provider,
        spawned,
        o,
    ) by {
        lemma_observed_is_said(dbs, target_provider, spawned, o);
    }
    assert forall|o: CatalogRepairObservedThread| #[trigger]
        is_said(dbs, target_provider, spawned, o) implies outdoes(
        observed_in(dbs, target_provider, spawned),
        o,
    ) by {
        let (d, k) = choose|d: int, k: int|
            0 <= d < dbs.len() && 0 <= k < dbs[d].rows@.len() && observation(
                #[trigger] dbs[d].rows@[k],
                target_provider,
                spawned,
            ) == o;
        lemma_databases_are_outdone(dbs, target_provider, spawned, d, k);
    }
    lemma_observed_consistent(dbs, target_provider, spawned);
}

/// Whether nothing is asked for by name, or this thread is.
pub proof fn lemma_request(ids: Seq<Seq<char>>, id: Seq<char>)
    ensures
        is_requested(None, id),
        is_requested(Some(ids), id) <==> ids.contains(id),
{
}

proof fn lemma_inserted(
    v: Seq<CatalogRepairObservedThread>,
    request: Option<Seq<Seq<char>>>,
    t: CatalogRepairThread,
)
    ensures
        threads_to_insert(v, request).contains(t) <==> exists|i: int|
            0 <= i < v.len() && (#[trigger] v[i]).thread == t && v[i].eligible && is_requested(
                request,
                t.id@,
            ),
    decreases v.len(),
{
    if v.len() > 0 {
        let init = v.drop_last();
        let n = v.len() - 1;
        lemma_inserted(init, request, t);
        text::lemma_push_contains(threads_to_insert(init, request), v[n].thread, t);
        if exists|i: int|
            0 <= i < init.len() && (#[trigger] init[i]).thread == t && init[i].eligible
                && is_requested(request, t.id@) {
            let i = choose|i: int|
                0 <= i < init.len() && (#[trigger] init[i]).thread == t && init[i].eligible
                    && is_requested(request, t.id@);
            assert(v[i] == init[i]);
        }
        if exists|i: int|
            0 <= i < v.len() && (#[trigger] v[i]).thread == t && v[i].eligible && is_requested(
                request,
                t.id@,
            ) {
            let i = choose|i: int|
                0 <= i < v.len() && (#[trigger] v[i]).thread == t && v[i].eligible && is_requested(
                    request,
                    t.id@,
                );
            if i < n {
                assert(init[i] == v[i]);
            }
        }
    }
}

proof fn lemma_listed(
    v: Seq<CatalogRepairObservedThread>,
    request: Option<Seq<Seq<char>>>,
    reason: ListReason,
    id: Seq<char>,
)
    ensures
        listed_for(v, request, reason).contains(id) <==> is_requested(request, id) && exists|
            i: int,
        |
            0 <= i < v.len() && (#[trigger] v[i]).thread.id@ == id && reason_holds(v[i], reason),
    decreases v.len(),
{
    if v.len() > 0 {
        let init = v.drop_last();
        let n = v.len() - 1;
        lemma_listed(init, request, reason, id);
        text::lemma_push_contains(listed_for(init, request, reason), v[n].thread.id@, id);
        if exists|i: int|
            0 <= i < init.len() && (#[trigger] init[i]).thread.id@ == id && reason_holds(
                init[i],
                reason,
            ) {
            let i = choose|i: int|
                0 <= i < init.len() && (#[trigger] init[i]).thread.id@ == id && reason_holds(
                    init[i],
                    reason,
                );
            assert(v[i] == init[i]);
        }
        if exists|i: int|
            0 <= i < v.len() && (#[trigger] v[i]).thread.id@ == id && reason_holds(v[i], reason) {
            let i = choose|i: int|
                0 <= i < v.len() && (#[trigger] v[i]).thread.id@ == id && reason_holds(
                    v[i],
                    reason,
                );
            if i < n {
                assert(init[i] == v[i]);
            }
        }
    }
}

/// A plan inserts the threads that are asked for and belong in the catalog, all of them and
/// no others. It lists those that are not root threads, and those that do not belong in the
/// catalog, as far as they are asked for.
pub proof fn lemma_plan_is_complete(
    p: CatalogRepairPlan,
    observed: Seq<CatalogRepairObservedThread>,
    spawned: Seq<Seq<char>>,
    marked: Seq<PathIdsView>,
    request: Option<Seq<Seq<char>>>,
    t: CatalogRepairThread,
    id: Seq<char>,
)
    requires
        is_plan(p, observed, spawned, marked, request),
    ensures
        p.threads@.contains(t) <==> is_requested(request, t.id@) && exists|i: int|
            0 <= i < observed.len() && (#[trigger] observed[i]).thread == t && observed[i].eligible,
        text::texts(p.non_root_thread_ids@).contains(id) <==> is_requested(request, id) && exists|
            i: int,
        |
            0 <= i < observed.len() && (#[trigger] observed[i]).thread.id@ == id && is_non_root(
                observed[i].thread.source_kind@,
                text::text_of(observed[i].thread.thread_source),
                spawned.contains(id),
            ),
        text::texts(p.ineligible_thread_ids@).contains(id) <==> is_requested(request, id)
            && exists|i: int|
            0 <= i < observed.len() && (#[trigger] observed[i]).thread.id@ == id
                && !observed[i].eligible,
{
    lemma_inserted(observed, request, t);
    lemma_listed(observed, request, ListReason::NonRoot(spawned), id);
    lemma_listed(observed, request, ListReason::Ineligible, id);
    if text::texts(p.non_root_thread_ids@).contains(id) {
        let i = choose|i: int|
            0 <= i < observed.len() && (#[trigger] observed[i]).thread.id@ == id && reason_holds(
                observed[i],
                ListReason::NonRoot(spawned),
            );
        assert(observed[i].thread.id@ == id);
    }
    if text::texts(p.ineligible_thread_ids@).contains(id) {
        let i = choose|i: int|
            0 <= i < observed.len() && (#[trigger] observed[i]).thread.id@ == id && reason_holds(
                observed[i],
                ListReason::Ineligible,
            );
        assert(observed[i].thread.id@ == id);
    }
    if exists|i: int|
        0 <= i < observed.len() && (#[trigger] observed[i]).thread.id@ == id && is_non_root(
            observed[i].thread.source_kind@,
            text::text_of(observed[i].thread.thread_source),
            spawned.contains(id),
        ) {
        let i = choose|i: int|
            0 <= i < observed.len() && (#[trigger] observed[i]).thread.id@ == id && is_non_root(
                observed[i].thread.source_kind@,
                text::text_of(observed[i].thread.thread_source),
                spawned.contains(id),
            );
        assert(reason_holds(observed[i], ListReason::NonRoot(spawned)));
    }
    if exists|i: int|
        0 <= i < observed.len() && (#[trigger] observed[i]).thread.id@ == id
            && !observed[i].eligible {
        let i = choose|i: int|
            0 <= i < observed.len() && (#[trigger] observed[i]).thread.id@ == id
                && !observed[i].eligible;
        assert(reason_holds(observed[i], ListReason::Ineligible));
    }
}

proof fn lemma_kept_ids_exact(
    ids: Seq<Seq<char>>,
    request: Option<Seq<Seq<char>>>,
    users: Seq<Seq<char>>,
    id: Seq<char>,
)
    ensures
        catalog_ids_kept(ids, request, users).contains(id) <==> ids.contains(id) && is_requested(
            request,
            id,
        ) && !users.contains(id),
    decreases ids.len(),
{
    if ids.len() > 0 {
        let init = ids.drop_last();
        lemma_kept_ids_exact(init, request, users, id);
        assert(ids =~= init.push(ids.last()));
        text::lemma_push_contains(init, ids.last(), id);
        text::lemma_push_contains(catalog_ids_kept(init, request, users), ids.last(), id);
    }
}

proof fn lemma_kept_for_path_exact(
    v: Seq<PathIdsView>,
    request: Option<Seq<Seq<char>>>,
    users: Seq<Seq<char>>,
    path: Seq<char>,
    id: Seq<char>,
)
    ensures
        ids_for_path(catalogs_kept(v, request, users), path).contains(id) <==> is_requested(
            request,
            id,
        ) && !users.contains(id) && exists|i: int|
            0 <= i < v.len() && (#[trigger] v[i]).path == path && v[i].ids.contains(id),
    decreases v.len(),
{
    if v.len() > 0 {
        let init = v.drop_last();
        let n = v.len() - 1;
        lemma_kept_for_path_exact(init, request, users, path, id);
        lemma_kept_ids_exact(v[n].ids, request, users, id);
        let ids = catalog_ids_kept(v[n].ids, request, users);
        let before = catalogs_kept(init, request, users);
        if ids.len() > 0 {
            let all = before.push(PathIdsView { path: v[n].path, ids });
            assert(all.drop_last() =~= before);
            text::lemma_with_texts(ids_for_path(before, path), ids);
        }
        if exists|i: int|
            0 <= i < init.len() && (#[trigger] init[i]).path == path && init[i].ids.contains(id) {
            let i = choose|i: int|
                0 <= i < init.len() && (#[trigger] init[i]).path == path && init[i].ids.contains(
                    id,
                );
            assert(v[i] == init[i]);
        }
        if exists|i: int|
            0 <= i < v.len() && (#[trigger] v[i]).path == path && v[i].ids.contains(id) {
            let i = choose|i: int|
                0 <= i < v.len() && (#[trigger] v[i]).path == path && v[i].ids.contains(id);
            if i < n {
                assert(init[i] == v[i]);
            }
        }
    }
}

/// From the catalog of a database are removed the threads that are not root threads, those
/// that do not belong in it, and those that this catalog itself marks, unless the user is
/// their source; each of them once, and no other.
pub proof fn lemma_removals_are_complete(
    p: CatalogRepairPlan,
    observed: Seq<CatalogRepairObservedThread>,
    spawned: Seq<Seq<char>>,
    marked: Seq<PathIdsView>,
    request: Option<Seq<Seq<char>>>,
    path: Seq<char>,
    id: Seq<char>,
)
    requires
        is_plan(p, observed, spawned, marked, request),
    ensures
        ({
            let user = exists|i: int|
                0 <= i < observed.len() && (#[trigger] observed[i]).thread.id@ == id && (
                observed[i].thread.thread_source matches Some(s) && text::lower(text::trim(s@))
                    == "user"@);
            let marked_here = exists|i: int|
                0 <= i < marked.len() && (#[trigger] marked[i]).path == path
                    && marked[i].ids.contains(id);
            p.removals(path).contains(id) <==> text::texts(p.non_root_thread_ids@).contains(id)
                || text::texts(p.ineligible_thread_ids@).contains(id) || (is_requested(request, id)
                && marked_here && !user)
        }),
{
    let users = listed_for(observed, request, ListReason::User);
    lemma_kept_for_path_exact(marked, request, users, path, id);
    lemma_listed(observed, request, ListReason::User, id);
    let a = text::texts(p.non_root_thread_ids@);
    let b = text::texts(p.ineligible_thread_ids@);
    let c = ids_for_path(path_ids_of(p.catalog_non_root_thread_ids@), path);
    text::lemma_with_texts(a, b);
    text::lemma_with_texts(text::with_texts(a, b), c);
    if users.contains(id) {
        let i = choose|i: int|
            0 <= i < observed.len() && (#[trigger] observed[i]).thread.id@ == id && reason_holds(
                observed[i],
                ListReason::User,
            );
        assert(observed[i].thread.id@ == id);
    }
    if exists|i: int|
        0 <= i < observed.len() && (#[trigger] observed[i]).thread.id@ == id && (
        observed[i].thread.thread_source matches Some(s) && text::lower(text::trim(s@))
            == "user"@) {
        let i = choose|i: int|
            0 <= i < observed.len() && (#[trigger] observed[i]).thread.id@ == id && (
            observed[i].thread.thread_source matches Some(s) && text::lower(text::trim(s@))
                == "user"@);
        assert(reason_holds(observed[i], ListReason::User));
    }
}

/// A catalog marks the threads whose rows say that they are not root threads; the threads
/// that any database calls spawned are spawned.
pub proof fn lemma_marks_of_a_catalog(
    dbs: Seq<CatalogDatabase>,
    marks: Seq<CatalogMark>,
    spawned: Seq<Seq<char>>,
    id: Seq<char>,
)
    ensures
        marked_ids(marks, spawned).contains(id) <==> exists|i: int|
            0 <= i < marks.len() && (#[trigger] marks[i]).thread_id@ == id && is_non_root(
                marks[i].source_kind@,
                text::text_of(marks[i].thread_source),
                spawned.contains(id),
            ),
        spawned_in(dbs).contains(id) <==> exists|d: int|
            0 <= d < dbs.len() && text::texts((#[trigger] dbs[d]).spawned_child_ids@).contains(id),
{
    lemma_marked(marks, spawned, id);
    lemma_spawned(dbs, id);
}

proof fn lemma_marked(marks: Seq<CatalogMark>, spawned: Seq<Seq<char>>, id: Seq<char>)
    ensures
        marked_ids(marks, spawned).contains(id) <==> exists|i: int|
            0 <= i < marks.len() && (#[trigger] marks[i]).thread_id@ == id && is_non_root(
                marks[i].source_kind@,
                text::text_of(marks[i].thread_source),
                spawned.contains(id),
            ),
    decreases marks.len(),
{
    if marks.len() > 0 {
        let init = marks.drop_last();
        let n = marks.len() - 1;
        lemma_marked(init, spawned, id);
        text::lemma_push_contains(marked_ids(init, spawned), marks[n].thread_id@, id);
        if marked_ids(init, spawned).contains(id) {
            let i = choose|i: int|
                0 <= i < init.len() && (#[trigger] init[i]).thread_id@ == id && is_non_root(
                    init[i].source_kind@,
                    text::text_of(init[i].thread_source),
                    spawned.contains(id),
                );
            assert(marks[i] == init[i]);
        }
        if exists|i: int|
            0 <= i < marks.len() && (#[trigger] marks[i]).thread_id@ == id && is_non_root(
                marks[i].source_kind@,
                text::text_of(marks[i].thread_source),
                spawned.contains(id),
            ) {
            let i = choose|i: int|
                0 <= i < marks.len() && (#[trigger] marks[i]).thread_id@ == id && is_non_root(
                    marks[i].source_kind@,
                    text::text_of(marks[i].thread_source),
                    spawned.contains(id),
                );
            if i < n {
                assert(init[i] == marks[i]);
            }
        }
    }
}

proof fn lemma_spawned(dbs: Seq<CatalogDatabase>, id: Seq<char>)
    ensures
        spawned_in(dbs).contains(id) <==> exists|d: int|
            0 <= d < dbs.len() && text::texts((#[trigger] dbs[d]).spawned_child_ids@).contains(id),
    decreases dbs.len(),
{
    if dbs.len() > 0 {
        let init = dbs.drop_last();
        let n = dbs.len() - 1;
        lemma_spawned(init, id);
        text::lemma_with_texts(spawned_in(init), text::texts(dbs[n].spawned_child_ids@));
        if spawned_in(init).contains(id) {
            let d = choose|d: int|
                0 <= d < init.len() && text::texts(
                    (#[trigger] init[d]).spawned_child_ids@,
                ).contains(id);
            assert(dbs[d] == init[d]);
        }
        if exists|d: int|
            0 <= d < dbs.len() && text::texts((#[trigger] dbs[d]).spawned_child_ids@).contains(
                id,
            ) {
            let d = choose|d: int|
                0 <= d < dbs.len() && text::texts(
                    (#[trigger] dbs[d]).spawned_child_ids@,
                ).contains(id);
            if d < n {
                assert(init[d] == dbs[d]);
            }
        }
    }
}

/// The threads of a plan keep the order in which they were first seen.
pub proof fn lemma_order_of_a_plan(
    v: Seq<CatalogRepairObservedThread>,
    request: Option<Seq<Seq<char>>>,
    o: CatalogRepairObservedThread,
)
    ensures
        threads_to_insert(Seq::empty(), request) == Seq::<CatalogRepairThread>::empty(),
        threads_to_insert(v.push(o), request) == if o.eligible && is_requested(
            request,
            o.thread.id@,
        ) {
            threads_to_insert(v, request).push(o.thread)
        } else {
            threads_to_insert(v, request)
        },
        (forall|i: int| 0 <= i < v.len() ==> (#[trigger] v[i]).thread.id@ != o.thread.id@)
            ==> with_observed(v, o) == v.push(o),
    decreases v.len(),
{
    assert(v.push(o).drop_last() =~= v);
    if forall|i: int| 0 <= i < v.len() ==> (#[trigger] v[i]).thread.id@ != o.thread.id@ {
        if v.len() == 0 {
            assert(with_observed(v, o) =~= v.push(o));
        } else {
            let rest = v.skip(1);
            assert forall|i: int| 0 <= i < rest.len() implies (#[trigger] rest[i]).thread.id@
                != o.thread.id@ by {
                assert(v[i + 1] == rest[i]);
            }
            lemma_order_of_a_plan(rest, request, o);
            assert(v[0].thread.id@ != o.thread.id@);
            assert(seq![v[0]] + rest.push(o) =~= v.push(o));
        }
    }
}

} // verus!
