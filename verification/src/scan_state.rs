//! What earlier scans of rollout files found, so that a file which has not changed
//! since need not be read again.

use crate::digest;
use crate::names;
use crate::rollout;
use crate::rollout::{ModeView, RolloutRewrite, SessionRewriteMode};
use crate::text;
use crate::transaction;
use crate::transaction::{
    RolloutRoot, SessionTransactionEntry, SessionTransactionManifest, SessionTransactionMode,
};
use vstd::prelude::*;
use vstd::utf8::encode_utf8;

verus! {

// ---------------------------------------------------------------------------
// Records
// ---------------------------------------------------------------------------
pub const PROVIDER_SYNC_SCAN_STATE_NAMESPACE: &'static str = "provider-sync-rollout-scan-state";

pub const PROVIDER_SYNC_SCAN_STATE_VERSION: u32 = 1;

pub const PROVIDER_SYNC_SCAN_STATE_MAX_BYTES: u64 = 33554432;

pub const PROVIDER_SYNC_SCAN_STATE_MAX_ENTRIES: usize = 100000;

/// What is found by a scan, and how. It is part of what a record is recognised by.
pub const PROVIDER_SYNC_SCAN_RULES: &'static str =
    "provider-sync-rollout-scan/v1;utf8-jsonl;session_meta-payload-id-cwd-model_provider;user_message-or-user_input;encrypted_content-byte-marker;non-root-agent-source;missing-provider-sentinel";

/// What a scan found in a rollout file, and by what the file is recognised.
#[derive(Debug)]
pub struct ProviderSyncRolloutScanState {
    pub relative_path: String,
    pub size: u64,
    pub modified_secs: Option<u64>,
    pub modified_nanos: Option<u32>,
    pub file_identity: String,
    pub sha256: String,
    pub thread_id: Option<String>,
    pub cwd: Option<String>,
    pub has_user_event: bool,
    pub has_encrypted_content: bool,
    pub marks_non_root_agent: bool,
    pub session_meta_count: usize,
    pub providers: Vec<String>,
}

#[derive(Debug)]
pub struct ProviderSyncRolloutScanStateManifest {
    pub version: u32,
    pub namespace: String,
    pub rules_sha256: String,
    pub rollout_roots: Vec<RolloutRoot>,
    pub entries: Vec<ProviderSyncRolloutScanState>,
}

/// What is recorded of a scan, as a value.
#[verifier::ext_equal]
pub struct StateView {
    pub relative_path: Seq<char>,
    pub size: u64,
    pub modified_secs: Option<u64>,
    pub modified_nanos: Option<u32>,
    pub file_identity: Seq<char>,
    pub sha256: Seq<char>,
    pub thread_id: Option<Seq<char>>,
    pub cwd: Option<Seq<char>>,
    pub has_user_event: bool,
    pub has_encrypted_content: bool,
    pub marks_non_root_agent: bool,
    pub session_meta_count: usize,
    pub providers: Seq<Seq<char>>,
}

impl View for ProviderSyncRolloutScanState {
    type V = StateView;

    open spec fn view(&self) -> StateView {
        StateView {
            relative_path: self.relative_path@,
            size: self.size,
            modified_secs: self.modified_secs,
            modified_nanos: self.modified_nanos,
            file_identity: self.file_identity@,
            sha256: self.sha256@,
            thread_id: text::text_of(self.thread_id),
            cwd: text::text_of(self.cwd),
            has_user_event: self.has_user_event,
            has_encrypted_content: self.has_encrypted_content,
            marks_non_root_agent: self.marks_non_root_agent,
            session_meta_count: self.session_meta_count,
            providers: text::texts(self.providers@),
        }
    }
}

pub open spec fn states_of(v: Seq<ProviderSyncRolloutScanState>) -> Seq<StateView> {
    v.map_values(|s: ProviderSyncRolloutScanState| s@)
}

/// The same record once more.
pub fn copy_state(s: &ProviderSyncRolloutScanState) -> (r: ProviderSyncRolloutScanState)
    ensures
        r@ == s@,
{
    ProviderSyncRolloutScanState {
        relative_path: text::copy_text(s.relative_path.as_str()),
        size: s.size,
        modified_secs: s.modified_secs,
        modified_nanos: s.modified_nanos,
        file_identity: text::copy_text(s.file_identity.as_str()),
        sha256: text::copy_text(s.sha256.as_str()),
        thread_id: text::copy_option(&s.thread_id),
        cwd: text::copy_option(&s.cwd),
        has_user_event: s.has_user_event,
        has_encrypted_content: s.has_encrypted_content,
        marks_non_root_agent: s.marks_non_root_agent,
        session_meta_count: s.session_meta_count,
        providers: text::copy_texts(&s.providers),
    }
}

/// The digest by which a record shows that it was made by the same rules and the
/// same version of the program.
pub open spec fn rules_digest(version: Seq<char>) -> Seq<char> {
    digest::sha256_hex(
        encode_utf8(PROVIDER_SYNC_SCAN_RULES@).push(0u8) + encode_utf8(version),
    )
}

/// The digest of the rules by which rollout files are read.
pub fn provider_sync_scan_rules_sha256(program_version: &str) -> (r: String)
    ensures
        r@ == rules_digest(program_version@),
{
    let mut bytes = crate::json::text_to_utf8(PROVIDER_SYNC_SCAN_RULES);
    bytes.push(0);
    let version = crate::json::text_to_utf8(program_version);
    bytes.extend_from_slice(version.as_slice());
    assert(bytes@ =~= encode_utf8(PROVIDER_SYNC_SCAN_RULES@).push(0u8) + encode_utf8(
        program_version@,
    ));
    digest::sha256_hex_text(bytes.as_slice())
}

// ---------------------------------------------------------------------------
// Checking a record that was read
// ---------------------------------------------------------------------------
/// How many bytes a text takes.
pub open spec fn byte_length(s: Seq<char>) -> nat {
    encode_utf8(s).len()
}

/// Whether the UTF-8 form of a text is at most so long.
pub fn byte_length_at_most(s: &str, limit: usize) -> (r: bool)
    ensures
        r == (byte_length(s@) <= limit),
{
    json_bytes(s).len() <= limit
}

fn json_bytes(s: &str) -> (r: Vec<u8>)
    ensures
        r@ == encode_utf8(s@),
{
    crate::json::text_to_utf8(s)
}

pub open spec fn optional_length_fits(s: Option<Seq<char>>, limit: nat) -> bool {
    match s {
        Some(t) => byte_length(t) <= limit,
        None => true,
    }
}

/// Whether what is recorded of a scan can be right.
pub open spec fn state_fits(s: StateView, windows: bool) -> bool {
    &&& names::rollout_root(s.relative_path, windows) is Ok
    &&& byte_length(s.relative_path) <= 32768
    &&& s.file_identity.len() > 0
    &&& byte_length(s.file_identity) <= 512
    &&& digest::is_sha256_hex(s.sha256)
    &&& (s.modified_secs is Some) == (s.modified_nanos is Some)
    &&& optional_length_fits(s.thread_id, 512)
    &&& optional_length_fits(s.cwd, 32768)
    &&& s.providers.len() <= 1024
    &&& forall|i: int| 0 <= i < s.providers.len() ==> byte_length(#[trigger] s.providers[i]) <= 512
    &&& text::ascending(s.providers)
}

fn providers_fit(providers: &Vec<String>) -> (r: bool)
    ensures
        r == (text::texts(providers@).len() <= 1024 && (forall|i: int|
            0 <= i < providers@.len() ==> byte_length(#[trigger] text::texts(providers@)[i]) <= 512)
            && text::ascending(text::texts(providers@))),
{
    let ghost all = text::texts(providers@);
    if providers.len() > 1024 {
        return false;
    }
    let mut i: usize = 0;
    while i < providers.len()
        invariant
            i <= providers.len(),
            all == text::texts(providers@),
            forall|k: int| 0 <= k < i ==> byte_length(#[trigger] all[k]) <= 512,
            forall|a: int, b: int| 0 <= a < b < i ==> text::text_less(all[a], all[b]),
        decreases providers.len() - i,
    {
        assert(all[i as int] == providers@[i as int]@);
        if !byte_length_at_most(providers[i].as_str(), 512) {
            assert(byte_length(all[i as int]) > 512);
            return false;
        }
        if i > 0 {
            assert(all[i - 1] == providers@[i - 1]@);
            if !text::less_text(providers[i - 1].as_str(), providers[i].as_str()) {
                assert(!text::text_less(all[i - 1], all[i as int]));
                return false;
            }
            proof {
                assert forall|a: int, b: int| 0 <= a < b < i + 1 implies text::text_less(
                    all[a],
                    all[b],
                ) by {
                    if b == i && a < i - 1 {
                        text::lemma_text_less_transitive(all[a], all[i - 1], all[i as int]);
                    }
                }
            }
        }
        i += 1;
    }
    true
}

/// Whether what is recorded of a scan can be right.
pub fn valid_scan_state_entry(entry: &ProviderSyncRolloutScanState, windows: bool) -> (r: bool)
    ensures
        r == state_fits(entry@, windows),
{
    let thread_fits = match &entry.thread_id {
        Some(s) => byte_length_at_most(s.as_str(), 512),
        None => true,
    };
    let cwd_fits = match &entry.cwd {
        Some(s) => byte_length_at_most(s.as_str(), 32768),
        None => true,
    };
    names::validated_rollout_relative_path(entry.relative_path.as_str(), windows).is_ok()
        && byte_length_at_most(entry.relative_path.as_str(), 32768) && !text::empty_text(
        entry.file_identity.as_str(),
    ) && byte_length_at_most(entry.file_identity.as_str(), 512) && transaction::is_sha256_text(
        entry.sha256.as_str(),
    ) && entry.modified_secs.is_some() == entry.modified_nanos.is_some() && thread_fits && cwd_fits
        && providers_fit(&entry.providers)
}

/// Whether two lists record the same rollout directories.
pub open spec fn same_roots(a: Seq<RolloutRoot>, b: Seq<RolloutRoot>) -> bool {
    roots_within(a, b) && roots_within(b, a)
}

/// Whether every rollout directory of one list stands in the other.
pub open spec fn roots_within(a: Seq<RolloutRoot>, b: Seq<RolloutRoot>) -> bool {
    forall|i: int| 0 <= i < a.len() ==> has_root(b, #[trigger] a[i])
}

pub open spec fn same_root(a: RolloutRoot, b: RolloutRoot) -> bool {
    a.name@ == b.name@ && a.canonical_path@ == b.canonical_path@ && a.identity@ == b.identity@
}

pub open spec fn has_root(roots: Seq<RolloutRoot>, root: RolloutRoot) -> bool {
    exists|k: int| 0 <= k < roots.len() && same_root(#[trigger] roots[k], root)
}

fn root_among(roots: &Vec<RolloutRoot>, root: &RolloutRoot) -> (r: bool)
    ensures
        r == has_root(roots@, *root),
{
    let mut k: usize = 0;
    while k < roots.len()
        invariant
            k <= roots.len(),
            forall|n: int| 0 <= n < k ==> !same_root(#[trigger] roots@[n], *root),
        decreases roots.len() - k,
    {
        if text::same_text(roots[k].name.as_str(), root.name.as_str())
            && transaction::root_unchanged(
            &roots[k],
            root.canonical_path.as_str(),
            root.identity.as_str(),
        ) {
            assert(same_root(roots@[k as int], *root));
            return true;
        }
        k += 1;
    }
    false
}

fn all_roots_among(a: &Vec<RolloutRoot>, b: &Vec<RolloutRoot>) -> (r: bool)
    ensures
        r == roots_within(a@, b@),
{
    let mut i: usize = 0;
    while i < a.len()
        invariant
            i <= a.len(),
            forall|k: int| 0 <= k < i ==> has_root(b@, #[trigger] a@[k]),
        decreases a.len() - i,
    {
        if !root_among(b, &a[i]) {
            assert(!has_root(b@, a@[i as int]));
            return false;
        }
        i += 1;
    }
    true
}

/// Why a record of earlier scans is not used.
#[derive(Clone, Copy, PartialEq, Eq, Debug)]
pub enum ScanStateError {
    Unsupported,
    InvalidEntry,
    TooManyEntries,
    NotCommitted,
    InvalidPath,
}

/// Whether a record was made by the same rules over the same directories.
pub open spec fn is_supported(
    m: ProviderSyncRolloutScanStateManifest,
    rules_sha256: Seq<char>,
    roots: Seq<RolloutRoot>,
) -> bool {
    &&& m.version == PROVIDER_SYNC_SCAN_STATE_VERSION
    &&& m.namespace@ == PROVIDER_SYNC_SCAN_STATE_NAMESPACE@
    &&& m.rules_sha256@ == rules_sha256
    &&& same_roots(m.rollout_roots@, roots)
    &&& m.entries@.len() <= PROVIDER_SYNC_SCAN_STATE_MAX_ENTRIES
}

/// Whether all entries of a record can be right, and none is there twice.
pub open spec fn entries_fit(entries: Seq<StateView>, windows: bool) -> bool {
    &&& forall|i: int| 0 <= i < entries.len() ==> state_fits(#[trigger] entries[i], windows)
    &&& forall|i: int, j: int|
        0 <= i < j < entries.len() ==> entries[i].relative_path != entries[j].relative_path
}

/// Checks a record of earlier scans. It is used as a whole or not at all.
pub fn check_scan_state(
    manifest: ProviderSyncRolloutScanStateManifest,
    rules_sha256: &str,
    roots: &Vec<RolloutRoot>,
    windows: bool,
) -> (r: Result<Vec<ProviderSyncRolloutScanState>, ScanStateError>)
    ensures
        match r {
            Ok(entries) => is_supported(manifest, rules_sha256@, roots@) && entries_fit(
                states_of(manifest.entries@),
                windows,
            ) && entries == manifest.entries,
            Err(e) => if !is_supported(manifest, rules_sha256@, roots@) {
                e == ScanStateError::Unsupported
            } else {
                e == ScanStateError::InvalidEntry && !entries_fit(
                    states_of(manifest.entries@),
                    windows,
                )
            },
        },
{
    if manifest.version != PROVIDER_SYNC_SCAN_STATE_VERSION || !text::same_text(
        manifest.namespace.as_str(),
        PROVIDER_SYNC_SCAN_STATE_NAMESPACE,
    ) || !text::same_text(manifest.rules_sha256.as_str(), rules_sha256) || !(all_roots_among(
        &manifest.rollout_roots,
        roots,
    ) && all_roots_among(roots, &manifest.rollout_roots)) || manifest.entries.len()
        > PROVIDER_SYNC_SCAN_STATE_MAX_ENTRIES {
        return Err(ScanStateError::Unsupported);
    }
    let ghost all = states_of(manifest.entries@);
    let mut i: usize = 0;
    while i < manifest.entries.len()
        invariant
            i <= manifest.entries.len(),
            all == states_of(manifest.entries@),
            is_supported(manifest, rules_sha256@, roots@),
            forall|k: int| 0 <= k < i ==> state_fits(#[trigger] all[k], windows),
            forall|a: int, b: int|
                0 <= a < b < i ==> all[a].relative_path != all[b].relative_path,
        decreases manifest.entries.len() - i,
    {
        assert(all[i as int] == manifest.entries@[i as int]@);
        if !valid_scan_state_entry(&manifest.entries[i], windows) {
            assert(!state_fits(all[i as int], windows));
            return Err(ScanStateError::InvalidEntry);
        }
        let mut k: usize = 0;
        while k < i
            invariant
                k <= i < manifest.entries.len(),
                all == states_of(manifest.entries@),
                is_supported(manifest, rules_sha256@, roots@),
                forall|n: int|
                    0 <= n < k ==> all[n].relative_path != all[i as int].relative_path,
            decreases i - k,
        {
            assert(all[k as int] == manifest.entries@[k as int]@);
            assert(all[i as int] == manifest.entries@[i as int]@);
            if text::same_text(
                manifest.entries[k].relative_path.as_str(),
                manifest.entries[i].relative_path.as_str(),
            ) {
                assert(all[k as int].relative_path == all[i as int].relative_path);
                return Err(ScanStateError::InvalidEntry);
            }
            k += 1;
        }
        i += 1;
    }
    Ok(manifest.entries)
}

// ---------------------------------------------------------------------------
// Writing a record
// ---------------------------------------------------------------------------
/// Whether a list is in the order of its paths.
pub open spec fn in_path_order(v: Seq<StateView>) -> bool {
    forall|i: int, j: int|
        0 <= i < j < v.len() ==> !text::text_less(v[j].relative_path, v[i].relative_path)
}

/// A list with `e` behind all entries that do not come after it.
pub open spec fn placed(v: Seq<StateView>, e: StateView) -> Seq<StateView>
    decreases v.len(),
{
    if v.len() > 0 && text::text_less(e.relative_path, v.last().relative_path) {
        placed(v.drop_last(), e).push(v.last())
    } else {
        v.push(e)
    }
}

/// The entries in the order of their paths; where two have the same path, they keep
/// their order.
pub open spec fn path_sorted(v: Seq<StateView>) -> Seq<StateView>
    decreases v.len(),
{
    if v.len() == 0 {
        Seq::empty()
    } else {
        placed(path_sorted(v.drop_last()), v.last())
    }
}

fn place(v: &mut Vec<ProviderSyncRolloutScanState>, entry: ProviderSyncRolloutScanState)
    ensures
        states_of(final(v)@) == placed(states_of(old(v)@), entry@),
{
    let ghost before = states_of(v@);
    let ghost e = entry@;
    let mut i: usize = v.len();
    assert(before.take(i as int) =~= before);
    assert(placed(before, e) =~= placed(before.take(i as int), e) + before.skip(i as int));
    while i > 0 && text::less_text(
        entry.relative_path.as_str(),
        v[i - 1].relative_path.as_str(),
    )
        invariant
            i <= v.len(),
            before == states_of(v@),
            e == entry@,
            placed(before, e) == placed(before.take(i as int), e) + before.skip(i as int),
        decreases i,
    {
        proof {
            assert(before[i - 1] == v@[i - 1]@);
            assert(before.take(i as int).drop_last() =~= before.take(i - 1));
            let rest = placed(before.take(i - 1), e);
            assert(rest.push(before[i - 1]) + before.skip(i as int) =~= rest + before.skip(i - 1));
        }
        i -= 1;
    }
    if i > 0 {
        assert(before[i - 1] == v@[i - 1]@);
        assert(before.take(i as int).last() == before[i - 1]);
    }
    v.insert(i, entry);
    assert(states_of(v@) =~= before.insert(i as int, e));
    assert(before.take(i as int).push(e) + before.skip(i as int) =~= before.insert(i as int, e));
}

proof fn lemma_placed(v: Seq<StateView>, e: StateView)
    requires
        in_path_order(v),
    ensures
        in_path_order(placed(v, e)),
        placed(v, e).to_multiset() == v.to_multiset().insert(e),
        placed(v, e).len() == v.len() + 1,
        forall|i: int|
            0 <= i < placed(v, e).len() ==> (#[trigger] placed(v, e)[i]) == e || v.contains(
                placed(v, e)[i],
            ),
    decreases v.len(),
{
    broadcast use vstd::seq_lib::group_to_multiset_ensures;

    let r = placed(v, e);
    if v.len() > 0 && text::text_less(e.relative_path, v.last().relative_path) {
        let init = v.drop_last();
        assert(in_path_order(init));
        lemma_placed(init, e);
        let before = placed(init, e);
        assert(v =~= init.push(v.last()));
        assert(r.to_multiset() =~= v.to_multiset().insert(e));
        assert forall|i: int| 0 <= i < r.len() implies (#[trigger] r[i]) == e || v.contains(
            r[i],
        ) by {
            if i < before.len() {
                assert(r[i] == before[i]);
                if before[i] != e {
                    let k = choose|k: int| 0 <= k < init.len() && init[k] == before[i];
                    assert(v[k] == r[i]);
                }
            } else {
                assert(v[v.len() - 1] == r[i]);
            }
        }
        assert forall|a: int, b: int| 0 <= a < b < r.len() implies !text::text_less(
            r[b].relative_path,
            r[a].relative_path,
        ) by {
            if b < before.len() {
                assert(r[a] == before[a] && r[b] == before[b]);
            } else {
                assert(r[a] == before[a]);
                if before[a] == e {
                    text::lemma_text_less_total(e.relative_path, v.last().relative_path);
                } else {
                    let k = choose|k: int| 0 <= k < init.len() && init[k] == before[a];
                    assert(!text::text_less(v[v.len() - 1].relative_path, v[k].relative_path));
                }
            }
        }
    } else {
        assert forall|i: int| 0 <= i < r.len() implies (#[trigger] r[i]) == e || v.contains(
            r[i],
        ) by {
            if i < v.len() {
                assert(v[i] == r[i]);
            }
        }
        assert forall|a: int, b: int| 0 <= a < b < r.len() implies !text::text_less(
            r[b].relative_path,
            r[a].relative_path,
        ) by {
            if b == v.len() {
                let last = v[v.len() - 1];
                if a < v.len() - 1 {
                    lemma_order_chain(e.relative_path, last.relative_path, v[a].relative_path);
                }
            }
        }
    }
}

/// A record that is written holds every entry, in the order of the paths.
pub proof fn lemma_path_sorted(v: Seq<StateView>)
    ensures
        in_path_order(path_sorted(v)),
        path_sorted(v).to_multiset() == v.to_multiset(),
        path_sorted(v).len() == v.len(),
    decreases v.len(),
{
    broadcast use vstd::seq_lib::group_to_multiset_ensures;

    if v.len() > 0 {
        lemma_path_sorted(v.drop_last());
        lemma_placed(path_sorted(v.drop_last()), v.last());
        assert(v =~= v.drop_last().push(v.last()));
    } else {
        assert(path_sorted(v) =~= v);
    }
}

/// What does not come before something that does not come before a third does not
/// come before the third.
proof fn lemma_order_chain(a: Seq<char>, b: Seq<char>, c: Seq<char>)
    requires
        !text::text_less(a, b),
        !text::text_less(b, c),
    ensures
        !text::text_less(a, c),
{
    text::lemma_text_less_total(a, b);
    text::lemma_text_less_total(b, c);
    text::lemma_text_less_total(a, c);
    if text::text_less(a, c) {
        if a != b {
            text::lemma_text_less_transitive(b, a, c);
        }
    }
}

/// Whether `m` is the record of these scans: all of them, in the order of their paths.
pub open spec fn is_record_of(
    m: ProviderSyncRolloutScanStateManifest,
    entries: Seq<StateView>,
    rules_sha256: Seq<char>,
    roots: Seq<RolloutRoot>,
) -> bool {
    &&& m.version == PROVIDER_SYNC_SCAN_STATE_VERSION
    &&& m.namespace@ == PROVIDER_SYNC_SCAN_STATE_NAMESPACE@
    &&& m.rules_sha256@ == rules_sha256
    &&& m.rollout_roots@ == roots
    &&& states_of(m.entries@) == path_sorted(entries)
}

/// The record that is written of these scans.
pub fn scan_state_manifest(
    entries: &Vec<ProviderSyncRolloutScanState>,
    rules_sha256: String,
    rollout_roots: Vec<RolloutRoot>,
) -> (r: Result<ProviderSyncRolloutScanStateManifest, ScanStateError>)
    ensures
        match r {
            Ok(m) => entries@.len() <= PROVIDER_SYNC_SCAN_STATE_MAX_ENTRIES && is_record_of(
                m,
                states_of(entries@),
                rules_sha256@,
                rollout_roots@,
            ),
            Err(e) => e == ScanStateError::TooManyEntries && entries@.len()
                > PROVIDER_SYNC_SCAN_STATE_MAX_ENTRIES,
        },
{
    if entries.len() > PROVIDER_SYNC_SCAN_STATE_MAX_ENTRIES {
        return Err(ScanStateError::TooManyEntries);
    }
    let ghost all = states_of(entries@);
    let mut sorted: Vec<ProviderSyncRolloutScanState> = Vec::new();
    let mut i: usize = 0;
    assert(states_of(sorted@) =~= Seq::<StateView>::empty());
    while i < entries.len()
        invariant
            i <= entries.len(),
            all == states_of(entries@),
            states_of(sorted@) == path_sorted(all.take(i as int)),
        decreases entries.len() - i,
    {
        assert(all.take(i + 1).drop_last() =~= all.take(i as int));
        let entry = copy_state(&entries[i]);
        assert(all.take(i + 1).last() == entry@);
        place(&mut sorted, entry);
        i += 1;
    }
    assert(all.take(i as int) =~= all);
    Ok(
        ProviderSyncRolloutScanStateManifest {
            version: PROVIDER_SYNC_SCAN_STATE_VERSION,
            namespace: text::copy_text(PROVIDER_SYNC_SCAN_STATE_NAMESPACE),
            rules_sha256,
            rollout_roots,
            entries: sorted,
        },
    )
}

/// A record that was written is read again: it passes its check as long as the rules
/// and the directories are the same, and it holds the entries that it was made of.
pub proof fn lemma_written_record_is_read(
    m: ProviderSyncRolloutScanStateManifest,
    entries: Seq<StateView>,
    rules_sha256: Seq<char>,
    roots: Seq<RolloutRoot>,
    windows: bool,
)
    requires
        is_record_of(m, entries, rules_sha256, roots),
        entries_fit(entries, windows),
        entries.len() <= PROVIDER_SYNC_SCAN_STATE_MAX_ENTRIES,
    ensures
        is_supported(m, rules_sha256, roots),
        entries_fit(states_of(m.entries@), windows),
        m.entries@.len() == entries.len(),
        states_of(m.entries@).to_multiset() == entries.to_multiset(),
        forall|e: StateView| #[trigger]
            states_of(m.entries@).contains(e) <==> entries.contains(e),
{
    broadcast use vstd::seq_lib::group_to_multiset_ensures;

    let sorted = states_of(m.entries@);
    lemma_path_sorted(entries);
    assert(sorted.len() == m.entries@.len());
    assert forall|i: int| 0 <= i < roots.len() implies has_root(roots, #[trigger] roots[i]) by {
        assert(same_root(roots[i], roots[i]));
    }
    assert forall|e: StateView| #[trigger] sorted.contains(e) <==> entries.contains(e) by {
        assert(sorted.to_multiset().contains(e) == sorted.contains(e));
        assert(entries.to_multiset().contains(e) == entries.contains(e));
    }
    assert forall|i: int| 0 <= i < sorted.len() implies state_fits(#[trigger] sorted[i], windows) by {
        assert(sorted.contains(sorted[i]));
        let k = choose|k: int| 0 <= k < entries.len() && entries[k] == sorted[i];
        assert(state_fits(entries[k], windows));
    }
    assert(entries.no_duplicates()) by {
        assert forall|a: int, b: int| 0 <= a < b < entries.len() implies entries[a] != entries[b] by {
            assert(entries[a].relative_path != entries[b].relative_path);
        }
    }
    entries.lemma_multiset_has_no_duplicates();
    sorted.lemma_multiset_has_no_duplicates_conv();
    assert forall|i: int, j: int| 0 <= i < j < sorted.len() implies sorted[i].relative_path
        != sorted[j].relative_path by {
        assert(sorted.contains(sorted[i]) && sorted.contains(sorted[j]));
        let a = choose|a: int| 0 <= a < entries.len() && entries[a] == sorted[i];
        let b = choose|b: int| 0 <= b < entries.len() && entries[b] == sorted[j];
        assert(sorted[i] != sorted[j]);
        assert(a != b);
        if a < b {
            assert(entries[a].relative_path != entries[b].relative_path);
        } else {
            assert(entries[b].relative_path != entries[a].relative_path);
        }
    }
}

/// Whether a record of this size is read or written.
pub fn scan_state_size_fits(size: u64) -> (r: bool)
    ensures
        r == (size <= PROVIDER_SYNC_SCAN_STATE_MAX_BYTES),
{
    size <= PROVIDER_SYNC_SCAN_STATE_MAX_BYTES
}

// ---------------------------------------------------------------------------
// Using a record
// ---------------------------------------------------------------------------
/// What is seen of a file without reading it.
pub struct FileObservation {
    pub is_file: bool,
    pub size: u64,
    /// When it was modified, where the system tells.
    pub modified: Option<ModifiedTime>,
    pub identity: String,
}

/// When a file was modified: whole seconds since the beginning of 1970, fewer than none
/// before it, and the nanoseconds on top of them.
#[derive(Clone, Copy, PartialEq, Eq, Structural, Debug)]
pub struct ModifiedTime {
    pub secs: i64,
    pub nanos: u32,
}

/// The seconds that are recorded of a time; none before 1970.
pub open spec fn recorded_secs(time: Option<ModifiedTime>) -> Option<u64> {
    match time {
        Some(m) => if m.secs >= 0 {
            Some(m.secs as u64)
        } else {
            None
        },
        None => None,
    }
}

/// The nanoseconds that are recorded of a time; none before 1970.
pub open spec fn recorded_nanos(time: Option<ModifiedTime>) -> Option<u32> {
    match time {
        Some(m) => if m.secs >= 0 {
            Some(m.nanos)
        } else {
            None
        },
        None => None,
    }
}

/// What is recorded of a time.
pub fn system_time_parts(time: Option<ModifiedTime>) -> (r: (Option<u64>, Option<u32>))
    ensures
        r.0 == recorded_secs(time),
        r.1 == recorded_nanos(time),
{
    match time {
        Some(m) => if m.secs >= 0 {
            (Some(m.secs as u64), Some(m.nanos))
        } else {
            (None, None)
        },
        None => (None, None),
    }
}

/// Whether a file is the one that was scanned.
pub open spec fn is_scanned_file(o: Option<FileObservation>, s: StateView) -> bool {
    match o {
        None => false,
        Some(f) => {
            &&& s.modified_secs is Some
            &&& f.is_file
            &&& f.size == s.size
            &&& f.identity@ == s.file_identity
            &&& recorded_secs(f.modified) == s.modified_secs
            &&& recorded_nanos(f.modified) == s.modified_nanos
        },
    }
}

fn same_secs(a: Option<u64>, b: Option<u64>) -> (r: bool)
    ensures
        r == (a == b),
{
    match (a, b) {
        (Some(x), Some(y)) => x == y,
        (None, None) => true,
        _ => false,
    }
}

fn same_nanos(a: Option<u32>, b: Option<u32>) -> (r: bool)
    ensures
        r == (a == b),
{
    match (a, b) {
        (Some(x), Some(y)) => x == y,
        (None, None) => true,
        _ => false,
    }
}

/// Whether a file is the one that was scanned.
pub fn provider_sync_scan_state_matches(
    observed: &Option<FileObservation>,
    state: &ProviderSyncRolloutScanState,
) -> (r: bool)
    ensures
        r == is_scanned_file(*observed, state@),
{
    match observed {
        None => false,
        Some(f) => {
            let (secs, nanos) = system_time_parts(f.modified);
            state.modified_secs.is_some() && f.is_file && f.size == state.size && text::same_text(
                f.identity.as_str(),
                state.file_identity.as_str(),
            ) && same_secs(secs, state.modified_secs) && same_nanos(nanos, state.modified_nanos)
        },
    }
}

/// Whether records that name these providers are to be rewritten.
pub open spec fn providers_need_rewrite(
    providers: Seq<Seq<char>>,
    target: Seq<char>,
    mode: ModeView,
) -> bool {
    exists|i: int|
        0 <= i < providers.len() && match mode {
            ModeView::AllProviders => #[trigger] providers[i] != target,
            ModeView::SourceProvider(from) => providers[i] == "(missing)"@ || providers[i] == from,
        }
}

/// Whether a rollout file with these providers has to be rewritten.
pub fn rewrite_needed_for_providers(
    providers: &Vec<String>,
    target_provider: &str,
    mode: &SessionRewriteMode,
) -> (r: bool)
    ensures
        r == providers_need_rewrite(text::texts(providers@), target_provider@, mode@),
{
    let ghost all = text::texts(providers@);
    let mut i: usize = 0;
    while i < providers.len()
        invariant
            i <= providers.len(),
            all == text::texts(providers@),
            forall|k: int|
                0 <= k < i ==> !match mode@ {
                    ModeView::AllProviders => #[trigger] all[k] != target_provider@,
                    ModeView::SourceProvider(from) => all[k] == "(missing)"@ || all[k] == from,
                },
        decreases providers.len() - i,
    {
        assert(all[i as int] == providers@[i as int]@);
        let needed = match mode {
            SessionRewriteMode::AllProviders => !text::same_text(
                providers[i].as_str(),
                target_provider,
            ),
            SessionRewriteMode::SourceProvider { source_provider } => text::same_text(
                providers[i].as_str(),
                "(missing)",
            ) || text::same_text(providers[i].as_str(), source_provider.as_str()),
        };
        if needed {
            return true;
        }
        i += 1;
    }
    false
}

/// What a scan would find, from what is recorded of an earlier one.
pub fn rollout_rewrite_from_scan_state(
    state: &ProviderSyncRolloutScanState,
    target_provider: &str,
    mode: &SessionRewriteMode,
) -> (r: RolloutRewrite)
    ensures
        r.rewrite_needed == providers_need_rewrite(state@.providers, target_provider@, mode@),
        text::text_of(r.thread_id) == state@.thread_id,
        text::text_of(r.cwd) == state@.cwd,
        text::texts(r.providers@) == state@.providers,
        r.session_meta_count == state.session_meta_count,
        r.has_user_event == state.has_user_event,
        r.has_encrypted_content == state.has_encrypted_content,
        r.marks_non_root_agent == state.marks_non_root_agent,
        r.original_sha256@ == state@.sha256,
        r.original_size == state.size,
{
    RolloutRewrite {
        rewrite_needed: rewrite_needed_for_providers(&state.providers, target_provider, mode),
        thread_id: text::copy_option(&state.thread_id),
        cwd: text::copy_option(&state.cwd),
        providers: text::copy_texts(&state.providers),
        session_meta_count: state.session_meta_count,
        has_user_event: state.has_user_event,
        has_encrypted_content: state.has_encrypted_content,
        marks_non_root_agent: state.marks_non_root_agent,
        original_sha256: text::copy_text(state.sha256.as_str()),
        original_size: state.size,
    }
}

/// Whether a thread is in a list.
pub open spec fn is_listed(thread_id: Option<Seq<char>>, ids: Seq<Seq<char>>) -> bool {
    match thread_id {
        Some(id) => ids.contains(id),
        None => false,
    }
}

/// Whether a thread is known and listed.
pub fn thread_is_listed(thread_id: &Option<String>, ids: &Vec<String>) -> (r: bool)
    ensures
        r == is_listed(text::text_of(*thread_id), text::texts(ids@)),
{
    match thread_id {
        Some(id) => text::contains_text(ids, id.as_str()),
        None => false,
    }
}

/// Whether what is recorded of a scan tells all that is needed: the file is not to
/// be rewritten, either because it is none of the user's or because it names the
/// target already.
pub open spec fn body_can_be_skipped(
    s: StateView,
    target: Seq<char>,
    excluded: Seq<Seq<char>>,
    explicit: Seq<Seq<char>>,
) -> bool {
    ||| s.session_meta_count == 0
    ||| s.marks_non_root_agent
    ||| !is_listed(s.thread_id, explicit) && is_listed(s.thread_id, excluded)
    ||| !providers_need_rewrite(s.providers, target, ModeView::AllProviders)
}

/// Whether a recorded rollout file need not be read again, since nothing in it is to be
/// rewritten.
pub fn provider_sync_cached_state_can_skip_body(
    state: &ProviderSyncRolloutScanState,
    target_provider: &str,
    excluded_thread_ids: &Vec<String>,
    explicit_user_thread_ids: &Vec<String>,
) -> (r: bool)
    ensures
        r == body_can_be_skipped(
            state@,
            target_provider@,
            text::texts(excluded_thread_ids@),
            text::texts(explicit_user_thread_ids@),
        ),
{
    if state.session_meta_count == 0 || state.marks_non_root_agent {
        return true;
    }
    if !thread_is_listed(&state.thread_id, explicit_user_thread_ids) && thread_is_listed(
        &state.thread_id,
        excluded_thread_ids,
    ) {
        return true;
    }
    !rewrite_needed_for_providers(
        &state.providers,
        target_provider,
        &SessionRewriteMode::AllProviders,
    )
}

// ---------------------------------------------------------------------------
// Making a record
// ---------------------------------------------------------------------------
/// What is seen of a file before, after and beside a scan.
pub struct ScanWitness {
    pub size: u64,
    pub modified: Option<ModifiedTime>,
    pub identity: Option<String>,
}

fn same_modified(a: Option<ModifiedTime>, b: Option<ModifiedTime>) -> (r: bool)
    ensures
        r == (a == b),
{
    match (a, b) {
        (Some(x), Some(y)) => x.secs == y.secs && x.nanos == y.nanos,
        (None, None) => true,
        _ => false,
    }
}

/// Whether a file stayed the same while it was scanned.
pub open spec fn is_stable(
    before: ScanWitness,
    after: ScanWitness,
    current: ScanWitness,
    scanned_size: u64,
) -> bool {
    &&& before.size == after.size
    &&& after.size == scanned_size
    &&& after.size == current.size
    &&& before.modified is Some
    &&& before.modified == after.modified
    &&& after.modified == current.modified
    &&& before.identity is Some
    &&& text::text_of(before.identity) == text::text_of(after.identity)
    &&& text::text_of(after.identity) == text::text_of(current.identity)
}

/// What is to be recorded of a scan; nothing where the file did not stay the same.
pub fn scan_state_of(
    relative_path: &str,
    found: &RolloutRewrite,
    before: &ScanWitness,
    after: &ScanWitness,
    current: &ScanWitness,
) -> (r: Option<ProviderSyncRolloutScanState>)
    ensures
        r is Some == is_stable(*before, *after, *current, found.original_size),
        r matches Some(s) ==> {
            &&& s.relative_path@ == relative_path@
            &&& s.size == found.original_size
            &&& s.modified_secs == recorded_secs(after.modified)
            &&& s.modified_nanos == recorded_nanos(after.modified)
            &&& Some(s.file_identity@) == text::text_of(after.identity)
            &&& s.sha256@ == found.original_sha256@
            &&& text::text_of(s.thread_id) == text::text_of(found.thread_id)
            &&& text::text_of(s.cwd) == text::text_of(found.cwd)
            &&& s.has_user_event == found.has_user_event
            &&& s.has_encrypted_content == found.has_encrypted_content
            &&& s.marks_non_root_agent == found.marks_non_root_agent
            &&& s.session_meta_count == found.session_meta_count
            &&& text::is_sorted_set(text::texts(s.providers@), text::texts(found.providers@))
        },
{
    let stable = before.size == after.size && after.size == found.original_size && after.size
        == current.size && before.modified.is_some() && same_modified(
        before.modified,
        after.modified,
    ) && same_modified(after.modified, current.modified) && before.identity.is_some()
        && text::same_option(&before.identity, &after.identity) && text::same_option(
        &after.identity,
        &current.identity,
    );
    if !stable {
        return None;
    }
    let (modified_secs, modified_nanos) = system_time_parts(after.modified);
    let file_identity = match &after.identity {
        Some(s) => text::copy_text(s.as_str()),
        None => String::new(),
    };
    Some(
        ProviderSyncRolloutScanState {
            relative_path: text::copy_text(relative_path),
            size: found.original_size,
            modified_secs,
            modified_nanos,
            file_identity,
            sha256: text::copy_text(found.original_sha256.as_str()),
            thread_id: text::copy_option(&found.thread_id),
            cwd: text::copy_option(&found.cwd),
            has_user_event: found.has_user_event,
            has_encrypted_content: found.has_encrypted_content,
            marks_non_root_agent: found.marks_non_root_agent,
            session_meta_count: found.session_meta_count,
            providers: text::sorted_set(&found.providers),
        },
    )
}

// ---------------------------------------------------------------------------
// Recording a transaction that was committed
// ---------------------------------------------------------------------------
/// What is recorded of a file after a transaction was committed: what stands in it
/// now where the transaction replaced it; otherwise what was recorded before, as
/// long as it holds and the file is not to be rewritten.
pub open spec fn state_after_commit(
    s: StateView,
    entry: Option<SessionTransactionEntry>,
    target: Seq<char>,
    o: Option<FileObservation>,
) -> Option<StateView> {
    match entry {
        Some(e) => match o {
            Some(f) => if f.is_file && f.size == e.next_size && f.modified is Some {
                Some(
                    StateView {
                        size: e.next_size,
                        sha256: e.next_sha256@,
                        providers: if s.session_meta_count > 0 {
                            seq![target]
                        } else {
                            s.providers
                        },
                        file_identity: f.identity@,
                        modified_secs: recorded_secs(f.modified),
                        modified_nanos: recorded_nanos(f.modified),
                        ..s
                    },
                )
            } else {
                None
            },
            None => None,
        },
        None => {
            let needed = s.session_meta_count > 0 && !s.marks_non_root_agent
                && providers_need_rewrite(s.providers, target, ModeView::AllProviders);
            if !needed && is_scanned_file(o, s) {
                Some(s)
            } else {
                None
            }
        },
    }
}

pub open spec fn state_of(o: Option<ProviderSyncRolloutScanState>) -> Option<StateView> {
    match o {
        Some(s) => Some(s@),
        None => None,
    }
}

fn committed_state(
    state: &ProviderSyncRolloutScanState,
    entry: Option<&SessionTransactionEntry>,
    target_provider: &str,
    observed: &Option<FileObservation>,
) -> (r: Option<ProviderSyncRolloutScanState>)
    ensures
        state_of(r) == state_after_commit(
            state@,
            match entry {
                Some(e) => Some(*e),
                None => None,
            },
            target_provider@,
            *observed,
        ),
{
    match entry {
        Some(e) => match observed {
            Some(f) => {
                if !f.is_file || f.size != e.next_size || f.modified.is_none() {
                    return None;
                }
                let mut next = copy_state(state);
                next.size = e.next_size;
                next.sha256 = text::copy_text(e.next_sha256.as_str());
                if next.session_meta_count > 0 {
                    let mut providers: Vec<String> = Vec::new();
                    providers.push(text::copy_text(target_provider));
                    assert(text::texts(providers@) =~= seq![target_provider@]);
                    next.providers = providers;
                }
                next.file_identity = text::copy_text(f.identity.as_str());
                let (secs, nanos) = system_time_parts(f.modified);
                next.modified_secs = secs;
                next.modified_nanos = nanos;
                Some(next)
            },
            None => None,
        },
        None => {
            let needed = state.session_meta_count > 0 && !state.marks_non_root_agent
                && rewrite_needed_for_providers(
                &state.providers,
                target_provider,
                &SessionRewriteMode::AllProviders,
            );
            if !needed && provider_sync_scan_state_matches(observed, state) {
                Some(copy_state(state))
            } else {
                None
            }
        },
    }
}

/// The last entry of a transaction with this path.
pub open spec fn entry_for(
    entries: Seq<SessionTransactionEntry>,
    path: Seq<char>,
) -> Option<SessionTransactionEntry>
    decreases entries.len(),
{
    if entries.len() == 0 {
        None
    } else if entries.last().relative_path@ == path {
        Some(entries.last())
    } else {
        entry_for(entries.drop_last(), path)
    }
}

fn find_transaction_entry<'a>(entries: &'a Vec<SessionTransactionEntry>, path: &str) -> (r: Option<
    &'a SessionTransactionEntry,
>)
    ensures
        (match r {
            Some(e) => Some(*e),
            None => None,
        }) == entry_for(entries@, path@),
{
    let mut n: usize = entries.len();
    assert(entries@.take(n as int) =~= entries@);
    while n > 0
        invariant
            n <= entries.len(),
            entry_for(entries@, path@) == entry_for(entries@.take(n as int), path@),
        decreases n,
    {
        assert(entries@.take(n as int).drop_last() =~= entries@.take(n - 1));
        assert(entries@.take(n as int).last() == entries@[n - 1]);
        if text::same_text(entries[n - 1].relative_path.as_str(), path) {
            return Some(&entries[n - 1]);
        }
        n -= 1;
    }
    None
}

/// What is recorded after a transaction was committed, from what is recorded of
/// each file and what is seen of it.
pub open spec fn states_after_commit(
    entries: Seq<SessionTransactionEntry>,
    target: Seq<char>,
    states: Seq<StateView>,
    observed: Seq<Option<FileObservation>>,
) -> Seq<StateView>
    decreases states.len(),
{
    if states.len() == 0 {
        Seq::empty()
    } else {
        let n = states.len() - 1;
        let before = states_after_commit(entries, target, states.drop_last(), observed);
        match state_after_commit(
            states[n],
            entry_for(entries, states[n].relative_path),
            target,
            observed[n],
        ) {
            Some(s) => before.push(s),
            None => before,
        }
    }
}

pub open spec fn all_paths_fit(states: Seq<StateView>, windows: bool) -> bool {
    forall|i: int|
        0 <= i < states.len() ==> names::rollout_root(
            (#[trigger] states[i]).relative_path,
            windows,
        ) is Ok
}

/// What is to be recorded after a full transaction was committed. `observed` holds
/// what is seen of the file of each entry.
pub fn committed_provider_sync_scan_state(
    transaction: &SessionTransactionManifest,
    target_provider: &str,
    entries: &Vec<ProviderSyncRolloutScanState>,
    observed: &Vec<Option<FileObservation>>,
    windows: bool,
) -> (r: Result<Vec<ProviderSyncRolloutScanState>, ScanStateError>)
    requires
        observed@.len() == entries@.len(),
    ensures
        match r {
            Ok(states) => transaction.committed() && transaction.mode
                == SessionTransactionMode::Full && all_paths_fit(states_of(entries@), windows) && states_of(
                states@,
            ) == states_after_commit(
                transaction.entries@,
                target_provider@,
                states_of(entries@),
                observed@,
            ),
            Err(e) => if !transaction.committed() || transaction.mode
                != SessionTransactionMode::Full {
                e == ScanStateError::NotCommitted
            } else {
                e == ScanStateError::InvalidPath && !all_paths_fit(states_of(entries@), windows)
            },
        },
{
    let full = match transaction.mode {
        SessionTransactionMode::Full => true,
        SessionTransactionMode::Remote => false,
    };
    if !transaction::is_committed(transaction) || !full {
        return Err(ScanStateError::NotCommitted);
    }
    let ghost all = states_of(entries@);
    let mut out: Vec<ProviderSyncRolloutScanState> = Vec::new();
    let mut i: usize = 0;
    assert(states_of(out@) =~= Seq::<StateView>::empty());
    while i < entries.len()
        invariant
            i <= entries.len(),
            observed@.len() == entries@.len(),
            all == states_of(entries@),
            transaction.committed(),
            transaction.mode == SessionTransactionMode::Full,
            forall|k: int|
                0 <= k < i ==> names::rollout_root(
                    (#[trigger] all[k]).relative_path,
                    windows,
                ) is Ok,
            states_of(out@) == states_after_commit(
                transaction.entries@,
                target_provider@,
                all.take(i as int),
                observed@,
            ),
        decreases entries.len() - i,
    {
        let state = &entries[i];
        proof {
            assert(all[i as int] == state@);
            assert(all.take(i + 1).drop_last() =~= all.take(i as int));
            assert(all.take(i + 1)[i as int] == state@);
        }
        if names::validated_rollout_relative_path(state.relative_path.as_str(), windows).is_err() {
            assert(names::rollout_root(all[i as int].relative_path, windows) is Err);
            return Err(ScanStateError::InvalidPath);
        }
        let entry = find_transaction_entry(&transaction.entries, state.relative_path.as_str());
        if let Some(next) = committed_state(state, entry, target_provider, &observed[i]) {
            let ghost before = states_of(out@);
            let ghost v = next@;
            out.push(next);
            assert(states_of(out@) =~= before.push(v));
        }
        i += 1;
    }
    assert(all.take(i as int) =~= all);
    Ok(out)
}

// ---------------------------------------------------------------------------
// Laws
// ---------------------------------------------------------------------------
/// What is recorded of a scan tells the same about rewriting as the scan itself,
/// unless the target is named like a missing provider.
pub proof fn lemma_record_agrees_with_scan(
    lines: Seq<Seq<u8>>,
    target: Seq<char>,
    recorded: Seq<Seq<char>>,
)
    requires
        rollout::scan_lines(lines, target, ModeView::AllProviders) is Some,
        text::is_sorted_set(
            recorded,
            rollout::scan_lines(lines, target, ModeView::AllProviders)->0.providers,
        ),
        target != "(missing)"@,
    ensures
        providers_need_rewrite(recorded, target, ModeView::AllProviders)
            == rollout::scan_lines(lines, target, ModeView::AllProviders)->0.rewrite_needed,
{
    let found = rollout::scan_lines(lines, target, ModeView::AllProviders)->0;
    lemma_providers_tell(lines, target);
    if providers_need_rewrite(recorded, target, ModeView::AllProviders) {
        let i = choose|i: int| 0 <= i < recorded.len() && #[trigger] recorded[i] != target;
        assert(recorded.contains(recorded[i]));
        let k = choose|k: int| 0 <= k < found.providers.len() && found.providers[k] == recorded[i];
        assert(found.providers[k] != target);
    }
    if providers_need_rewrite(found.providers, target, ModeView::AllProviders) {
        let k = choose|k: int|
            0 <= k < found.providers.len() && #[trigger] found.providers[k] != target;
        assert(found.providers.contains(found.providers[k]));
        assert(recorded.contains(found.providers[k]));
        let i = choose|i: int| 0 <= i < recorded.len() && recorded[i] == found.providers[k];
        assert(recorded[i] != target);
    }
}

proof fn lemma_providers_tell(lines: Seq<Seq<u8>>, target: Seq<char>)
    requires
        rollout::scan_lines(lines, target, ModeView::AllProviders) is Some,
        target != "(missing)"@,
    ensures
        providers_need_rewrite(
            rollout::scan_lines(lines, target, ModeView::AllProviders)->0.providers,
            target,
            ModeView::AllProviders,
        ) == rollout::scan_lines(lines, target, ModeView::AllProviders)->0.rewrite_needed,
    decreases lines.len(),
{
    if lines.len() > 0 {
        lemma_providers_tell(lines.drop_last(), target);
        let before = rollout::scan_lines(lines.drop_last(), target, ModeView::AllProviders)->0;
        let after = rollout::scan_lines(lines, target, ModeView::AllProviders)->0;
        let t = vstd::utf8::decode_utf8(rollout::line_content(lines.last()));
        if let Some(record) = rollout::meta_record(t) {
            if let Some(p) = rollout::payload_of(record) {
                let name = rollout::provider_name(rollout::provider_of(p));
                assert(after.providers == text::with_text(before.providers, name));
                if before.providers.contains(name) {
                    let k = choose|k: int|
                        0 <= k < before.providers.len() && before.providers[k] == name;
                    if name != target {
                        assert(before.providers[k] != target);
                    }
                } else {
                    let n = before.providers.len() as int;
                    assert(after.providers[n] == name);
                    if providers_need_rewrite(before.providers, target, ModeView::AllProviders) {
                        let k = choose|k: int|
                            0 <= k < before.providers.len() && #[trigger] before.providers[k]
                                != target;
                        assert(after.providers[k] != target);
                    }
                    if providers_need_rewrite(after.providers, target, ModeView::AllProviders) {
                        let k = choose|k: int|
                            0 <= k < after.providers.len() && #[trigger] after.providers[k]
                                != target;
                        if k < n {
                            assert(before.providers[k] != target);
                        }
                    }
                }
            }
        }
    }
}

/// A file that a committed transaction replaced is settled: what is recorded of it
/// says that nothing is left to rewrite.
pub proof fn lemma_committed_file_is_settled(
    s: StateView,
    entry: SessionTransactionEntry,
    target: Seq<char>,
    o: Option<FileObservation>,
    excluded: Seq<Seq<char>>,
    explicit: Seq<Seq<char>>,
)
    requires
        state_after_commit(s, Some(entry), target, o) is Some,
    ensures
        body_can_be_skipped(
            state_after_commit(s, Some(entry), target, o)->0,
            target,
            excluded,
            explicit,
        ),
{
    let next = state_after_commit(s, Some(entry), target, o)->0;
    if s.session_meta_count > 0 {
        assert(next.providers == seq![target]);
    }
}

/// Recorded providers ask for a rewrite of all sessions unless the target is the only one
/// of them, and for the replacement of one provider where it is among them or a record
/// named none.
pub proof fn lemma_recorded_providers_tell(
    providers: Seq<Seq<char>>,
    target: Seq<char>,
    from: Seq<char>,
)
    ensures
        !providers_need_rewrite(providers, target, ModeView::AllProviders) <==> forall|
            p: Seq<char>,
        | #[trigger]
            providers.contains(p) ==> p == target,
        providers_need_rewrite(providers, target, ModeView::SourceProvider(from))
            <==> providers.contains("(missing)"@) || providers.contains(from),
{
    if providers_need_rewrite(providers, target, ModeView::AllProviders) {
        let i = choose|i: int| 0 <= i < providers.len() && #[trigger] providers[i] != target;
        assert(providers.contains(providers[i]));
    } else {
        assert forall|p: Seq<char>| #[trigger] providers.contains(p) implies p == target by {
            let i = choose|i: int| 0 <= i < providers.len() && providers[i] == p;
            assert(providers[i] == p);
        }
    }
    if providers.contains("(missing)"@) {
        let i = choose|i: int| 0 <= i < providers.len() && providers[i] == "(missing)"@;
        assert(providers[i] == "(missing)"@);
    }
    if providers.contains(from) {
        let i = choose|i: int| 0 <= i < providers.len() && providers[i] == from;
        assert(providers[i] == from);
    }
}

/// The body of a file need not be read again where its record says that nothing in it would
/// be rewritten: it has no session, it is not a root thread's, its thread is left out and
/// not the user's for certain, or the target is the only provider in it. Otherwise it is
/// read.
pub proof fn lemma_body_is_read_where_it_matters(
    s: StateView,
    target: Seq<char>,
    excluded: Seq<Seq<char>>,
    explicit: Seq<Seq<char>>,
)
    ensures
        s.session_meta_count == 0 ==> body_can_be_skipped(s, target, excluded, explicit),
        s.marks_non_root_agent ==> body_can_be_skipped(s, target, excluded, explicit),
        (forall|p: Seq<char>| #[trigger] s.providers.contains(p) ==> p == target)
            ==> body_can_be_skipped(s, target, excluded, explicit),
        s.thread_id matches Some(id) ==> excluded.contains(id) && !explicit.contains(id)
            ==> body_can_be_skipped(s, target, excluded, explicit),
        ({
            &&& s.session_meta_count > 0
            &&& !s.marks_non_root_agent
            &&& exists|p: Seq<char>| #[trigger] s.providers.contains(p) && p != target
            &&& s.thread_id matches Some(id) ==> !excluded.contains(id) || explicit.contains(id)
        }) ==> !body_can_be_skipped(s, target, excluded, explicit),
{
    lemma_recorded_providers_tell(s.providers, target, target);
}

/// A file is the one that was scanned where size, identity and time of modification are
/// those on record. A time before 1970 is never on record, so such a file is always scanned
/// again; so is one that is no file any more.
pub proof fn lemma_file_on_record(f: FileObservation, s: StateView)
    ensures
        ({
            let same = f.is_file && f.size == s.size && f.identity@ == s.file_identity && (
            f.modified matches Some(time) && time.secs >= 0 && s.modified_secs == Some(
                time.secs as u64,
            ) && s.modified_nanos == Some(time.nanos));
            is_scanned_file(Some(f), s) <==> same
        }),
        !is_scanned_file(None, s),
{
}

/// After a commit the record of a file that was rewritten tells of the new content, with
/// the target as its only provider, and of the file as it is now; a file that is not as it
/// was written has no record. The record of a file that was left alone stays, where the
/// file is still the one that was scanned and nothing in it was to be rewritten.
pub proof fn lemma_record_after_commit(
    s: StateView,
    entry: Option<SessionTransactionEntry>,
    target: Seq<char>,
    o: Option<FileObservation>,
)
    ensures
        ({
            let next = state_after_commit(s, entry, target, o);
            &&& entry matches Some(e) ==> {
                &&& next is Some <==> (o matches Some(f) && f.is_file && f.size == e.next_size
                    && f.modified is Some)
                &&& next matches Some(n) ==> {
                    &&& n.size == e.next_size
                    &&& n.sha256 == e.next_sha256@
                    &&& n.file_identity == o->0.identity@
                    &&& n.session_meta_count > 0 ==> n.providers == seq![target]
                    &&& n.session_meta_count == 0 ==> n.providers == s.providers
                    &&& n.relative_path == s.relative_path
                    &&& n.thread_id == s.thread_id
                    &&& n.cwd == s.cwd
                    &&& n.session_meta_count == s.session_meta_count
                    &&& n.has_user_event == s.has_user_event
                    &&& n.has_encrypted_content == s.has_encrypted_content
                    &&& n.marks_non_root_agent == s.marks_non_root_agent
                    &&& o->0.modified->0.secs >= 0 ==> is_scanned_file(o, n)
                }
            }
            &&& entry is None ==> {
                let left = s.session_meta_count == 0 || s.marks_non_root_agent || forall|
                    p: Seq<char>,
                | #[trigger]
                    s.providers.contains(p) ==> p == target;
                &&& left && is_scanned_file(o, s) ==> next == Some(s)
                &&& !(left && is_scanned_file(o, s)) ==> next is None
            }
        }),
{
    lemma_recorded_providers_tell(s.providers, target, target);
}

/// The entry of a transaction for a path is one of its entries that has the path; there is
/// none only where no entry has it.
pub proof fn lemma_entry_for_path(entries: Seq<SessionTransactionEntry>, path: Seq<char>)
    ensures
        match entry_for(entries, path) {
            Some(e) => e.relative_path@ == path && entries.contains(e),
            None => forall|i: int|
                0 <= i < entries.len() ==> (#[trigger] entries[i]).relative_path@ != path,
        },
    decreases entries.len(),
{
    if entries.len() > 0 {
        let init = entries.drop_last();
        let n = entries.len() - 1;
        lemma_entry_for_path(init, path);
        if entries[n].relative_path@ == path {
            assert(entries.contains(entries[n]));
        } else {
            match entry_for(init, path) {
                Some(e) => {
                    let i = choose|i: int| 0 <= i < init.len() && init[i] == e;
                    assert(entries[i] == e);
                },
                None => {
                    assert forall|i: int| 0 <= i < entries.len() implies (
                    #[trigger] entries[i]).relative_path@ != path by {
                        if i < n {
                            assert(init[i] == entries[i]);
                        }
                    }
                },
            }
        }
    }
}

/// The records after a commit are those of the single files, in the same order.
pub proof fn lemma_records_after_commit(
    entries: Seq<SessionTransactionEntry>,
    target: Seq<char>,
    states: Seq<StateView>,
    observed: Seq<Option<FileObservation>>,
    n: StateView,
)
    requires
        observed.len() == states.len(),
    ensures
        states_after_commit(entries, target, states, observed).contains(n) <==> exists|i: int|
            0 <= i < states.len() && state_after_commit(
                #[trigger] states[i],
                entry_for(entries, states[i].relative_path),
                target,
                observed[i],
            ) == Some(n),
        states_after_commit(entries, target, states, observed).len() <= states.len(),
{
    lemma_records_after_commit_of(entries, target, states, observed, n);
}

proof fn lemma_records_after_commit_of(
    entries: Seq<SessionTransactionEntry>,
    target: Seq<char>,
    states: Seq<StateView>,
    observed: Seq<Option<FileObservation>>,
    n: StateView,
)
    ensures
        states_after_commit(entries, target, states, observed).contains(n) <==> exists|i: int|
            0 <= i < states.len() && state_after_commit(
                #[trigger] states[i],
                entry_for(entries, states[i].relative_path),
                target,
                observed[i],
            ) == Some(n),
        states_after_commit(entries, target, states, observed).len() <= states.len(),
    decreases states.len(),
{
    if states.len() > 0 {
        let init = states.drop_last();
        let k = states.len() - 1;
        lemma_records_after_commit_of(entries, target, init, observed, n);
        let before = states_after_commit(entries, target, init, observed);
        let last = state_after_commit(
            states[k],
            entry_for(entries, states[k].relative_path),
            target,
            observed[k],
        );
        if let Some(s) = last {
            text::lemma_push_contains(before, s, n);
        }
        if before.contains(n) {
            let i = choose|i: int|
                0 <= i < init.len() && state_after_commit(
                    #[trigger] init[i],
                    entry_for(entries, init[i].relative_path),
                    target,
                    observed[i],
                ) == Some(n);
            assert(states[i] == init[i]);
        }
        if exists|i: int|
            0 <= i < states.len() && state_after_commit(
                #[trigger] states[i],
                entry_for(entries, states[i].relative_path),
                target,
                observed[i],
            ) == Some(n) {
            let i = choose|i: int|
                0 <= i < states.len() && state_after_commit(
                    #[trigger] states[i],
                    entry_for(entries, states[i].relative_path),
                    target,
                    observed[i],
                ) == Some(n);
            if i < k {
                assert(init[i] == states[i]);
            }
        }
    }
}

/// What was seen of a file before, during and after a scan has to agree in every respect
/// for the scan to go on record: any difference in size, time or identity, and any of them
/// that is not known, keeps it off.
pub proof fn lemma_only_stable_scans_are_recorded(
    before: ScanWitness,
    after: ScanWitness,
    current: ScanWitness,
    scanned_size: u64,
)
    requires
        is_stable(before, after, current, scanned_size),
    ensures
        before.size == scanned_size && after.size == scanned_size && current.size == scanned_size,
        before.modified is Some && after.modified == before.modified && current.modified
            == before.modified,
        before.identity is Some && after.identity is Some && current.identity is Some,
        before.identity->0@ == after.identity->0@ && current.identity->0@ == before.identity->0@,
{
}

/// What a record is held to: the bounds on its parts.
pub proof fn lemma_bounds_of_a_record(s: StateView, windows: bool)
    requires
        state_fits(s, windows),
    ensures
        encode_utf8(s.relative_path).len() <= 32768,
        0 < s.file_identity.len() && encode_utf8(s.file_identity).len() <= 512,
        s.sha256.len() == 64,
        s.thread_id matches Some(id) ==> encode_utf8(id).len() <= 512,
        s.cwd matches Some(c) ==> encode_utf8(c).len() <= 32768,
        s.providers.len() <= 1024,
        forall|p: Seq<char>| #[trigger] s.providers.contains(p) ==> encode_utf8(p).len() <= 512,
        s.providers.no_duplicates(),
        s.modified_secs is Some <==> s.modified_nanos is Some,
{
    assert forall|p: Seq<char>| #[trigger] s.providers.contains(p) implies encode_utf8(p).len()
        <= 512 by {
        let i = choose|i: int| 0 <= i < s.providers.len() && s.providers[i] == p;
        assert(byte_length(s.providers[i]) <= 512);
    }
    assert forall|i: int, j: int| 0 <= i < j < s.providers.len() implies s.providers[i]
        != s.providers[j] by {
        assert(text::text_less(s.providers[i], s.providers[j]));
        text::lemma_text_less_total(s.providers[i], s.providers[j]);
    }
}

/// A record is accepted where all its parts keep within their bounds, and only there.
pub proof fn lemma_which_records_are_accepted(s: StateView, windows: bool)
    ensures
        state_fits(s, windows) <==> {
            &&& names::rollout_root(s.relative_path, windows) is Ok
            &&& encode_utf8(s.relative_path).len() <= 32768
            &&& 0 < s.file_identity.len() && encode_utf8(s.file_identity).len() <= 512
            &&& digest::is_sha256_hex(s.sha256)
            &&& s.modified_secs is Some <==> s.modified_nanos is Some
            &&& s.thread_id matches Some(id) ==> encode_utf8(id).len() <= 512
            &&& s.cwd matches Some(c) ==> encode_utf8(c).len() <= 32768
            &&& s.providers.len() <= 1024
            &&& forall|i: int|
                0 <= i < s.providers.len() ==> encode_utf8(#[trigger] s.providers[i]).len() <= 512
            &&& forall|i: int, j: int|
                0 <= i < j < s.providers.len() ==> text::text_less(s.providers[i], s.providers[j])
        },
{
    if state_fits(s, windows) {
        assert forall|i: int| 0 <= i < s.providers.len() implies encode_utf8(
            #[trigger] s.providers[i],
        ).len() <= 512 by {
            assert(byte_length(s.providers[i]) <= 512);
        }
    }
    if forall|i: int|
        0 <= i < s.providers.len() ==> encode_utf8(#[trigger] s.providers[i]).len() <= 512 {
        assert forall|i: int| 0 <= i < s.providers.len() implies byte_length(
            #[trigger] s.providers[i],
        ) <= 512 by {}
    }
}

/// A scan goes on record where what was seen of the file before, during and after it agrees
/// in size, time and identity, and all of that is known.
pub proof fn lemma_which_scans_are_recorded(
    before: ScanWitness,
    after: ScanWitness,
    current: ScanWitness,
    scanned_size: u64,
)
    requires
        before.size == scanned_size && after.size == scanned_size && current.size == scanned_size,
        before.modified is Some && after.modified == before.modified && current.modified
            == before.modified,
        before.identity is Some && after.identity is Some && current.identity is Some,
        before.identity->0@ == after.identity->0@ && current.identity->0@ == before.identity->0@,
    ensures
        is_stable(before, after, current, scanned_size),
{
}

/// A collection of records is supported where it is of the version, the namespace and the
/// rules that are known, speaks of the same rollout directories, and does not hold too many
/// records.
pub proof fn lemma_which_collections_are_supported(
    m: ProviderSyncRolloutScanStateManifest,
    rules_sha256: Seq<char>,
    roots: Seq<RolloutRoot>,
)
    ensures
        is_supported(m, rules_sha256, roots) <==> {
            &&& m.version == 1
            &&& m.namespace@ == "provider-sync-rollout-scan-state"@
            &&& m.rules_sha256@ == rules_sha256
            &&& m.entries@.len() <= 100000
            &&& same_roots(m.rollout_roots@, roots)
        },
        same_roots(m.rollout_roots@, roots) <==> {
            &&& forall|i: int|
                0 <= i < roots.len() ==> is_among(m.rollout_roots@, #[trigger] roots[i])
            &&& forall|i: int|
                0 <= i < m.rollout_roots@.len() ==> is_among(roots, #[trigger] m.rollout_roots@[i])
        },
{
    let own = m.rollout_roots@;
    assert forall|v: Seq<RolloutRoot>, r: RolloutRoot| #[trigger] is_among(v, r) == has_root(
        v,
        r,
    ) by {
        if is_among(v, r) {
            let k = choose|k: int|
                0 <= k < v.len() && (#[trigger] v[k]).name@ == r.name@ && v[k].canonical_path@
                    == r.canonical_path@ && v[k].identity@ == r.identity@;
            assert(same_root(v[k], r));
        }
        if has_root(v, r) {
            let k = choose|k: int| 0 <= k < v.len() && same_root(#[trigger] v[k], r);
            assert(v[k].name@ == r.name@);
        }
    }
    if same_roots(own, roots) {
        assert forall|i: int| 0 <= i < roots.len() implies is_among(own, #[trigger] roots[i]) by {
            assert(has_root(own, roots[i]));
        }
        assert forall|i: int| 0 <= i < own.len() implies is_among(roots, #[trigger] own[i]) by {
            assert(has_root(roots, own[i]));
        }
    }
    if (forall|i: int| 0 <= i < roots.len() ==> is_among(own, #[trigger] roots[i])) && (forall|
        i: int,
    |
        0 <= i < own.len() ==> is_among(roots, #[trigger] own[i])) {
        assert forall|i: int| 0 <= i < roots.len() implies has_root(own, #[trigger] roots[i]) by {
            assert(is_among(own, roots[i]));
        }
        assert forall|i: int| 0 <= i < own.len() implies has_root(roots, #[trigger] own[i]) by {
            assert(is_among(roots, own[i]));
        }
    }
}

/// Whether a rollout directory is among some, by its name, its place and its identity.
pub open spec fn is_among(roots: Seq<RolloutRoot>, r: RolloutRoot) -> bool {
    exists|k: int|
        0 <= k < roots.len() && (#[trigger] roots[k]).name@ == r.name@ && roots[k].canonical_path@
            == r.canonical_path@ && roots[k].identity@ == r.identity@
}

/// A time goes on record where it is not before 1970, with its seconds and nanoseconds.
pub proof fn lemma_which_times_are_recorded(secs: i64, nanos: u32)
    ensures
        ({
            let time = Some(ModifiedTime { secs, nanos });
            &&& secs >= 0 ==> recorded_secs(time) == Some(secs as u64) && recorded_nanos(time)
                == Some(nanos)
            &&& secs < 0 ==> recorded_secs(time) is None && recorded_nanos(time) is None
        }),
        recorded_secs(None) is None && recorded_nanos(None) is None,
{
}

/// A thread is listed where its id is.
pub proof fn lemma_which_threads_are_listed(thread_id: Option<Seq<char>>, ids: Seq<Seq<char>>)
    ensures
        is_listed(thread_id, ids) <==> (thread_id matches Some(id) && ids.contains(id)),
{
}

/// The rules of a scan are told by the digest of their name and of the version of the
/// program, with a zero byte between them.
pub proof fn lemma_digest_of_the_rules(version: Seq<char>)
    ensures
        rules_digest(version) == digest::sha256_hex(
            encode_utf8(PROVIDER_SYNC_SCAN_RULES@) + seq![0u8] + encode_utf8(version),
        ),
{
    assert(encode_utf8(PROVIDER_SYNC_SCAN_RULES@).push(0u8) =~= encode_utf8(
        PROVIDER_SYNC_SCAN_RULES@,
    ) + seq![0u8]);
}

/// What is known of a record as a value stands in the fields that have its name.
pub proof fn lemma_record_as_a_value(s: ProviderSyncRolloutScanState)
    ensures
        s@.relative_path == s.relative_path@,
        s@.size == s.size,
        s@.modified_secs == s.modified_secs,
        s@.modified_nanos == s.modified_nanos,
        s@.file_identity == s.file_identity@,
        s@.sha256 == s.sha256@,
        s@.thread_id == text::text_of(s.thread_id),
        s@.cwd == text::text_of(s.cwd),
        s@.has_user_event == s.has_user_event,
        s@.has_encrypted_content == s.has_encrypted_content,
        s@.marks_non_root_agent == s.marks_non_root_agent,
        s@.session_meta_count == s.session_meta_count,
        s@.providers == text::texts(s.providers@),
{
}

/// Records are accepted together where each of them is and no two are of one path.
pub proof fn lemma_records_are_accepted_together(entries: Seq<StateView>, windows: bool)
    ensures
        entries_fit(entries, windows) <==> (forall|i: int|
            0 <= i < entries.len() ==> state_fits(#[trigger] entries[i], windows)) && (forall|
            i: int,
            j: int,
        |
            0 <= i < j < entries.len() ==> entries[i].relative_path != entries[j].relative_path),
        all_paths_fit(entries, windows) <==> forall|i: int|
            0 <= i < entries.len() ==> names::rollout_root(
                (#[trigger] entries[i]).relative_path,
                windows,
            ) is Ok,
{
}

/// What records are told by, and how large a collection of them may be.
pub proof fn lemma_limits_of_records()
    ensures
        PROVIDER_SYNC_SCAN_STATE_VERSION == 1,
        PROVIDER_SYNC_SCAN_STATE_MAX_BYTES == 32 * 1024 * 1024,
        PROVIDER_SYNC_SCAN_STATE_MAX_ENTRIES == 100000,
        PROVIDER_SYNC_SCAN_STATE_NAMESPACE@ == "provider-sync-rollout-scan-state"@,
        PROVIDER_SYNC_SCAN_RULES@
            == "provider-sync-rollout-scan/v1;utf8-jsonl;session_meta-payload-id-cwd-model_provider;user_message-or-user_input;encrypted_content-byte-marker;non-root-agent-source;missing-provider-sentinel"@,
{
}

/// Records are written in the order of their paths, whatever order they come in.
pub proof fn lemma_records_are_written_in_order(v: Seq<StateView>)
    ensures
        forall|i: int, j: int|
            0 <= i < j < path_sorted(v).len() ==> path_sorted(v)[i].relative_path
                == path_sorted(v)[j].relative_path || text::text_less(
                path_sorted(v)[i].relative_path,
                path_sorted(v)[j].relative_path,
            ),
        path_sorted(v).to_multiset() == v.to_multiset(),
{
    lemma_path_sorted(v);
    assert forall|i: int, j: int| 0 <= i < j < path_sorted(v).len() implies path_sorted(
        v,
    )[i].relative_path == path_sorted(v)[j].relative_path || text::text_less(
        path_sorted(v)[i].relative_path,
        path_sorted(v)[j].relative_path,
    ) by {
        text::lemma_text_less_total(
            path_sorted(v)[i].relative_path,
            path_sorted(v)[j].relative_path,
        );
    }
}

} // verus!
