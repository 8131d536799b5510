//! The session index: one JSON record per line for each thread that the desktop
//! application lists. Entries of threads that no longer exist can be removed, and
//! entries that were removed can be put back.

use crate::digest;
use crate::json;
use crate::json::{Json, JsonView};
use crate::text;
use vstd::prelude::*;
use vstd::utf8::encode_utf8;

verus! {

// ---------------------------------------------------------------------------
// Entries
// ---------------------------------------------------------------------------
/// An entry of the session index that can be removed.
#[derive(Debug)]
pub struct SessionIndexCleanupCandidate {
    pub id: String,
    pub thread_name: String,
    pub updated_at: String,
}

/// What an entry says.
#[verifier::ext_equal]
pub struct IndexEntry {
    pub id: Seq<char>,
    pub thread_name: Seq<char>,
    pub updated_at: Seq<char>,
}

impl View for SessionIndexCleanupCandidate {
    type V = IndexEntry;

    open spec fn view(&self) -> IndexEntry {
        IndexEntry {
            id: self.id@,
            thread_name: self.thread_name@,
            updated_at: self.updated_at@,
        }
    }
}

pub open spec fn candidate_of(o: Option<SessionIndexCleanupCandidate>) -> Option<IndexEntry> {
    match o {
        Some(c) => Some(c@),
        None => None,
    }
}

pub open spec fn candidates_of(v: Seq<SessionIndexCleanupCandidate>) -> Seq<IndexEntry> {
    v.map_values(|c: SessionIndexCleanupCandidate| c@)
}

/// Whether an object has the three members of an index entry and no other.
pub open spec fn has_entry_members(m: Map<Seq<char>, JsonView>) -> bool {
    &&& m.contains_key("id"@)
    &&& m.contains_key("thread_name"@)
    &&& m.contains_key("updated_at"@)
    &&& forall|k: Seq<char>| #[trigger]
        m.contains_key(k) ==> k == "id"@ || k == "thread_name"@ || k == "updated_at"@
}

/// The entry that a line holds. A line of any other form is never touched.
pub open spec fn index_entry(line: Seq<char>) -> Option<IndexEntry> {
    match json::parsed_json(line) {
        Some(JsonView::Object(m)) => if has_entry_members(m) {
            match (m["id"@], m["thread_name"@], m["updated_at"@]) {
                (
                    JsonView::Text(id),
                    JsonView::Text(thread_name),
                    JsonView::Text(updated_at),
                ) => if text::trim(id).len() == 0 || text::is_blank(updated_at) {
                    None
                } else {
                    Some(IndexEntry { id: text::trim(id), thread_name, updated_at })
                },
                _ => None,
            }
        } else {
            None
        },
        _ => None,
    }
}

/// The entry that a line of the index holds, line ending aside.
pub open spec fn segment_entry(segment: Seq<char>) -> Option<IndexEntry> {
    index_entry(text::line_body(segment))
}

/// Whether a line holds the entry of one of these threads.
pub open spec fn is_selected(segment: Seq<char>, ids: Seq<Seq<char>>) -> bool {
    match segment_entry(segment) {
        Some(e) => ids.contains(e.id),
        None => false,
    }
}

fn only_entry_members(fields: &Vec<(String, Json)>) -> (r: bool)
    ensures
        r == forall|k: Seq<char>| #[trigger]
            json::fields_view(fields@).contains_key(k) ==> k == "id"@ || k == "thread_name"@ || k
                == "updated_at"@,
{
    let ghost m = json::fields_view(fields@);
    let mut i: usize = 0;
    while i < fields.len()
        invariant
            i <= fields.len(),
            m == json::fields_view(fields@),
            forall|k: int|
                0 <= k < i ==> (#[trigger] fields@[k]).0@ == "id"@ || fields@[k].0@
                    == "thread_name"@ || fields@[k].0@ == "updated_at"@,
        decreases fields.len() - i,
    {
        let key = &fields[i].0;
        if !(text::same_text(key.as_str(), "id") || text::same_text(key.as_str(), "thread_name")
            || text::same_text(key.as_str(), "updated_at")) {
            proof {
                json::lemma_fields_view(fields@, fields@[i as int].0@);
                assert(m.contains_key(fields@[i as int].0@));
            }
            return false;
        }
        i += 1;
    }
    proof {
        assert forall|k: Seq<char>| #[trigger] m.contains_key(k) implies k == "id"@ || k
            == "thread_name"@ || k == "updated_at"@ by {
            json::lemma_fields_view(fields@, k);
        }
    }
    true
}

/// Reads the entry that a line holds.
pub fn known_session_index_candidate(line: &str) -> (r: Option<SessionIndexCleanupCandidate>)
    ensures
        candidate_of(r) == index_entry(line@),
{
    let record = match json::parse(line) {
        Some(record) => record,
        None => {
            return None;
        },
    };
    match &record {
        Json::Object(fields) => {
            assert(record@ == JsonView::Object(json::fields_view(fields@)));
            if !only_entry_members(fields) {
                return None;
            }
        },
        _ => {
            return None;
        },
    }
    let id = match json::get_text(&record, "id") {
        Some(id) => text::trim_text(id.as_str()),
        None => {
            return None;
        },
    };
    let thread_name = match json::get_text(&record, "thread_name") {
        Some(s) => s,
        None => {
            return None;
        },
    };
    let updated_at = match json::get_text(&record, "updated_at") {
        Some(s) => s,
        None => {
            return None;
        },
    };
    if text::empty_text(id.as_str()) || text::blank(updated_at.as_str()) {
        return None;
    }
    Some(SessionIndexCleanupCandidate { id, thread_name, updated_at })
}

fn read_segment(segment: &str) -> (r: Option<SessionIndexCleanupCandidate>)
    ensures
        candidate_of(r) == segment_entry(segment@),
{
    known_session_index_candidate(text::line_body_text(segment).as_str())
}

fn segment_selected(segment: &str, ids: &Vec<String>) -> (r: bool)
    ensures
        r == is_selected(segment@, text::texts(ids@)),
{
    match read_segment(segment) {
        Some(c) => text::contains_text(ids, c.id.as_str()),
        None => false,
    }
}

// ---------------------------------------------------------------------------
// Removing entries
// ---------------------------------------------------------------------------
/// The lines that stay when the entries of these threads are removed.
pub open spec fn kept_segments(segments: Seq<Seq<char>>, ids: Seq<Seq<char>>) -> Seq<Seq<char>>
    decreases segments.len(),
{
    if segments.len() == 0 {
        Seq::empty()
    } else if is_selected(segments.last(), ids) {
        kept_segments(segments.drop_last(), ids)
    } else {
        kept_segments(segments.drop_last(), ids).push(segments.last())
    }
}

/// The index without the entries of these threads.
pub open spec fn filtered_text(index: Seq<char>, ids: Seq<Seq<char>>) -> Seq<char> {
    text::joined(kept_segments(text::lines_of(index, '\n'), ids))
}

/// How many entries are removed.
pub open spec fn removed_count(index: Seq<char>, ids: Seq<Seq<char>>) -> int {
    text::lines_of(index, '\n').len() - kept_segments(text::lines_of(index, '\n'), ids).len()
}

/// Removes the entries of these threads from the index; the result also says how
/// many were removed.
pub fn filtered_session_index_text(index: &str, selected_ids: &Vec<String>) -> (r: (String, usize))
    ensures
        r.0@ == filtered_text(index@, text::texts(selected_ids@)),
        r.1 == removed_count(index@, text::texts(selected_ids@)),
{
    let segments = text::text_lines(index);
    let ghost all = text::texts(segments@);
    let ghost ids = text::texts(selected_ids@);
    let mut out = String::new();
    let mut removed: usize = 0;
    let mut i: usize = 0;
    while i < segments.len()
        invariant
            i <= segments.len(),
            all == text::texts(segments@),
            ids == text::texts(selected_ids@),
            removed <= i,
            out@ == text::joined(kept_segments(all.take(i as int), ids)),
            removed == i - kept_segments(all.take(i as int), ids).len(),
        decreases segments.len() - i,
    {
        assert(all.take(i + 1).drop_last() =~= all.take(i as int));
        assert(all.take(i + 1).last() == segments@[i as int]@);
        if segment_selected(segments[i].as_str(), selected_ids) {
            removed += 1;
        } else {
            let ghost before = kept_segments(all.take(i as int), ids);
            out = text::join_text(out.as_str(), segments[i].as_str());
            assert(before.push(segments@[i as int]@).drop_last() =~= before);
        }
        i += 1;
    }
    assert(all.take(i as int) =~= all);
    (out, removed)
}

/// The lines of the index that hold the entry of a thread, without line endings.
pub open spec fn thread_lines(segments: Seq<Seq<char>>, id: Seq<char>) -> Seq<Seq<char>>
    decreases segments.len(),
{
    if segments.len() == 0 {
        Seq::empty()
    } else if is_selected(segments.last(), seq![id]) {
        thread_lines(segments.drop_last(), id).push(text::line_body(segments.last()))
    } else {
        thread_lines(segments.drop_last(), id)
    }
}

/// The lines of the index that hold the entry of a thread, without line endings.
pub fn session_index_lines_for_thread(index: &str, thread_id: &str) -> (r: Vec<String>)
    ensures
        text::texts(r@) == thread_lines(text::lines_of(index@, '\n'), thread_id@),
{
    let segments = text::text_lines(index);
    let ghost all = text::texts(segments@);
    let mut out: Vec<String> = Vec::new();
    let mut i: usize = 0;
    while i < segments.len()
        invariant
            i <= segments.len(),
            all == text::texts(segments@),
            text::texts(out@) == thread_lines(all.take(i as int), thread_id@),
        decreases segments.len() - i,
    {
        assert(all.take(i + 1).drop_last() =~= all.take(i as int));
        assert(all.take(i + 1).last() == segments@[i as int]@);
        let line = text::line_body_text(segments[i].as_str());
        let wanted = match known_session_index_candidate(line.as_str()) {
            Some(c) => text::same_text(c.id.as_str(), thread_id),
            None => false,
        };
        proof {
            if let Some(e) = segment_entry(segments@[i as int]@) {
                lemma_singleton(thread_id@, e.id);
            }
        }
        if wanted {
            let ghost before = text::texts(out@);
            let ghost body = line@;
            out.push(line);
            assert(text::texts(out@) =~= before.push(body));
        }
        i += 1;
    }
    assert(all.take(i as int) =~= all);
    out
}

proof fn lemma_singleton(x: Seq<char>, y: Seq<char>)
    ensures
        seq![x].contains(y) <==> x == y,
{
    if x == y {
        assert(seq![x][0] == y);
    }
}

/// An index that is to be written, and how many entries it differs in.
pub struct IndexEdit {
    pub text: String,
    pub entries: usize,
}

/// Removes every entry of a thread from the index.
pub fn remove_session_index_entry(index: &str, thread_id: &str) -> (r: IndexEdit)
    ensures
        r.text@ == filtered_text(index@, seq![thread_id@]),
        r.entries == removed_count(index@, seq![thread_id@]),
{
    let mut ids: Vec<String> = Vec::new();
    ids.push(text::copy_text(thread_id));
    assert(text::texts(ids@) =~= seq![thread_id@]);
    let (next, entries) = filtered_session_index_text(index, &ids);
    IndexEdit { text: next, entries }
}

// ---------------------------------------------------------------------------
// Putting entries back
// ---------------------------------------------------------------------------
/// The threads that have an entry among these lines.
pub open spec fn listed_ids(segments: Seq<Seq<char>>) -> Seq<Seq<char>>
    decreases segments.len(),
{
    if segments.len() == 0 {
        Seq::empty()
    } else {
        let before = listed_ids(segments.drop_last());
        match segment_entry(segments.last()) {
            Some(e) => text::with_text(before, e.id),
            None => before,
        }
    }
}

/// A text that ends in a line feed, unless it is empty.
pub open spec fn closed_text(s: Seq<char>) -> Seq<char> {
    if s.len() > 0 && s.last() != '\n' {
        s.push('\n')
    } else {
        s
    }
}

/// How far putting entries back has come.
#[verifier::ext_equal]
pub struct RestoreState {
    pub text: Seq<char>,
    pub ids: Seq<Seq<char>>,
    pub appended: nat,
}

/// The index after these lines were appended, except those of threads that have an
/// entry already.
pub open spec fn restored(index: Seq<char>, lines: Seq<Seq<char>>) -> RestoreState
    decreases lines.len(),
{
    if lines.len() == 0 {
        RestoreState {
            text: closed_text(index),
            ids: listed_ids(text::lines_of(index, '\n')),
            appended: 0,
        }
    } else {
        let before = restored(index, lines.drop_last());
        let after = RestoreState {
            text: (before.text + lines.last()).push('\n'),
            ids: match index_entry(lines.last()) {
                Some(e) => text::with_text(before.ids, e.id),
                None => before.ids,
            },
            appended: before.appended + 1,
        };
        match index_entry(lines.last()) {
            Some(e) => if before.ids.contains(e.id) {
                before
            } else {
                after
            },
            None => after,
        }
    }
}

/// Appends lines that were removed from the index, except those of threads that
/// have an entry already.
pub fn restore_session_index_entries(index: &str, lines: &Vec<String>) -> (r: IndexEdit)
    ensures
        r.text@ == restored(index@, text::texts(lines@)).text,
        r.entries == restored(index@, text::texts(lines@)).appended,
{
    let mut ids = listed_thread_ids(index);
    let mut out = text::copy_text(index);
    let chars = text::to_chars(index);
    if chars.len() > 0 && chars[chars.len() - 1] != '\n' {
        out.push('\n');
    }
    let ghost all = text::texts(lines@);
    let mut appended: usize = 0;
    let mut i: usize = 0;
    assert(all.take(0) =~= Seq::<Seq<char>>::empty());
    while i < lines.len()
        invariant
            i <= lines.len(),
            appended <= i,
            all == text::texts(lines@),
            out@ == restored(index@, all.take(i as int)).text,
            text::texts(ids@) == restored(index@, all.take(i as int)).ids,
            appended == restored(index@, all.take(i as int)).appended,
        decreases lines.len() - i,
    {
        assert(all.take(i + 1).drop_last() =~= all.take(i as int));
        assert(all.take(i + 1).last() == lines@[i as int]@);
        let fresh = match known_session_index_candidate(lines[i].as_str()) {
            Some(c) => text::insert_text(&mut ids, c.id),
            None => true,
        };
        if fresh {
            out = text::join_text(out.as_str(), lines[i].as_str());
            out.push('\n');
            appended += 1;
        }
        i += 1;
    }
    assert(all.take(i as int) =~= all);
    IndexEdit { text: out, entries: appended }
}

fn listed_thread_ids(index: &str) -> (r: Vec<String>)
    ensures
        text::texts(r@) == listed_ids(text::lines_of(index@, '\n')),
{
    let segments = text::text_lines(index);
    let ghost all = text::texts(segments@);
    let mut ids: Vec<String> = Vec::new();
    let mut i: usize = 0;
    while i < segments.len()
        invariant
            i <= segments.len(),
            all == text::texts(segments@),
            text::texts(ids@) == listed_ids(all.take(i as int)),
        decreases segments.len() - i,
    {
        assert(all.take(i + 1).drop_last() =~= all.take(i as int));
        assert(all.take(i + 1).last() == segments@[i as int]@);
        if let Some(c) = read_segment(segments[i].as_str()) {
            text::insert_text(&mut ids, c.id);
        }
        i += 1;
    }
    assert(all.take(i as int) =~= all);
    ids
}

/// Whether a file still has the content that was read from it.
pub fn same_content(a: &[u8], b: &[u8]) -> (r: bool)
    ensures
        r == (a@ == b@),
{
    if a.len() != b.len() {
        return false;
    }
    let mut i: usize = 0;
    while i < a.len()
        invariant
            i <= a.len(),
            a.len() == b.len(),
            forall|k: int| 0 <= k < i ==> a@[k] == b@[k],
        decreases a.len() - i,
    {
        if a[i] != b[i] {
            return false;
        }
        i += 1;
    }
    assert(a@ =~= b@);
    true
}

/// The edit to write, if there is one: an edit of no entry is not written, nor one of
/// an index that was read and is not the same now. A missing index reads as empty.
pub fn edit_to_write(edit: IndexEdit, read: &[u8], now: &[u8]) -> (r: Option<IndexEdit>)
    ensures
        r == if edit.entries > 0 && read@ == now@ {
            Some(edit)
        } else {
            None
        },
{
    if edit.entries > 0 && same_content(read, now) {
        Some(edit)
    } else {
        None
    }
}

// ---------------------------------------------------------------------------
// Cleaning up
// ---------------------------------------------------------------------------
/// The entries of threads that do not live any more.
#[derive(Debug)]
pub struct SessionIndexCleanupPreview {
    pub snapshot_sha256: String,
    pub candidates: Vec<SessionIndexCleanupCandidate>,
}

#[derive(Debug)]
pub struct SessionIndexCleanupResult {
    pub pruned_entries: usize,
    pub backup_dir: Option<String>,
}

#[derive(Debug)]
pub struct SessionIndexCleanupApplyError {
    pub message: String,
    pub backup_dir: Option<String>,
}

/// An index that was read for a cleanup.
pub struct SessionIndexPlan {
    pub original_text: String,
    pub snapshot_sha256: String,
    pub candidates: Vec<SessionIndexCleanupCandidate>,
}

/// The entries among these lines whose threads are not in `live`.
pub open spec fn dead_entries(segments: Seq<Seq<char>>, live: Seq<Seq<char>>) -> Seq<IndexEntry>
    decreases segments.len(),
{
    if segments.len() == 0 {
        Seq::empty()
    } else {
        let before = dead_entries(segments.drop_last(), live);
        match segment_entry(segments.last()) {
            Some(e) => if live.contains(e.id) {
                before
            } else {
                before.push(e)
            },
            None => before,
        }
    }
}

/// Finds the entries of the index whose threads do not live any more.
pub fn plan_session_index_cleanup(index: &str, live_thread_ids: &Vec<String>) -> (r:
    SessionIndexPlan)
    ensures
        r.original_text@ == index@,
        r.snapshot_sha256@ == digest::sha256_hex(encode_utf8(index@)),
        candidates_of(r.candidates@) == dead_entries(
            text::lines_of(index@, '\n'),
            text::texts(live_thread_ids@),
        ),
{
    let segments = text::text_lines(index);
    let ghost all = text::texts(segments@);
    let mut candidates: Vec<SessionIndexCleanupCandidate> = Vec::new();
    let mut i: usize = 0;
    while i < segments.len()
        invariant
            i <= segments.len(),
            all == text::texts(segments@),
            candidates_of(candidates@) == dead_entries(
                all.take(i as int),
                text::texts(live_thread_ids@),
            ),
        decreases segments.len() - i,
    {
        assert(all.take(i + 1).drop_last() =~= all.take(i as int));
        assert(all.take(i + 1).last() == segments@[i as int]@);
        if let Some(c) = read_segment(segments[i].as_str()) {
            if !text::contains_text(live_thread_ids, c.id.as_str()) {
                let ghost before = candidates_of(candidates@);
                let ghost e = c@;
                candidates.push(c);
                assert(candidates_of(candidates@) =~= before.push(e));
            }
        }
        i += 1;
    }
    assert(all.take(i as int) =~= all);
    SessionIndexPlan {
        original_text: text::copy_text(index),
        snapshot_sha256: digest::sha256_hex_text(json::text_to_utf8(index).as_slice()),
        candidates,
    }
}

/// Shows what a cleanup would offer to remove; a missing index counts as empty.
pub fn preview_session_index_cleanup(index: Option<&str>, live_thread_ids: &Vec<String>) -> (r:
    SessionIndexCleanupPreview)
    ensures
        match index {
            Some(s) => r.snapshot_sha256@ == digest::sha256_hex(encode_utf8(s@)) && candidates_of(
                r.candidates@,
            ) == dead_entries(text::lines_of(s@, '\n'), text::texts(live_thread_ids@)),
            None => r.snapshot_sha256@ == digest::sha256_hex(Seq::<u8>::empty())
                && r.candidates@.len() == 0,
        },
{
    match index {
        Some(s) => {
            let plan = plan_session_index_cleanup(s, live_thread_ids);
            SessionIndexCleanupPreview {
                snapshot_sha256: plan.snapshot_sha256,
                candidates: plan.candidates,
            }
        },
        None => {
            let nothing: Vec<u8> = Vec::new();
            SessionIndexCleanupPreview {
                snapshot_sha256: digest::sha256_hex_text(nothing.as_slice()),
                candidates: Vec::new(),
            }
        },
    }
}

/// Why a cleanup is not carried out.
#[derive(Clone, Copy, PartialEq, Eq, Debug)]
pub enum CleanupRefusal {
    IndexMissing,
    ChangedSincePreview,
    NotACandidate,
    ChangedBeforeWriting,
}

/// What is said about a refusal.
pub open spec fn refusal_text(refusal: CleanupRefusal) -> Seq<char> {
    match refusal {
        CleanupRefusal::IndexMissing => "session_index.jsonl 不存在，无法清理"@,
        CleanupRefusal::ChangedSincePreview =>
            "session_index.jsonl 已在预览后发生变化；为避免覆盖 Codex 新内容，本次清理已中止，请重新预览"@,
        CleanupRefusal::NotACandidate =>
            "确认列表已过期或包含非候选任务；本次清理未执行，请重新预览"@,
        CleanupRefusal::ChangedBeforeWriting =>
            "session_index.jsonl 在写入前再次发生变化；未覆盖 Codex 新内容，请重新预览"@,
    }
}

/// The error that a refusal is answered with.
pub fn cleanup_refused(refusal: CleanupRefusal, backup_dir: Option<String>) -> (r:
    SessionIndexCleanupApplyError)
    ensures
        r.message@ == refusal_text(refusal),
        r.backup_dir == backup_dir,
{
    let message = match refusal {
        CleanupRefusal::IndexMissing => "session_index.jsonl 不存在，无法清理",
        CleanupRefusal::ChangedSincePreview =>
            "session_index.jsonl 已在预览后发生变化；为避免覆盖 Codex 新内容，本次清理已中止，请重新预览",
        CleanupRefusal::NotACandidate =>
            "确认列表已过期或包含非候选任务；本次清理未执行，请重新预览",
        CleanupRefusal::ChangedBeforeWriting =>
            "session_index.jsonl 在写入前再次发生变化；未覆盖 Codex 新内容，请重新预览",
    };
    SessionIndexCleanupApplyError { message: text::copy_text(message), backup_dir }
}

/// The thread ids that were confirmed, trimmed, each once, without blank ones.
pub open spec fn selected_of(confirmed: Seq<Seq<char>>) -> Seq<Seq<char>>
    decreases confirmed.len(),
{
    if confirmed.len() == 0 {
        Seq::empty()
    } else {
        let before = selected_of(confirmed.drop_last());
        let id = text::trim(confirmed.last());
        if id.len() == 0 {
            before
        } else {
            text::with_text(before, id)
        }
    }
}

fn selected_ids(confirmed: &Vec<String>) -> (r: Vec<String>)
    ensures
        text::texts(r@) == selected_of(text::texts(confirmed@)),
{
    let ghost all = text::texts(confirmed@);
    let mut out: Vec<String> = Vec::new();
    let mut i: usize = 0;
    while i < confirmed.len()
        invariant
            i <= confirmed.len(),
            all == text::texts(confirmed@),
            text::texts(out@) == selected_of(all.take(i as int)),
        decreases confirmed.len() - i,
    {
        assert(all.take(i + 1).drop_last() =~= all.take(i as int));
        assert(all.take(i + 1).last() == confirmed@[i as int]@);
        let id = text::trim_text(confirmed[i].as_str());
        if !text::empty_text(id.as_str()) {
            text::insert_text(&mut out, id);
        }
        i += 1;
    }
    assert(all.take(i as int) =~= all);
    out
}

/// The threads of these entries.
pub open spec fn entry_ids(entries: Seq<IndexEntry>) -> Seq<Seq<char>> {
    entries.map_values(|e: IndexEntry| e.id)
}

/// Whether all of `ids` are threads of candidates.
pub open spec fn all_candidates(ids: Seq<Seq<char>>, entries: Seq<IndexEntry>) -> bool {
    forall|i: int| 0 <= i < ids.len() ==> entry_ids(entries).contains(#[trigger] ids[i])
}

/// What a cleanup is to write, or why it is refused.
pub open spec fn cleanup_of(
    index: Option<Seq<char>>,
    live: Seq<Seq<char>>,
    expected_sha256: Seq<char>,
    confirmed: Seq<Seq<char>>,
) -> Result<(Seq<char>, int), CleanupRefusal> {
    match index {
        None => Err(CleanupRefusal::IndexMissing),
        Some(s) => if digest::sha256_hex(encode_utf8(s)) != expected_sha256 {
            Err(CleanupRefusal::ChangedSincePreview)
        } else if !all_candidates(
            selected_of(confirmed),
            dead_entries(text::lines_of(s, '\n'), live),
        ) {
            Err(CleanupRefusal::NotACandidate)
        } else {
            Ok(
                (
                    filtered_text(s, selected_of(confirmed)),
                    removed_count(s, selected_of(confirmed)),
                ),
            )
        },
    }
}

/// Works out the cleanup that was confirmed. Nothing is removed where the index
/// changed since it was shown, or where a thread was confirmed that is no candidate.
/// An edit without entries is not to be written.
pub fn apply_session_index_cleanup(
    index: Option<&str>,
    live_thread_ids: &Vec<String>,
    expected_snapshot_sha256: &str,
    confirmed_thread_ids: &Vec<String>,
) -> (r: Result<IndexEdit, CleanupRefusal>)
    ensures
        match (
            r,
            cleanup_of(
                text::str_of(index),
                text::texts(live_thread_ids@),
                expected_snapshot_sha256@,
                text::texts(confirmed_thread_ids@),
            ),
        ) {
            (Ok(edit), Ok((next, entries))) => edit.text@ == next && edit.entries == entries,
            (Err(e), Err(expected)) => e == expected,
            _ => false,
        },
{
    let whole = match index {
        Some(s) => s,
        None => {
            return Err(CleanupRefusal::IndexMissing);
        },
    };
    let plan = plan_session_index_cleanup(whole, live_thread_ids);
    if !text::same_text(plan.snapshot_sha256.as_str(), expected_snapshot_sha256) {
        return Err(CleanupRefusal::ChangedSincePreview);
    }
    let selected = selected_ids(confirmed_thread_ids);
    if !are_candidates(&selected, &plan.candidates) {
        return Err(CleanupRefusal::NotACandidate);
    }
    let (next, entries) = filtered_session_index_text(plan.original_text.as_str(), &selected);
    Ok(IndexEdit { text: next, entries })
}

/// Whether a cleanup may still be written: an index that was read and is not the same
/// now keeps its new content.
pub fn check_before_writing(edit: &IndexEdit, read: &[u8], now: &[u8]) -> (r: Result<
    (),
    CleanupRefusal,
>)
    ensures
        r == if edit.entries > 0 && read@ != now@ {
            Err::<(), CleanupRefusal>(CleanupRefusal::ChangedBeforeWriting)
        } else {
            Ok(())
        },
{
    if edit.entries > 0 && !same_content(read, now) {
        Err(CleanupRefusal::ChangedBeforeWriting)
    } else {
        Ok(())
    }
}

fn are_candidates(ids: &Vec<String>, candidates: &Vec<SessionIndexCleanupCandidate>) -> (r: bool)
    ensures
        r == all_candidates(text::texts(ids@), candidates_of(candidates@)),
{
    let ghost known = entry_ids(candidates_of(candidates@));
    let mut i: usize = 0;
    while i < ids.len()
        invariant
            i <= ids.len(),
            known == entry_ids(candidates_of(candidates@)),
            forall|k: int| 0 <= k < i ==> known.contains(#[trigger] text::texts(ids@)[k]),
        decreases ids.len() - i,
    {
        let mut found = false;
        let mut k: usize = 0;
        while k < candidates.len() && !found
            invariant
                k <= candidates.len(),
                i < ids.len(),
                known == entry_ids(candidates_of(candidates@)),
                found ==> known.contains(ids@[i as int]@),
                !found ==> forall|n: int| 0 <= n < k ==> known[n] != ids@[i as int]@,
            decreases candidates.len() - k,
        {
            found = text::same_text(candidates[k].id.as_str(), ids[i].as_str());
            assert(known[k as int] == candidates@[k as int].id@);
            k += 1;
        }
        assert(text::texts(ids@)[i as int] == ids@[i as int]@);
        if !found {
            assert(!known.contains(text::texts(ids@)[i as int]));
            return false;
        }
        i += 1;
    }
    true
}

// ---------------------------------------------------------------------------
// Laws
// ---------------------------------------------------------------------------
proof fn lemma_kept_are_lines(segments: Seq<Seq<char>>, ids: Seq<Seq<char>>)
    requires
        text::are_lines(segments, '\n'),
    ensures
        text::are_lines(kept_segments(segments, ids), '\n'),
        kept_segments(segments, ids).len() > 0 && segments.last() != kept_segments(
            segments,
            ids,
        ).last() ==> kept_segments(segments, ids).last().last() == '\n',
    decreases segments.len(),
{
    if segments.len() > 0 {
        let init = segments.drop_last();
        assert(text::are_lines(init, '\n')) by {
            assert forall|i: int| 0 <= i < init.len() implies text::is_line(
                #[trigger] init[i],
                '\n',
            ) by {
                assert(text::is_line(segments[i], '\n'));
            }
            assert forall|i: int| 0 <= i < init.len() - 1 implies (#[trigger] init[i]).last()
                == '\n' by {
                assert(segments[i].last() == '\n');
            }
        }
        lemma_kept_are_lines(init, ids);
        let before = kept_segments(init, ids);
        let after = kept_segments(segments, ids);
        assert(before.len() > 0 ==> before.last().last() == '\n') by {
            if before.len() > 0 {
                lemma_kept_from(init, ids);
                if init.last() == before.last() {
                    assert(segments[segments.len() - 2].last() == '\n');
                }
            }
        }
        assert(text::is_line(segments[segments.len() - 1], '\n'));
        if !is_selected(segments.last(), ids) {
            assert forall|i: int| 0 <= i < after.len() implies text::is_line(
                #[trigger] after[i],
                '\n',
            ) by {
                if i < before.len() {
                    assert(after[i] == before[i]);
                }
            }
            assert forall|i: int| 0 <= i < after.len() - 1 implies (#[trigger] after[i]).last()
                == '\n' by {
                assert(after[i] == before[i]);
            }
        }
    }
}

proof fn lemma_kept_from(segments: Seq<Seq<char>>, ids: Seq<Seq<char>>)
    ensures
        kept_segments(segments, ids).len() > 0 ==> segments.len() > 0,
    decreases segments.len(),
{
    if segments.len() > 0 {
        lemma_kept_from(segments.drop_last(), ids);
    }
}

proof fn lemma_kept_thread_lines(segments: Seq<Seq<char>>, id: Seq<char>, other: Seq<char>)
    ensures
        thread_lines(kept_segments(segments, seq![id]), other) == if other == id {
            Seq::empty()
        } else {
            thread_lines(segments, other)
        },
    decreases segments.len(),
{
    if segments.len() > 0 {
        let init = segments.drop_last();
        let last = segments.last();
        lemma_kept_thread_lines(init, id, other);
        let kept = kept_segments(init, seq![id]);
        assert(kept.push(last).drop_last() =~= kept);
        if let Some(e) = segment_entry(last) {
            lemma_singleton(id, e.id);
            lemma_singleton(other, e.id);
        }
    }
}

/// Removing the entries of a thread removes all of them and no entry of any other
/// thread.
pub proof fn lemma_removal_is_exact(index: Seq<char>, id: Seq<char>, other: Seq<char>)
    ensures
        thread_lines(text::lines_of(filtered_text(index, seq![id]), '\n'), other) == if other
            == id {
            Seq::empty()
        } else {
            thread_lines(text::lines_of(index, '\n'), other)
        },
{
    let segments = text::lines_of(index, '\n');
    text::lemma_lines_join(index, '\n');
    lemma_kept_are_lines(segments, seq![id]);
    text::lemma_lines_split(kept_segments(segments, seq![id]), '\n');
    lemma_kept_thread_lines(segments, id, other);
}

/// There is nothing to remove from an empty index, so that a missing one, which reads as
/// empty, is not written.
pub proof fn lemma_empty_index_is_left(ids: Seq<Seq<char>>)
    ensures
        removed_count(Seq::empty(), ids) == 0,
{
    lemma_all_kept(text::lines_of(Seq::<char>::empty(), '\n'), ids);
}

/// A line that holds no entry stays, and the lines that stay keep their order:
/// removing nothing gives the index back unchanged.
pub proof fn lemma_removing_nothing(index: Seq<char>, ids: Seq<Seq<char>>)
    requires
        removed_count(index, ids) == 0,
    ensures
        filtered_text(index, ids) == index,
{
    let segments = text::lines_of(index, '\n');
    text::lemma_lines_join(index, '\n');
    lemma_all_kept(segments, ids);
}

proof fn lemma_all_kept(segments: Seq<Seq<char>>, ids: Seq<Seq<char>>)
    ensures
        kept_segments(segments, ids).len() <= segments.len(),
        kept_segments(segments, ids).len() == segments.len() ==> kept_segments(segments, ids)
            == segments,
    decreases segments.len(),
{
    if segments.len() > 0 {
        lemma_all_kept(segments.drop_last(), ids);
        assert(segments =~= segments.drop_last().push(segments.last()));
    } else {
        assert(kept_segments(segments, ids) =~= segments);
    }
}

proof fn lemma_thread_line_holds_entry(segments: Seq<Seq<char>>, id: Seq<char>, i: int)
    requires
        0 <= i < thread_lines(segments, id).len(),
    ensures
        index_entry(thread_lines(segments, id)[i]) matches Some(e) && e.id == id,
    decreases segments.len(),
{
    if segments.len() > 0 {
        let init = segments.drop_last();
        if i < thread_lines(init, id).len() {
            lemma_thread_line_holds_entry(init, id, i);
        } else if let Some(e) = segment_entry(segments.last()) {
            lemma_singleton(id, e.id);
        }
    }
}

proof fn lemma_line_body_is_one_line(segment: Seq<char>)
    requires
        text::is_line(segment, '\n'),
    ensures
        text::is_line(text::line_body(segment).push('\n'), '\n'),
        forall|i: int|
            0 <= i < text::line_body(segment).len() ==> text::line_body(segment)[i] != '\n',
{
}

proof fn lemma_thread_lines_are_lines(segments: Seq<Seq<char>>, id: Seq<char>, i: int)
    requires
        text::are_lines(segments, '\n'),
        0 <= i < thread_lines(segments, id).len(),
    ensures
        text::is_line(thread_lines(segments, id)[i].push('\n'), '\n'),
        exists|k: int|
            0 <= k < segments.len() && text::line_body(#[trigger] segments[k]) == thread_lines(
                segments,
                id,
            )[i],
    decreases segments.len(),
{
    let init = segments.drop_last();
    assert(text::are_lines(init, '\n')) by {
        assert forall|k: int| 0 <= k < init.len() implies text::is_line(#[trigger] init[k], '\n') by {
            assert(text::is_line(segments[k], '\n'));
        }
        assert forall|k: int| 0 <= k < init.len() - 1 implies (#[trigger] init[k]).last()
            == '\n' by {
            assert(segments[k].last() == '\n');
        }
    }
    if i < thread_lines(init, id).len() {
        lemma_thread_lines_are_lines(init, id, i);
        let k = choose|k: int|
            0 <= k < init.len() && text::line_body(#[trigger] init[k]) == thread_lines(init, id)[i];
        assert(segments[k] == init[k]);
    } else {
        assert(text::is_line(segments[segments.len() - 1], '\n'));
        lemma_line_body_is_one_line(segments.last());
        assert(text::line_body(segments[segments.len() - 1]) == thread_lines(segments, id)[i]);
    }
}

proof fn lemma_listed_contains(segments: Seq<Seq<char>>, id: Seq<char>)
    ensures
        listed_ids(segments).contains(id) <==> thread_lines(segments, id).len() > 0,
    decreases segments.len(),
{
    if segments.len() > 0 {
        let init = segments.drop_last();
        lemma_listed_contains(init, id);
        if let Some(e) = segment_entry(segments.last()) {
            lemma_singleton(id, e.id);
            text::lemma_push_contains(listed_ids(init), e.id, id);
        }
    }
}

proof fn lemma_thread_lines_push(segments: Seq<Seq<char>>, line: Seq<char>, id: Seq<char>)
    requires
        forall|i: int| 0 <= i < line.len() ==> line[i] != '\n',
        line.len() > 0 ==> line.last() != '\r',
    ensures
        thread_lines(segments.push(line.push('\n')), id) == if (index_entry(line) matches Some(e)
            && e.id == id) {
            thread_lines(segments, id).push(line)
        } else {
            thread_lines(segments, id)
        },
{
    let segment = line.push('\n');
    assert(segments.push(segment).drop_last() =~= segments);
    assert(text::line_body(segment) =~= line);
    if let Some(e) = index_entry(line) {
        lemma_singleton(id, e.id);
    }
}

/// A last line without a line feed, once it has got one.
spec fn closed_lines(segments: Seq<Seq<char>>) -> Seq<Seq<char>> {
    segments.drop_last().push(segments.last().push('\n'))
}

proof fn lemma_closed_lines(segments: Seq<Seq<char>>)
    requires
        text::are_lines(segments, '\n'),
        segments.len() > 0,
        segments.last().last() != '\n',
    ensures
        forall|i: int|
            0 <= i < segments.len() ==> text::is_line(#[trigger] closed_lines(segments)[i], '\n')
                && closed_lines(segments)[i].last() == '\n',
{
    let closed = closed_lines(segments);
    let n = segments.len() - 1;
    assert forall|i: int| 0 <= i < segments.len() implies text::is_line(#[trigger] closed[i], '\n')
        && closed[i].last() == '\n' by {
        if i < n {
            assert(closed[i] == segments[i]);
            assert(text::is_line(segments[i], '\n') && segments[i].last() == '\n');
        } else {
            assert(text::is_line(segments[n], '\n'));
            let whole = segments[n];
            assert forall|k: int| 0 <= k < whole.push('\n').len() - 1 implies whole.push('\n')[k]
                != '\n' by {
                if k == whole.len() - 1 {
                    assert(whole.last() == whole[k]);
                }
            }
        }
    }
}

proof fn lemma_closing_keeps_entries(segments: Seq<Seq<char>>, id: Seq<char>)
    requires
        segments.len() > 0,
        segments.last().len() > 0,
        segments.last().last() != '\n',
        segments.last().last() != '\r',
    ensures
        thread_lines(closed_lines(segments), id) == thread_lines(segments, id),
{
    let closed = closed_lines(segments);
    assert(closed.drop_last() =~= segments.drop_last());
    assert(text::line_body(closed.last()) =~= segments.last());
    assert(text::line_body(segments.last()) == segments.last());
}

/// What lines hold, line endings aside.
pub open spec fn bodies(segments: Seq<Seq<char>>) -> Seq<Seq<char>> {
    segments.map_values(|s: Seq<char>| text::line_body(s))
}

proof fn lemma_kept_and_removed_bodies(segments: Seq<Seq<char>>, id: Seq<char>)
    ensures
        bodies(segments).to_multiset() == bodies(
            kept_segments(segments, seq![id]),
        ).to_multiset().add(thread_lines(segments, id).to_multiset()),
    decreases segments.len(),
{
    broadcast use vstd::seq_lib::group_to_multiset_ensures;

    let kept = kept_segments(segments, seq![id]);
    let lines = thread_lines(segments, id);
    if segments.len() == 0 {
        assert(bodies(segments) =~= Seq::<Seq<char>>::empty());
        assert(bodies(kept) =~= Seq::<Seq<char>>::empty());
        assert(bodies(segments).to_multiset() =~= bodies(kept).to_multiset().add(
            lines.to_multiset(),
        ));
    } else {
        let init = segments.drop_last();
        let body = text::line_body(segments.last());
        lemma_kept_and_removed_bodies(init, id);
        assert(bodies(segments) =~= bodies(init).push(body));
        let before = kept_segments(init, seq![id]);
        assert(bodies(before.push(segments.last())) =~= bodies(before).push(body));
        assert(bodies(segments).to_multiset() =~= bodies(kept).to_multiset().add(
            lines.to_multiset(),
        ));
    }
}

/// Undoing a removal: the index has the lines that it had, in whatever order, line
/// endings aside. The line that was removed is there again, and the lines of every
/// thread are what they were. Where a thread had several entries, only the first comes back,
/// which is why the law speaks of one. A carriage return that no line feed follows
/// becomes part of a line ending, which is why the law leaves it out.
pub proof fn lemma_restore_undoes_removal(index: Seq<char>, id: Seq<char>, other: Seq<char>)
    requires
        thread_lines(text::lines_of(index, '\n'), id).len() == 1,
        index.len() > 0 ==> index.last() != '\r',
        ({
            let line = thread_lines(text::lines_of(index, '\n'), id)[0];
            line.len() > 0 ==> line.last() != '\r'
        }),
    ensures
        ({
            let lines = thread_lines(text::lines_of(index, '\n'), id);
            let after = restored(filtered_text(index, seq![id]), lines);
            &&& after.appended == 1
            &&& thread_lines(text::lines_of(after.text, '\n'), other) == thread_lines(
                text::lines_of(index, '\n'),
                other,
            )
            &&& bodies(text::lines_of(after.text, '\n')).to_multiset() == bodies(
                text::lines_of(index, '\n'),
            ).to_multiset()
        }),
{
    broadcast use vstd::seq_lib::group_to_multiset_ensures;

    let segments = text::lines_of(index, '\n');
    let lines = thread_lines(segments, id);
    let line = lines[0];
    lemma_kept_and_removed_bodies(segments, id);
    let kept = kept_segments(segments, seq![id]);
    let base = filtered_text(index, seq![id]);
    text::lemma_lines_join(index, '\n');
    lemma_thread_line_holds_entry(segments, id, 0);
    lemma_thread_lines_are_lines(segments, id, 0);
    lemma_kept_are_lines(segments, seq![id]);
    text::lemma_lines_split(kept, '\n');
    lemma_kept_thread_lines(segments, id, id);
    lemma_kept_thread_lines(segments, id, other);
    lemma_listed_contains(kept, id);
    assert(lines.drop_last() =~= Seq::<Seq<char>>::empty());
    assert(lines.last() == line);
    assert forall|i: int| 0 <= i < line.len() implies line[i] != '\n' by {
        assert(line.push('\n')[i] == line[i]);
    }
    let start = restored(base, Seq::empty());
    assert(start.ids == listed_ids(kept));
    let segment = line.push('\n');
    let after = restored(base, lines);
    assert(after.text == (closed_text(base) + line).push('\n'));
    assert(after.text =~= closed_text(base) + segment);
    if base.len() > 0 && base.last() != '\n' {
        // The last line that stayed gets its line feed.
        let closed = closed_lines(kept);
        assert(kept.len() > 0);
        assert(kept.last() == segments.last());
        assert(segments.last().last() == index.last());
        assert(text::is_line(kept[kept.len() - 1], '\n'));
        assert(text::joined(closed) =~= base.push('\n')) by {
            assert(closed.drop_last() =~= kept.drop_last());
        }
        lemma_closed_lines(kept);
        let next = closed.push(segment);
        assert(next.drop_last() =~= closed);
        assert(text::joined(next) =~= after.text);
        assert(text::are_lines(next, '\n')) by {
            assert forall|i: int| 0 <= i < next.len() implies text::is_line(#[trigger] next[i], '\n') by {
                if i < closed.len() {
                    assert(next[i] == closed[i]);
                }
            }
            assert forall|i: int| 0 <= i < next.len() - 1 implies (#[trigger] next[i]).last()
                == '\n' by {
                assert(next[i] == closed[i]);
                assert(closed[i].last() == '\n');
            }
        }
        text::lemma_lines_split(next, '\n');
        lemma_closing_keeps_entries(kept, other);
        lemma_thread_lines_push(closed, line, other);
        assert(Seq::<Seq<char>>::empty().push(line) =~= lines);
        assert(text::line_body(closed.last()) =~= kept.last());
        assert(text::line_body(kept.last()) == kept.last());
        assert(text::line_body(segment) =~= line);
        assert(bodies(next) =~= bodies(kept).push(line));
    } else {
        let next = kept.push(segment);
        assert(next.drop_last() =~= kept);
        assert(closed_text(base) =~= base);
        assert(text::joined(next) =~= after.text);
        assert(text::are_lines(next, '\n')) by {
            assert forall|i: int| 0 <= i < next.len() implies text::is_line(#[trigger] next[i], '\n') by {
                if i < kept.len() {
                    assert(next[i] == kept[i]);
                }
            }
            assert forall|i: int| 0 <= i < next.len() - 1 implies (#[trigger] next[i]).last()
                == '\n' by {
                assert(next[i] == kept[i]);
                if i == kept.len() - 1 {
                    assert(kept.last() == kept[i]);
                } else {
                    assert(kept[i].last() == '\n');
                }
            }
        }
        text::lemma_lines_split(next, '\n');
        lemma_thread_lines_push(kept, line, other);
        assert(Seq::<Seq<char>>::empty().push(line) =~= lines);
        assert(text::line_body(segment) =~= line);
        assert(bodies(next) =~= bodies(kept).push(line));
    }
    let all = bodies(kept).to_multiset();
    assert(all.insert(line) =~= all.add(Seq::<Seq<char>>::empty().push(line).to_multiset()));
}

proof fn lemma_kept_other_lines(segments: Seq<Seq<char>>, ids: Seq<Seq<char>>, other: Seq<char>)
    requires
        !ids.contains(other),
    ensures
        thread_lines(kept_segments(segments, ids), other) == thread_lines(segments, other),
    decreases segments.len(),
{
    if segments.len() > 0 {
        let init = segments.drop_last();
        let last = segments.last();
        lemma_kept_other_lines(init, ids, other);
        let kept = kept_segments(init, ids);
        assert(kept.push(last).drop_last() =~= kept);
        if let Some(e) = segment_entry(last) {
            lemma_singleton(other, e.id);
        }
    }
}

proof fn lemma_dead_are_not_live(segments: Seq<Seq<char>>, live: Seq<Seq<char>>, i: int)
    requires
        0 <= i < dead_entries(segments, live).len(),
    ensures
        !live.contains(dead_entries(segments, live)[i].id),
    decreases segments.len(),
{
    if segments.len() > 0 {
        if i < dead_entries(segments.drop_last(), live).len() {
            lemma_dead_are_not_live(segments.drop_last(), live, i);
        }
    }
}

/// A cleanup that is carried out leaves every entry of a living thread as it is.
pub proof fn lemma_cleanup_keeps_living_threads(
    index: Seq<char>,
    live: Seq<Seq<char>>,
    expected_sha256: Seq<char>,
    confirmed: Seq<Seq<char>>,
    id: Seq<char>,
)
    requires
        cleanup_of(Some(index), live, expected_sha256, confirmed) is Ok,
        live.contains(id),
    ensures
        thread_lines(
            text::lines_of(
                cleanup_of(Some(index), live, expected_sha256, confirmed)->Ok_0.0,
                '\n',
            ),
            id,
        ) == thread_lines(text::lines_of(index, '\n'), id),
{
    let segments = text::lines_of(index, '\n');
    let ids = selected_of(confirmed);
    let dead = dead_entries(segments, live);
    if ids.contains(id) {
        let i = choose|i: int| 0 <= i < ids.len() && ids[i] == id;
        assert(entry_ids(dead).contains(ids[i]));
        let k = choose|k: int| 0 <= k < entry_ids(dead).len() && entry_ids(dead)[k] == id;
        lemma_dead_are_not_live(segments, live, k);
    }
    text::lemma_lines_join(index, '\n');
    lemma_kept_are_lines(segments, ids);
    text::lemma_lines_split(kept_segments(segments, ids), '\n');
    lemma_kept_other_lines(segments, ids, id);
}

/// Entries without those of these threads.
pub open spec fn entries_without(entries: Seq<IndexEntry>, ids: Seq<Seq<char>>) -> Seq<IndexEntry>
    decreases entries.len(),
{
    if entries.len() == 0 {
        Seq::empty()
    } else {
        let before = entries_without(entries.drop_last(), ids);
        if ids.contains(entries.last().id) {
            before
        } else {
            before.push(entries.last())
        }
    }
}

proof fn lemma_kept_dead_entries(
    segments: Seq<Seq<char>>,
    live: Seq<Seq<char>>,
    ids: Seq<Seq<char>>,
)
    requires
        forall|id: Seq<char>| #[trigger] ids.contains(id) ==> !live.contains(id),
    ensures
        dead_entries(kept_segments(segments, ids), live) == entries_without(
            dead_entries(segments, live),
            ids,
        ),
        segments.len() - kept_segments(segments, ids).len() == dead_entries(segments, live).len()
            - entries_without(dead_entries(segments, live), ids).len(),
    decreases segments.len(),
{
    if segments.len() > 0 {
        let init = segments.drop_last();
        let last = segments.last();
        lemma_kept_dead_entries(init, live, ids);
        let kept = kept_segments(init, ids);
        assert(kept.push(last).drop_last() =~= kept);
        let dead = dead_entries(init, live);
        if let Some(e) = segment_entry(last) {
            assert(dead.push(e).drop_last() =~= dead);
        }
    }
}

/// After a cleanup a preview lists what it listed before without the entries that were
/// confirmed, in the same order, and the cleanup counts just these.
pub proof fn lemma_preview_after_cleanup(
    index: Seq<char>,
    live: Seq<Seq<char>>,
    expected_sha256: Seq<char>,
    confirmed: Seq<Seq<char>>,
)
    requires
        cleanup_of(Some(index), live, expected_sha256, confirmed) is Ok,
    ensures
        ({
            let (next, pruned) = cleanup_of(
                Some(index),
                live,
                expected_sha256,
                confirmed,
            )->Ok_0;
            let before = dead_entries(text::lines_of(index, '\n'), live);
            let after = dead_entries(text::lines_of(next, '\n'), live);
            &&& after == entries_without(before, selected_of(confirmed))
            &&& pruned == before.len() - after.len()
        }),
{
    let segments = text::lines_of(index, '\n');
    let ids = selected_of(confirmed);
    let dead = dead_entries(segments, live);
    assert forall|id: Seq<char>| #[trigger] ids.contains(id) implies !live.contains(id) by {
        let i = choose|i: int| 0 <= i < ids.len() && ids[i] == id;
        assert(entry_ids(dead).contains(ids[i]));
        let k = choose|k: int| 0 <= k < entry_ids(dead).len() && entry_ids(dead)[k] == id;
        lemma_dead_are_not_live(segments, live, k);
    }
    text::lemma_lines_join(index, '\n');
    lemma_kept_are_lines(segments, ids);
    text::lemma_lines_split(kept_segments(segments, ids), '\n');
    lemma_kept_dead_entries(segments, live, ids);
}

// ---------------------------------------------------------------------------
// What the index lists
// ---------------------------------------------------------------------------
/// A line of the index lists a thread where it is an object with an id, a name and a time,
/// all of them texts, and nothing else; white space around the id is of no matter, and
/// neither the id nor the time may be blank.
pub proof fn lemma_which_lines_list_a_thread(
    line: Seq<char>,
    m: Map<Seq<char>, JsonView>,
    id: Seq<char>,
    thread_name: Seq<char>,
    updated_at: Seq<char>,
)
    requires
        json::parsed_json(line) == Some(JsonView::Object(m)),
    ensures
        ({
            let three = m.dom() == set!["id"@, "thread_name"@, "updated_at"@];
            let texts = m["id"@] == JsonView::Text(id) && m["thread_name"@] == JsonView::Text(
                thread_name,
            ) && m["updated_at"@] == JsonView::Text(updated_at);
            &&& three && texts && !text::all_white(id) && !text::all_white(updated_at)
                ==> index_entry(line) == Some(
                IndexEntry { id: text::trim(id), thread_name, updated_at },
            )
            &&& three && texts && (text::all_white(id) || text::all_white(updated_at))
                ==> index_entry(line) is None
            &&& !three ==> index_entry(line) is None
            &&& index_entry(line) is Some ==> m["id"@] is Text && m["thread_name"@] is Text
                && m["updated_at"@] is Text
        }),
{
    text::lemma_blank_is_white_space(id);
    text::lemma_blank_is_white_space(updated_at);
    let names = set!["id"@, "thread_name"@, "updated_at"@];
    if m.dom() == names {
        assert(m.dom().contains("id"@));
        assert(m.dom().contains("thread_name"@));
        assert(m.dom().contains("updated_at"@));
        assert forall|k: Seq<char>| #[trigger] m.contains_key(k) implies k == "id"@ || k
            == "thread_name"@ || k == "updated_at"@ by {
            assert(names.contains(k));
        }
        assert(has_entry_members(m));
    } else if has_entry_members(m) {
        assert(m.dom() =~= names) by {
            assert forall|k: Seq<char>| m.dom().contains(k) == names.contains(k) by {
                if m.contains_key(k) {
                    assert(k == "id"@ || k == "thread_name"@ || k == "updated_at"@);
                }
            }
        }
    }
}

/// A line that is no object lists no thread.
pub proof fn lemma_other_lines_list_nothing(line: Seq<char>)
    requires
        !(json::parsed_json(line) matches Some(v) && v is Object),
    ensures
        index_entry(line) is None,
{
}

/// The thread that a line of the index lists is that of its text without the line ending.
pub proof fn lemma_entry_of_a_line(segment: Seq<char>, ids: Seq<Seq<char>>)
    ensures
        segment_entry(segment) == index_entry(text::line_body(segment)),
        is_selected(segment, ids) <==> (index_entry(text::line_body(segment)) matches Some(e)
            && ids.contains(e.id)),
{
}

/// Removing threads from the index removes the lines that list them, and keeps every other
/// line as it stands, in its place.
pub proof fn lemma_removing_keeps_other_lines(
    segments: Seq<Seq<char>>,
    ids: Seq<Seq<char>>,
    segment: Seq<char>,
)
    ensures
        kept_segments(segments, ids).contains(segment) <==> segments.contains(segment) && !(
        index_entry(text::line_body(segment)) matches Some(e) && ids.contains(e.id)),
        kept_segments(Seq::empty(), ids) == Seq::<Seq<char>>::empty(),
        kept_segments(segments.push(segment), ids) == if (index_entry(
            text::line_body(segment),
        ) matches Some(e) && ids.contains(e.id)) {
            kept_segments(segments, ids)
        } else {
            kept_segments(segments, ids).push(segment)
        },
    decreases segments.len(),
{
    assert(segments.push(segment).drop_last() =~= segments);
    if segments.len() > 0 {
        let init = segments.drop_last();
        lemma_removing_keeps_other_lines(init, ids, segment);
        assert(segments =~= init.push(segments.last()));
        text::lemma_push_contains(init, segments.last(), segment);
        text::lemma_push_contains(kept_segments(init, ids), segments.last(), segment);
    }
}

/// The lines of a thread are those that list it, without their line endings, in their
/// order.
pub proof fn lemma_lines_of_a_thread(
    segments: Seq<Seq<char>>,
    id: Seq<char>,
    segment: Seq<char>,
)
    ensures
        thread_lines(Seq::empty(), id) == Seq::<Seq<char>>::empty(),
        thread_lines(segments.push(segment), id) == if (index_entry(
            text::line_body(segment),
        ) matches Some(e) && e.id == id) {
            thread_lines(segments, id).push(text::line_body(segment))
        } else {
            thread_lines(segments, id)
        },
{
    assert(segments.push(segment).drop_last() =~= segments);
    if let Some(e) = index_entry(text::line_body(segment)) {
        lemma_singleton(id, e.id);
    }
}

/// The threads that the index lists.
pub proof fn lemma_listed_threads(segments: Seq<Seq<char>>, id: Seq<char>)
    ensures
        listed_ids(segments).contains(id) <==> exists|i: int|
            0 <= i < segments.len() && (index_entry(
                text::line_body(#[trigger] segments[i]),
            ) matches Some(e) && e.id == id),
    decreases segments.len(),
{
    if segments.len() > 0 {
        let init = segments.drop_last();
        let n = segments.len() - 1;
        lemma_listed_threads(init, id);
        if let Some(e) = segment_entry(segments[n]) {
            text::lemma_push_contains(listed_ids(init), e.id, id);
        }
        if listed_ids(init).contains(id) {
            let i = choose|i: int|
                0 <= i < init.len() && (index_entry(
                    text::line_body(#[trigger] init[i]),
                ) matches Some(e) && e.id == id);
            assert(segments[i] == init[i]);
        }
        if exists|i: int|
            0 <= i < segments.len() && (index_entry(
                text::line_body(#[trigger] segments[i]),
            ) matches Some(e) && e.id == id) {
            let i = choose|i: int|
                0 <= i < segments.len() && (index_entry(
                    text::line_body(#[trigger] segments[i]),
                ) matches Some(e) && e.id == id);
            if i < n {
                assert(init[i] == segments[i]);
            }
        }
        assert(segments[n] == segments.last());
    }
}

/// An entry is a candidate for a cleanup where the index lists it and its thread is not
/// alive; no other entry is.
pub proof fn lemma_which_entries_are_candidates(
    segments: Seq<Seq<char>>,
    live: Seq<Seq<char>>,
    e: IndexEntry,
)
    ensures
        dead_entries(segments, live).contains(e) <==> !live.contains(e.id) && exists|i: int|
            0 <= i < segments.len() && index_entry(text::line_body(#[trigger] segments[i]))
                == Some(e),
    decreases segments.len(),
{
    if segments.len() > 0 {
        let init = segments.drop_last();
        let n = segments.len() - 1;
        lemma_which_entries_are_candidates(init, live, e);
        if let Some(x) = segment_entry(segments[n]) {
            text::lemma_push_contains(dead_entries(init, live), x, e);
        }
        if dead_entries(init, live).contains(e) {
            let i = choose|i: int|
                0 <= i < init.len() && index_entry(text::line_body(#[trigger] init[i])) == Some(e);
            assert(segments[i] == init[i]);
        }
        if exists|i: int|
            0 <= i < segments.len() && index_entry(text::line_body(#[trigger] segments[i]))
                == Some(e) {
            let i = choose|i: int|
                0 <= i < segments.len() && index_entry(text::line_body(#[trigger] segments[i]))
                    == Some(e);
            if i < n {
                assert(init[i] == segments[i]);
            }
        }
        assert(segments[n] == segments.last());
    }
}

/// The threads that are confirmed are those that are named, without white space around
/// them and without blank ones, each once.
pub proof fn lemma_confirmed_threads(confirmed: Seq<Seq<char>>, id: Seq<char>)
    ensures
        selected_of(confirmed).contains(id) <==> id.len() > 0 && exists|i: int|
            0 <= i < confirmed.len() && text::trim(#[trigger] confirmed[i]) == id,
        selected_of(confirmed).no_duplicates(),
    decreases confirmed.len(),
{
    if confirmed.len() > 0 {
        let init = confirmed.drop_last();
        let n = confirmed.len() - 1;
        lemma_confirmed_threads(init, id);
        text::lemma_push_contains(selected_of(init), text::trim(confirmed[n]), id);
        if exists|i: int| 0 <= i < init.len() && text::trim(#[trigger] init[i]) == id {
            let i = choose|i: int| 0 <= i < init.len() && text::trim(#[trigger] init[i]) == id;
            assert(confirmed[i] == init[i]);
        }
        if exists|i: int| 0 <= i < confirmed.len() && text::trim(#[trigger] confirmed[i]) == id {
            let i = choose|i: int|
                0 <= i < confirmed.len() && text::trim(#[trigger] confirmed[i]) == id;
            if i < n {
                assert(init[i] == confirmed[i]);
            }
        }
        assert(confirmed[n] == confirmed.last());
    }
}

/// A cleanup is refused without an index, where the index is not the one that was shown,
/// and where a thread is confirmed that is no candidate; in this order, and for no other
/// reason.
pub proof fn lemma_when_a_cleanup_is_refused(
    index: Seq<char>,
    live: Seq<Seq<char>>,
    expected_sha256: Seq<char>,
    confirmed: Seq<Seq<char>>,
)
    ensures
        cleanup_of(None, live, expected_sha256, confirmed) == Err::<
            (Seq<char>, int),
            CleanupRefusal,
        >(CleanupRefusal::IndexMissing),
        ({
            let r = cleanup_of(Some(index), live, expected_sha256, confirmed);
            let shown = digest::sha256_hex(encode_utf8(index)) == expected_sha256;
            let fits = forall|id: Seq<char>| #[trigger]
                selected_of(confirmed).contains(id) ==> !live.contains(id) && listed_ids(
                    text::lines_of(index, '\n'),
                ).contains(id);
            &&& !shown ==> r == Err::<(Seq<char>, int), CleanupRefusal>(
                CleanupRefusal::ChangedSincePreview,
            )
            &&& shown && !fits ==> r == Err::<(Seq<char>, int), CleanupRefusal>(
                CleanupRefusal::NotACandidate,
            )
            &&& shown && fits ==> r == Ok::<(Seq<char>, int), CleanupRefusal>(
                (
                    filtered_text(index, selected_of(confirmed)),
                    removed_count(index, selected_of(confirmed)),
                ),
            )
        }),
{
    let segments = text::lines_of(index, '\n');
    let ids = selected_of(confirmed);
    let dead = dead_entries(segments, live);
    if all_candidates(ids, dead) {
        assert forall|id: Seq<char>| #[trigger] ids.contains(id) implies !live.contains(id)
            && listed_ids(segments).contains(id) by {
            let k = choose|k: int| 0 <= k < ids.len() && ids[k] == id;
            assert(entry_ids(dead).contains(ids[k]));
            let j = choose|j: int| 0 <= j < entry_ids(dead).len() && entry_ids(dead)[j] == id;
            let e = dead[j];
            assert(dead.contains(e) && e.id == id);
            lemma_which_entries_are_candidates(segments, live, e);
            lemma_listed_threads(segments, id);
        }
    }
    if forall|id: Seq<char>| #[trigger]
        ids.contains(id) ==> !live.contains(id) && listed_ids(segments).contains(id) {
        assert forall|k: int| 0 <= k < ids.len() implies entry_ids(dead).contains(
            #[trigger] ids[k],
        ) by {
            let id = ids[k];
            assert(ids.contains(id));
            lemma_listed_threads(segments, id);
            let i = choose|i: int|
                0 <= i < segments.len() && (index_entry(
                    text::line_body(#[trigger] segments[i]),
                ) matches Some(e) && e.id == id);
            let e = index_entry(text::line_body(segments[i]))->0;
            lemma_which_entries_are_candidates(segments, live, e);
            let j = choose|j: int| 0 <= j < dead.len() && dead[j] == e;
            assert(entry_ids(dead)[j] == id);
        }
    }
}

/// Lines are put back behind the index, each on a line of its own; a line of a thread that
/// the index lists is left out. An index without a line feed at its end gets one first.
pub proof fn lemma_lines_are_put_back(
    index: Seq<char>,
    lines: Seq<Seq<char>>,
    line: Seq<char>,
)
    ensures
        restored(index, Seq::empty()).text == if index.len() > 0 && index.last() != '\n' {
            index.push('\n')
        } else {
            index
        },
        restored(index, Seq::empty()).ids == listed_ids(text::lines_of(index, '\n')),
        restored(index, Seq::empty()).appended == 0,
        ({
            let before = restored(index, lines);
            let after = restored(index, lines.push(line));
            let listed = index_entry(line) matches Some(e) && before.ids.contains(e.id);
            &&& listed ==> after == before
            &&& !listed ==> after.text == (before.text + line).push('\n') && after.appended
                == before.appended + 1
            &&& !listed ==> forall|id: Seq<char>| #[trigger]
                after.ids.contains(id) <==> before.ids.contains(id) || (index_entry(
                    line,
                ) matches Some(e) && e.id == id)
        }),
{
    assert(lines.push(line).drop_last() =~= lines);
    let before = restored(index, lines);
    let after = restored(index, lines.push(line));
    assert forall|id: Seq<char>|
        !(index_entry(line) matches Some(e) && before.ids.contains(e.id)) implies (
    #[trigger] after.ids.contains(id) <==> before.ids.contains(id) || (index_entry(
        line,
    ) matches Some(e) && e.id == id)) by {
        if let Some(e) = index_entry(line) {
            text::lemma_push_contains(before.ids, e.id, id);
        }
    }
}

/// What a refusal says.
pub proof fn lemma_what_a_refusal_says()
    ensures
        refusal_text(CleanupRefusal::IndexMissing) == "session_index.jsonl 不存在，无法清理"@,
        refusal_text(CleanupRefusal::ChangedSincePreview)
            == "session_index.jsonl 已在预览后发生变化；为避免覆盖 Codex 新内容，本次清理已中止，请重新预览"@,
        refusal_text(CleanupRefusal::NotACandidate)
            == "确认列表已过期或包含非候选任务；本次清理未执行，请重新预览"@,
        refusal_text(CleanupRefusal::ChangedBeforeWriting)
            == "session_index.jsonl 在写入前再次发生变化；未覆盖 Codex 新内容，请重新预览"@,
{
}

/// What is known of a candidate as a value, and how many lines are removed with some
/// threads.
pub proof fn lemma_candidates_as_values(
    v: Seq<SessionIndexCleanupCandidate>,
    i: int,
    index: Seq<char>,
    ids: Seq<Seq<char>>,
)
    requires
        0 <= i < v.len(),
    ensures
        candidates_of(v).len() == v.len(),
        candidates_of(v)[i].id == v[i].id@,
        candidates_of(v)[i].thread_name == v[i].thread_name@,
        candidates_of(v)[i].updated_at == v[i].updated_at@,
        filtered_text(index, ids) == text::joined(kept_segments(text::lines_of(index, '\n'), ids)),
        removed_count(index, ids) == text::lines_of(index, '\n').len() - kept_segments(
            text::lines_of(index, '\n'),
            ids,
        ).len(),
{
}

} // verus!
