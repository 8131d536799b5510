//! Rollout files: one JSON record per line, among them `session_meta` records
//! that name the provider of the session.

use crate::digest;
use crate::digest::ContentDigest;
use crate::json;
use crate::json::{Json, JsonView};
use crate::source;
use crate::text;
use crate::workspace;
use vstd::prelude::*;
use vstd::utf8::{decode_utf8, encode_utf8, valid_utf8};

verus! {

// ---------------------------------------------------------------------------
// Rewriting modes
// ---------------------------------------------------------------------------
/// Which `session_meta` records get the target provider.
pub enum SessionRewriteMode {
    /// Every record that names another provider, or none.
    AllProviders,
    /// The records that name one certain provider, or none.
    SourceProvider { source_provider: String },
}

/// What a rewriting mode is.
pub enum ModeView {
    AllProviders,
    SourceProvider(Seq<char>),
}

impl View for SessionRewriteMode {
    type V = ModeView;

    open spec fn view(&self) -> ModeView {
        match *self {
            SessionRewriteMode::AllProviders => ModeView::AllProviders,
            SessionRewriteMode::SourceProvider { source_provider } => ModeView::SourceProvider(
                source_provider@,
            ),
        }
    }
}

/// Whether a record with this provider is to be rewritten.
pub open spec fn needs_rewrite(
    provider: Option<Seq<char>>,
    target: Seq<char>,
    mode: ModeView,
) -> bool {
    match mode {
        ModeView::AllProviders => provider != Some(target),
        ModeView::SourceProvider(from) => match provider {
            Some(p) => p == from,
            None => true,
        },
    }
}

fn provider_needs_rewrite(
    provider: &Option<String>,
    target: &str,
    mode: &SessionRewriteMode,
) -> (r: bool)
    ensures
        r == needs_rewrite(text::text_of(*provider), target@, mode@),
{
    match mode {
        SessionRewriteMode::AllProviders => match provider {
            Some(p) => !text::same_text(p.as_str(), target),
            None => true,
        },
        SessionRewriteMode::SourceProvider { source_provider } => match provider {
            Some(p) => text::same_text(p.as_str(), source_provider.as_str()),
            None => true,
        },
    }
}

// ---------------------------------------------------------------------------
// Lines
// ---------------------------------------------------------------------------
/// How many bytes of a line are not its line ending.
pub open spec fn content_length(line: Seq<u8>) -> int {
    if line.len() >= 2 && line[line.len() - 2] == 13 && line[line.len() - 1] == 10 {
        line.len() - 2
    } else if line.len() >= 1 && line[line.len() - 1] == 10 {
        line.len() - 1
    } else {
        line.len() as int
    }
}

/// A line without its line ending.
pub open spec fn line_content(line: Seq<u8>) -> Seq<u8> {
    line.take(content_length(line))
}

/// The line ending of a line: a line feed with or without a carriage return, or
/// nothing.
pub open spec fn line_ending(line: Seq<u8>) -> Seq<u8> {
    line.skip(content_length(line))
}

/// Splits a line from its line ending.
pub fn split_line_ending_bytes(line: &[u8]) -> (r: (&[u8], &[u8]))
    ensures
        r.0@ == line_content(line@),
        r.1@ == line_ending(line@),
{
    let mut n: usize = line.len();
    if n >= 2 && line[n - 2] == 13 && line[n - 1] == 10 {
        n -= 2;
    } else if n >= 1 && line[n - 1] == 10 {
        n -= 1;
    }
    let body = vstd::slice::slice_subrange(line, 0, n);
    let end = vstd::slice::slice_subrange(line, n, line.len());
    assert(body@ =~= line_content(line@));
    assert(end@ =~= line_ending(line@));
    (body, end)
}

// ---------------------------------------------------------------------------
// session_meta records
// ---------------------------------------------------------------------------
/// The bytes by which a line that may hold a `session_meta` record is recognised.
pub open spec fn meta_marker() -> Seq<u8> {
    encode_utf8(json::quoted("session_meta"@))
}

/// The `session_meta` record that a line holds.
pub open spec fn meta_record(line: Seq<char>) -> Option<JsonView> {
    if text::holds(encode_utf8(line), meta_marker()) {
        match json::parsed_json(line) {
            Some(v) => if json::text_field(v, "type"@) == Some("session_meta"@) {
                Some(v)
            } else {
                None
            },
            None => None,
        }
    } else {
        None
    }
}

/// The payload of a record, where it is an object.
pub open spec fn payload_of(record: JsonView) -> Option<JsonView> {
    match json::field(record, "payload"@) {
        Some(p) => if p is Object {
            Some(p)
        } else {
            None
        },
        None => None,
    }
}

/// The `session_meta` record that a line holds, where its payload is an object.
pub open spec fn meta_with_payload(line: Seq<char>) -> Option<JsonView> {
    match meta_record(line) {
        Some(v) => if payload_of(v) is Some {
            Some(v)
        } else {
            None
        },
        None => None,
    }
}

/// The provider that a payload names.
pub open spec fn provider_of(payload: JsonView) -> Option<Seq<char>> {
    json::text_field(payload, "model_provider"@)
}

/// What stands for the provider of a record that names none.
pub open spec fn provider_name(provider: Option<Seq<char>>) -> Seq<char> {
    match provider {
        Some(p) => p,
        None => "(missing)"@,
    }
}

/// Whether the source in the payload of a record marks a thread that is not a
/// root thread.
pub open spec fn record_marks_non_root(record: JsonView) -> bool {
    match json::field(record, "payload"@) {
        Some(p) => match json::field(p, "source"@) {
            Some(s) => source::value_marks_non_root(s),
            None => false,
        },
        None => false,
    }
}

fn marker_bytes() -> (r: Vec<u8>)
    ensures
        r@ == meta_marker(),
        r@.len() > 0,
{
    proof {
        reveal_strlit("\"session_meta\"");
        reveal_strlit("session_meta");
        assert("\"session_meta\""@ =~= json::quoted("session_meta"@));
        vstd::utf8::is_ascii_chars_encode_utf8("\"session_meta\""@);
    }
    json::text_to_utf8("\"session_meta\"")
}

fn read_meta_record(line: &str) -> (r: Option<Json>)
    ensures
        json::json_of(r) == meta_record(line@),
        r matches Some(j) ==> json::nested_within(j@, json::nesting_limit()) && j is Object,
{
    let bytes = json::text_to_utf8(line);
    let marker = marker_bytes();
    if !text::contains_bytes(bytes.as_slice(), marker.as_slice()) {
        return None;
    }
    match json::parse(line) {
        Some(v) => match json::get_text(&v, "type") {
            Some(kind) => if text::same_text(kind.as_str(), "session_meta") {
                Some(v)
            } else {
                None
            },
            None => None,
        },
        None => None,
    }
}

/// Whether a line holds a `session_meta` record with an object as payload.
pub fn session_meta_line_has_payload_object(line: &str) -> (r: bool)
    ensures
        r == (meta_with_payload(line@) is Some),
{
    match read_meta_record(line) {
        Some(v) => matches!(json::get(&v, "payload"), Some(Json::Object(_))),
        None => false,
    }
}

// ---------------------------------------------------------------------------
// Scanning
// ---------------------------------------------------------------------------
/// What a scan of a rollout file finds.
pub struct RolloutRewrite {
    pub rewrite_needed: bool,
    pub thread_id: Option<String>,
    pub cwd: Option<String>,
    /// The providers that the records name, each once, in the order they come up.
    pub providers: Vec<String>,
    pub session_meta_count: usize,
    pub has_user_event: bool,
    pub has_encrypted_content: bool,
    pub marks_non_root_agent: bool,
    pub original_sha256: String,
    pub original_size: u64,
}

/// What a scan found, as a value.
#[verifier::ext_equal]
pub struct FoundView {
    pub rewrite_needed: bool,
    pub thread_id: Option<Seq<char>>,
    pub cwd: Option<Seq<char>>,
    pub providers: Seq<Seq<char>>,
    pub session_meta_count: usize,
    pub has_user_event: bool,
    pub has_encrypted_content: bool,
    pub marks_non_root_agent: bool,
    pub sha256: Seq<char>,
    pub size: u64,
}

impl View for RolloutRewrite {
    type V = FoundView;

    open spec fn view(&self) -> FoundView {
        FoundView {
            rewrite_needed: self.rewrite_needed,
            thread_id: text::text_of(self.thread_id),
            cwd: text::text_of(self.cwd),
            providers: text::texts(self.providers@),
            session_meta_count: self.session_meta_count,
            has_user_event: self.has_user_event,
            has_encrypted_content: self.has_encrypted_content,
            marks_non_root_agent: self.marks_non_root_agent,
            sha256: self.original_sha256@,
            size: self.original_size,
        }
    }
}

/// What a scan has found so far, and the content that it has read.
#[verifier::ext_equal]
pub struct ScanView {
    pub rewrite_needed: bool,
    pub thread_id: Option<Seq<char>>,
    pub cwd: Option<Seq<char>>,
    pub providers: Seq<Seq<char>>,
    pub session_meta_count: usize,
    pub has_user_event: bool,
    pub has_encrypted_content: bool,
    pub marks_non_root_agent: bool,
    pub content: Seq<u8>,
}

impl RolloutRewrite {
    /// Whether this is what a scan found.
    pub open spec fn reports(self, v: ScanView) -> bool {
        &&& self.rewrite_needed == v.rewrite_needed
        &&& text::text_of(self.thread_id) == v.thread_id
        &&& text::text_of(self.cwd) == v.cwd
        &&& text::texts(self.providers@) == v.providers
        &&& self.session_meta_count == v.session_meta_count
        &&& self.has_user_event == v.has_user_event
        &&& self.has_encrypted_content == v.has_encrypted_content
        &&& self.marks_non_root_agent == v.marks_non_root_agent
        &&& self.original_sha256@ == digest::sha256_hex(v.content)
        &&& self.original_size == digest::capped_size(v.content)
    }
}

/// A scan that has read nothing.
pub open spec fn scan_start() -> ScanView {
    ScanView {
        rewrite_needed: false,
        thread_id: None,
        cwd: None,
        providers: Seq::empty(),
        session_meta_count: 0,
        has_user_event: false,
        has_encrypted_content: false,
        marks_non_root_agent: false,
        content: Seq::empty(),
    }
}

/// Whether a line speaks of something that the user said.
pub open spec fn mentions_user(line: Seq<u8>) -> bool {
    text::holds(line, encode_utf8("\"user_message\""@)) || text::holds(
        line,
        encode_utf8("\"user_input\""@),
    )
}

/// Whether a line speaks of encrypted content.
pub open spec fn mentions_encrypted(line: Seq<u8>) -> bool {
    text::holds(line, encode_utf8("encrypted_content"@))
}

/// One more, as far as a `usize` counts.
pub open spec fn one_more(n: usize) -> usize {
    if n < usize::MAX {
        (n + 1) as usize
    } else {
        n
    }
}

/// What a scan has found after one more `session_meta` record.
pub open spec fn scan_record(
    v: ScanView,
    record: JsonView,
    target: Seq<char>,
    mode: ModeView,
) -> ScanView {
    let marked = ScanView {
        marks_non_root_agent: v.marks_non_root_agent || record_marks_non_root(record),
        ..v
    };
    match payload_of(record) {
        None => marked,
        Some(p) => ScanView {
            session_meta_count: one_more(v.session_meta_count),
            thread_id: if v.thread_id is None {
                json::text_field(p, "id"@)
            } else {
                v.thread_id
            },
            cwd: if v.cwd is None {
                match json::text_field(p, "cwd"@) {
                    Some(s) => workspace::desktop_path(s),
                    None => None,
                }
            } else {
                v.cwd
            },
            providers: text::with_text(v.providers, provider_name(provider_of(p))),
            rewrite_needed: v.rewrite_needed || needs_rewrite(provider_of(p), target, mode),
            ..marked
        },
    }
}

/// What a scan has found after one more line, whose content is UTF-8.
pub open spec fn scan_line(
    v: ScanView,
    line: Seq<u8>,
    target: Seq<char>,
    mode: ModeView,
) -> ScanView {
    let read = ScanView {
        content: v.content + line,
        has_user_event: v.has_user_event || mentions_user(line),
        has_encrypted_content: v.has_encrypted_content || mentions_encrypted(line),
        ..v
    };
    match meta_record(decode_utf8(line_content(line))) {
        None => read,
        Some(record) => scan_record(read, record, target, mode),
    }
}

/// What a scan of all `lines` finds; nothing where one of them is not UTF-8.
pub open spec fn scan_lines(
    lines: Seq<Seq<u8>>,
    target: Seq<char>,
    mode: ModeView,
) -> Option<ScanView>
    decreases lines.len(),
{
    if lines.len() == 0 {
        Some(scan_start())
    } else {
        match scan_lines(lines.drop_last(), target, mode) {
            None => None,
            Some(v) => if valid_utf8(line_content(lines.last())) {
                Some(scan_line(v, lines.last(), target, mode))
            } else {
                None
            },
        }
    }
}

/// A scan in progress. The lines come one by one, so that no more than one of them
/// has to be held in memory.
pub struct RolloutScanner {
    found: RolloutRewrite,
    content: ContentDigest,
}

impl View for RolloutScanner {
    type V = ScanView;

    closed spec fn view(&self) -> ScanView {
        ScanView {
            rewrite_needed: self.found.rewrite_needed,
            thread_id: text::text_of(self.found.thread_id),
            cwd: text::text_of(self.found.cwd),
            providers: text::texts(self.found.providers@),
            session_meta_count: self.found.session_meta_count,
            has_user_event: self.found.has_user_event,
            has_encrypted_content: self.found.has_encrypted_content,
            marks_non_root_agent: self.found.marks_non_root_agent,
            content: self.content@,
        }
    }
}

fn mentions(line: &[u8], needle: &str) -> (r: bool)
    requires
        needle@.len() > 0,
    ensures
        r == text::holds(line@, encode_utf8(needle@)),
{
    let bytes = json::text_to_utf8(needle);
    proof {
        if bytes@.len() == 0 {
            vstd::utf8::encode_utf8_decode_utf8(needle@);
            assert(decode_utf8(bytes@) =~= Seq::<char>::empty());
        }
    }
    text::contains_bytes(line, bytes.as_slice())
}

impl RolloutScanner {
    pub closed spec fn wf(self) -> bool {
        self.content.wf()
    }

    pub fn new() -> (r: RolloutScanner)
        ensures
            r.wf(),
            r@ == scan_start(),
    {
        let r = RolloutScanner {
            found: RolloutRewrite {
                rewrite_needed: false,
                thread_id: None,
                cwd: None,
                providers: Vec::new(),
                session_meta_count: 0,
                has_user_event: false,
                has_encrypted_content: false,
                marks_non_root_agent: false,
                original_sha256: String::new(),
                original_size: 0,
            },
            content: ContentDigest::new(),
        };
        assert(r@ =~= scan_start());
        r
    }

    /// Reads one more line. The scan cannot go on after a line that is not UTF-8,
    /// which is answered with `false`.
    pub fn scan(&mut self, line: &[u8], target_provider: &str, mode: &SessionRewriteMode) -> (r:
        bool)
        requires
            old(self).wf(),
        ensures
            r == valid_utf8(line_content(line@)),
            r ==> final(self).wf(),
            r ==> final(self)@ == scan_line(old(self)@, line@, target_provider@, mode@),
    {
        proof {
            reveal_strlit("\"user_message\"");
            reveal_strlit("\"user_input\"");
            reveal_strlit("encrypted_content");
        }
        self.content.feed(line);
        let says_user = mentions(line, "\"user_message\"") || mentions(line, "\"user_input\"");
        self.found.has_user_event = self.found.has_user_event || says_user;
        let encrypted = mentions(line, "encrypted_content");
        self.found.has_encrypted_content = self.found.has_encrypted_content || encrypted;
        let (body, _) = split_line_ending_bytes(line);
        match json::text_from_utf8(body) {
            None => false,
            Some(line_text) => {
                if let Some(record) = read_meta_record(line_text.as_str()) {
                    self.scan_record(&record, target_provider, mode);
                }
                true
            },
        }
    }

    fn scan_record(&mut self, record: &Json, target_provider: &str, mode: &SessionRewriteMode)
        requires
            old(self).wf(),
        ensures
            final(self).wf(),
            final(self)@ == scan_record(old(self)@, record@, target_provider@, mode@),
    {
        let ghost before = self@;
        let payload = json::get(record, "payload");
        let marked = match payload {
            Some(p) => match json::get(p, "source") {
                Some(s) => source::source_value_marks_non_root_agent(s),
                None => false,
            },
            None => false,
        };
        self.found.marks_non_root_agent = self.found.marks_non_root_agent || marked;
        if let Some(p) = payload {
            if let Json::Object(_) = p {
                self.found.session_meta_count = self.found.session_meta_count.saturating_add(1);
                if self.found.thread_id.is_none() {
                    self.found.thread_id = json::get_text(p, "id");
                }
                if self.found.cwd.is_none() {
                    self.found.cwd = match json::get_text(p, "cwd") {
                        Some(s) => workspace::to_desktop_workspace_path(s.as_str()),
                        None => None,
                    };
                }
                let provider = json::get_text(p, "model_provider");
                let needed = provider_needs_rewrite(&provider, target_provider, mode);
                let name = match provider {
                    Some(s) => s,
                    None => text::copy_text("(missing)"),
                };
                text::insert_text(&mut self.found.providers, name);
                self.found.rewrite_needed = self.found.rewrite_needed || needed;
            }
        }
        assert(self@ =~= scan_record(before, record@, target_provider@, mode@));
    }

    /// What the scan found.
    pub fn finish(self) -> (r: RolloutRewrite)
        requires
            self.wf(),
        ensures
            r.reports(self@),
            digest::is_sha256_hex(r.original_sha256@),
    {
        let mut found = self.found;
        let (sha256, size) = self.content.finish();
        found.original_sha256 = sha256;
        found.original_size = size;
        found
    }
}

/// Scans the content of a rollout file; nothing where it is not UTF-8.
pub fn scan_rollout_session_meta_providers(
    content: &[u8],
    target_provider: &str,
    mode: &SessionRewriteMode,
) -> (r: Option<RolloutRewrite>)
    ensures
        match (r, scan_lines(text::lines_of(content@, 10u8), target_provider@, mode@)) {
            (Some(found), Some(v)) => found.reports(v),
            (None, None) => true,
            _ => false,
        },
{
    let lines = text::byte_lines(content);
    let mut scanner = RolloutScanner::new();
    let mut i: usize = 0;
    let ghost all = text::byte_texts(lines@);
    while i < lines.len()
        invariant
            i <= lines.len(),
            all == text::byte_texts(lines@),
            all == text::lines_of(content@, 10u8),
            scanner.wf(),
            scan_lines(all.take(i as int), target_provider@, mode@) == Some(scanner@),
        decreases lines.len() - i,
    {
        assert(all.take(i + 1).drop_last() =~= all.take(i as int));
        assert(all.take(i + 1).last() == lines@[i as int]@);
        if !scanner.scan(lines[i].as_slice(), target_provider, mode) {
            proof {
                lemma_scan_stops(all, i + 1, target_provider@, mode@);
            }
            return None;
        }
        i += 1;
    }
    assert(all.take(i as int) =~= all);
    Some(scanner.finish())
}

/// A scan that stopped finds nothing, whatever lines come later.
proof fn lemma_scan_stops(lines: Seq<Seq<u8>>, n: int, target: Seq<char>, mode: ModeView)
    requires
        0 <= n <= lines.len(),
        scan_lines(lines.take(n), target, mode) is None,
    ensures
        scan_lines(lines, target, mode) is None,
    decreases lines.len() - n,
{
    if n < lines.len() {
        assert(lines.take(n + 1).drop_last() =~= lines.take(n));
        lemma_scan_stops(lines, n + 1, target, mode);
    } else {
        assert(lines.take(n) =~= lines);
    }
}

// ---------------------------------------------------------------------------
// Staging the next version of a rollout file
// ---------------------------------------------------------------------------
/// A record with the target provider in its payload.
pub open spec fn with_provider(record: JsonView, target: Seq<char>) -> JsonView {
    match (record, payload_of(record)) {
        (JsonView::Object(m), Some(JsonView::Object(p))) => JsonView::Object(
            m.insert(
                "payload"@,
                JsonView::Object(p.insert("model_provider"@, JsonView::Text(target))),
            ),
        ),
        _ => record,
    }
}

/// The record that takes the place of the one in a line, where the line is to be
/// rewritten.
pub open spec fn rewritten_record(
    line: Seq<char>,
    target: Seq<char>,
    mode: ModeView,
) -> Option<JsonView> {
    match meta_with_payload(line) {
        Some(record) => if needs_rewrite(provider_of(payload_of(record)->0), target, mode) {
            Some(with_provider(record, target))
        } else {
            None
        },
        None => None,
    }
}

/// A line as it stands in the next version of the file.
pub open spec fn staged_line(line: Seq<u8>, target: Seq<char>, mode: ModeView) -> Seq<u8> {
    match rewritten_record(decode_utf8(line_content(line)), target, mode) {
        Some(record) => encode_utf8(json::compact_json(record)) + line_ending(line),
        None => line,
    }
}

/// What is kept of a line, so that it can be put back: a line of its own for each
/// `session_meta` record, nothing for any other line.
pub open spec fn kept_line(line: Seq<u8>) -> Seq<u8> {
    let t = decode_utf8(line_content(line));
    if meta_with_payload(t) is Some {
        encode_utf8(json::compact_json(JsonView::Text(t))).push(10u8)
    } else {
        Seq::empty()
    }
}

/// Writes the line that takes the place of `line`, where it is to be rewritten.
pub fn rewritten_session_meta_line(
    line: &str,
    target_provider: &str,
    mode: &SessionRewriteMode,
) -> (r: Option<Vec<u8>>)
    ensures
        match (r, rewritten_record(line@, target_provider@, mode@)) {
            (Some(bytes), Some(record)) => bytes@ == encode_utf8(json::compact_json(record))
                && written_record(bytes@, record),
            (None, None) => true,
            _ => false,
        },
{
    let record = match read_meta_record(line) {
        Some(record) => record,
        None => {
            return None;
        },
    };
    let provider = match json::get(&record, "payload") {
        Some(payload) => match payload {
            Json::Object(_) => json::get_text(payload, "model_provider"),
            _ => {
                return None;
            },
        },
        None => {
            return None;
        },
    };
    if !provider_needs_rewrite(&provider, target_provider, mode) {
        return None;
    }
    let ghost before = record@;
    let payload = match json::get(&record, "payload") {
        Some(payload) => json::copy(payload),
        None => Json::Null,
    };
    let ghost old_payload = payload@;
    let mut fields = match record {
        Json::Object(fields) => fields,
        _ => Vec::new(),
    };
    let mut inner = match payload {
        Json::Object(inner) => inner,
        _ => Vec::new(),
    };
    json::set_entry(
        &mut inner,
        "model_provider",
        Json::Text(text::copy_text(target_provider)),
    );
    json::set_entry(&mut fields, "payload", Json::Object(inner));
    let next = Json::Object(fields);
    assert(next@ == with_provider(before, target_provider@));
    proof {
        lemma_with_provider(before, target_provider@);
    }
    let bytes = json::to_compact(&next);
    proof {
        let t = json::compact_json(next@);
        vstd::utf8::encode_utf8_decode_utf8(t);
        reveal_strlit("session_meta");
        assert(json::needs_no_escape("session_meta"@));
        assert(json::text_field(next@, "type"@) == Some("session_meta"@));
        assert(text::holds(encode_utf8(t), meta_marker()));
        if let Some(w) = json::parsed_json(t) {
            lemma_same_record(next@, w);
        }
    }
    Some(bytes)
}

/// Putting a provider into a record changes nothing else of it.
pub proof fn lemma_with_provider(record: JsonView, target: Seq<char>)
    requires
        payload_of(record) is Some,
    ensures
        ({
            let next = with_provider(record, target);
            &&& payload_of(next) is Some
            &&& provider_of(payload_of(next)->0) == Some(target)
            &&& forall|key: Seq<char>|
                key != "payload"@ ==> #[trigger] json::field(next, key) == json::field(record, key)
            &&& forall|key: Seq<char>|
                key != "model_provider"@ ==> #[trigger] json::field(payload_of(next)->0, key)
                    == json::field(payload_of(record)->0, key)
            &&& json::text_field(next, "type"@) == json::text_field(record, "type"@)
            &&& record_marks_non_root(next) == record_marks_non_root(record)
            &&& json::nested_within(record, json::nesting_limit()) ==> json::nested_within(
                next,
                json::nesting_limit(),
            )
            &&& json::float_free(record, json::nesting_limit()) ==> json::float_free(
                next,
                json::nesting_limit(),
            )
        }),
{
    reveal_strlit("payload");
    reveal_strlit("type");
    reveal_strlit("model_provider");
    reveal_strlit("source");
    assert("payload"@.len() != "type"@.len());
    assert("model_provider"@.len() != "source"@.len());
    let m = record->Object_0;
    let p = payload_of(record)->0->Object_0;
    let q = p.insert("model_provider"@, JsonView::Text(target));
    let next = with_provider(record, target);
    let n = next->Object_0;
    assert(n == m.insert("payload"@, JsonView::Object(q)));
    assert(m.contains_key("payload"@) && m["payload"@] == JsonView::Object(p));
    if json::nested_within(record, 127) {
        assert(json::fields_nested_within(m, 126));
        assert(json::nested_within(m["payload"@], 126));
        assert(json::fields_nested_within(p, 125));
        assert(json::fields_nested_within(q, 125)) by {
            assert forall|k: Seq<char>| #[trigger] q.contains_key(k) implies json::nested_within(
                q[k],
                125,
            ) by {
                if k != "model_provider"@ {
                    assert(p.contains_key(k));
                }
            }
        }
        assert(json::nested_within(JsonView::Object(q), 126));
        assert(json::fields_nested_within(n, 126)) by {
            assert forall|k: Seq<char>| #[trigger] n.contains_key(k) implies json::nested_within(
                n[k],
                126,
            ) by {
                if k != "payload"@ {
                    assert(m.contains_key(k));
                }
            }
        }
    }
    if json::float_free(record, 127) {
        assert(json::fields_float_free(m, 126));
        assert(json::float_free(m["payload"@], 126));
        assert(json::fields_float_free(p, 125));
        assert(json::fields_float_free(q, 125)) by {
            assert forall|k: Seq<char>| #[trigger] q.contains_key(k) implies json::float_free(
                q[k],
                125,
            ) by {
                if k != "model_provider"@ {
                    assert(p.contains_key(k));
                }
            }
        }
        assert(json::float_free(JsonView::Object(q), 126));
        assert(json::fields_float_free(n, 126)) by {
            assert forall|k: Seq<char>| #[trigger] n.contains_key(k) implies json::float_free(
                n[k],
                126,
            ) by {
                if k != "payload"@ {
                    assert(m.contains_key(k));
                }
            }
        }
    }
}

/// Whether two records say the same of a session.
pub open spec fn same_record(a: JsonView, b: JsonView) -> bool {
    &&& payload_of(a) is Some == payload_of(b) is Some
    &&& json::text_field(a, "type"@) == json::text_field(b, "type"@)
    &&& payload_of(a) is Some ==> forall|key: Seq<char>|
        #[trigger] json::text_field(payload_of(a)->0, key) == json::text_field(
            payload_of(b)->0,
            key,
        )
    &&& record_marks_non_root(a) == record_marks_non_root(b)
}

proof fn lemma_same_marks(a: JsonView, b: JsonView, n: nat)
    requires
        n > 0,
        json::same_but_floats(a, b, n),
    ensures
        source::value_marks_non_root(a) == source::value_marks_non_root(b),
{
    if a is Object {
        let m = a->Object_0;
        let k = b->Object_0;
        assert(json::same_fields_but_floats(m, k, (n - 1) as nat));
        assert forall|key: Seq<char>| #[trigger]
            source::marker_holds(a, key) == source::marker_holds(b, key) by {
            assert(m.contains_key(key) == k.contains_key(key));
            if m.contains_key(key) {
                assert(json::same_but_floats(m[key], k[key], (n - 1) as nat));
                if m[key] is Object {
                    let x = m[key]->Object_0;
                    let y = k[key]->Object_0;
                    assert(forall|s: Seq<char>| x.contains_key(s) == y.contains_key(s));
                    if source::holds_some_key(x) {
                        let s = choose|s: Seq<char>| x.contains_key(s);
                        assert(y.contains_key(s));
                    }
                    if source::holds_some_key(y) {
                        let s = choose|s: Seq<char>| y.contains_key(s);
                        assert(x.contains_key(s));
                    }
                }
            }
        }
    }
}

/// Two records that differ in `Float`s alone say the same of a session.
proof fn lemma_same_record(a: JsonView, b: JsonView)
    requires
        json::same_but_floats(a, b, json::nesting_limit()),
    ensures
        same_record(a, b),
{
    if a is Object {
        let m = a->Object_0;
        let k = b->Object_0;
        assert(json::same_fields_but_floats(m, k, 126));
        assert(m.contains_key("type"@) == k.contains_key("type"@));
        assert(m.contains_key("payload"@) == k.contains_key("payload"@));
        if m.contains_key("type"@) {
            assert(json::same_but_floats(m["type"@], k["type"@], 126));
        }
        if m.contains_key("payload"@) {
            assert(json::same_but_floats(m["payload"@], k["payload"@], 126));
            if m["payload"@] is Object {
                let p = m["payload"@]->Object_0;
                let q = k["payload"@]->Object_0;
                assert(json::same_fields_but_floats(p, q, 125));
                assert forall|key: Seq<char>| #[trigger]
                    json::text_field(m["payload"@], key) == json::text_field(
                        k["payload"@],
                        key,
                    ) by {
                    assert(p.contains_key(key) == q.contains_key(key));
                    if p.contains_key(key) {
                        assert(json::same_but_floats(p[key], q[key], 125));
                    }
                }
                assert(p.contains_key("source"@) == q.contains_key("source"@));
                if p.contains_key("source"@) {
                    assert(json::same_but_floats(p["source"@], q["source"@], 125));
                    lemma_same_marks(p["source"@], q["source"@], 125);
                }
            }
        }
    }
}

/// Whether `serde_json` reads what it writes for a record. It does, unless a `Float` in
/// the record is so large that it is refused as out of range.
pub open spec fn reads_back(record: JsonView) -> bool {
    json::parsed_json(json::compact_json(record)) is Some
}

/// What is known of the line that was written for a record: it is one line without
/// a line ending, and where it can be read it is recognised again, as a record that
/// says the same of the session.
pub open spec fn written_record(bytes: Seq<u8>, record: JsonView) -> bool {
    &&& bytes.len() > 0
    &&& forall|i: int| 0 <= i < bytes.len() ==> bytes[i] >= 0x20
    &&& json::float_free(record, json::nesting_limit()) ==> reads_back(record)
    &&& reads_back(record) ==> {
        &&& meta_with_payload(decode_utf8(bytes)) is Some
        &&& same_record(record, meta_with_payload(decode_utf8(bytes))->0)
    }
}

/// The next version of a file with these lines.
pub open spec fn staged_lines(
    lines: Seq<Seq<u8>>,
    target: Seq<char>,
    mode: ModeView,
) -> Seq<Seq<u8>> {
    lines.map_values(|l: Seq<u8>| staged_line(l, target, mode))
}

/// What is kept of these lines.
pub open spec fn kept_lines(lines: Seq<Seq<u8>>) -> Seq<Seq<u8>> {
    lines.map_values(|l: Seq<u8>| kept_line(l))
}

/// Whether all lines are UTF-8.
pub open spec fn all_utf8(lines: Seq<Seq<u8>>) -> bool {
    forall|i: int| 0 <= i < lines.len() ==> valid_utf8(line_content(#[trigger] lines[i]))
}

/// The digests and sizes of a staged file.
pub struct StagedSessionFile {
    pub original_sha256: String,
    pub next_sha256: String,
    pub original_size: u64,
    pub next_size: u64,
    pub session_meta_backup_sha256: String,
}

/// The content that was read, the content that was written in its place, and what
/// was kept to undo that.
#[verifier::ext_equal]
pub struct StageView {
    pub original: Seq<u8>,
    pub next: Seq<u8>,
    pub kept: Seq<u8>,
}

impl StagedSessionFile {
    pub open spec fn reports(self, v: StageView) -> bool {
        &&& self.original_sha256@ == digest::sha256_hex(v.original)
        &&& self.original_size == digest::capped_size(v.original)
        &&& self.next_sha256@ == digest::sha256_hex(v.next)
        &&& self.next_size == digest::capped_size(v.next)
        &&& self.session_meta_backup_sha256@ == digest::sha256_hex(v.kept)
        &&& digest::is_sha256_hex(self.original_sha256@)
        &&& digest::is_sha256_hex(self.next_sha256@)
        &&& digest::is_sha256_hex(self.session_meta_backup_sha256@)
    }
}

/// One line of a staged file: what is written in its place, and what is kept of it.
pub struct StagedLine {
    pub next: Vec<u8>,
    pub kept: Vec<u8>,
}

/// Staging in progress, line by line.
pub struct SessionStager {
    original: ContentDigest,
    next: ContentDigest,
    kept: ContentDigest,
}

impl View for SessionStager {
    type V = StageView;

    closed spec fn view(&self) -> StageView {
        StageView { original: self.original@, next: self.next@, kept: self.kept@ }
    }
}

/// What is known of the lines that were written for `line`: the rewritten record
/// is recognised again, and what is kept gives the content of the line back.
pub open spec fn line_restorable(line: Seq<u8>, target: Seq<char>, mode: ModeView) -> bool {
    let t = decode_utf8(line_content(line));
    &&& match rewritten_record(t, target, mode) {
        Some(record) => written_record(encode_utf8(json::compact_json(record)), record),
        None => true,
    }
    &&& meta_with_payload(t) is Some ==> {
        &&& is_kept_line(kept_line(line))
        &&& kept_text(kept_line(line)) == Some(t)
    }
}

/// A line that ends in a line feed and holds no other.
pub open spec fn is_kept_line(line: Seq<u8>) -> bool {
    text::is_line(line, 10u8) && line.last() == 10
}

/// The text that a kept line holds.
pub open spec fn kept_text(line: Seq<u8>) -> Option<Seq<char>> {
    let bytes = if line.len() > 0 && line.last() == 10 {
        line.drop_last()
    } else {
        line
    };
    match json::utf8_text(bytes) {
        Some(s) => match json::parsed_json(s) {
            Some(JsonView::Text(t)) => Some(t),
            _ => None,
        },
        None => None,
    }
}

impl SessionStager {
    pub closed spec fn wf(self) -> bool {
        self.original.wf() && self.next.wf() && self.kept.wf()
    }

    pub fn new() -> (r: SessionStager)
        ensures
            r.wf(),
            r@ == (StageView { original: Seq::empty(), next: Seq::empty(), kept: Seq::empty() }),
    {
        SessionStager {
            original: ContentDigest::new(),
            next: ContentDigest::new(),
            kept: ContentDigest::new(),
        }
    }

    /// Stages one more line. Staging cannot go on after a line that is not UTF-8,
    /// which is answered with `None`.
    pub fn stage(&mut self, line: &[u8], target_provider: &str, mode: &SessionRewriteMode) -> (r:
        Option<StagedLine>)
        requires
            old(self).wf(),
        ensures
            r is Some == valid_utf8(line_content(line@)),
            r matches Some(staged) ==> {
                &&& final(self).wf()
                &&& staged.next@ == staged_line(line@, target_provider@, mode@)
                &&& staged.kept@ == kept_line(line@)
                &&& line_restorable(line@, target_provider@, mode@)
                &&& final(self)@ == (StageView {
                    original: old(self)@.original + line@,
                    next: old(self)@.next + staged.next@,
                    kept: old(self)@.kept + staged.kept@,
                })
            },
    {
        self.original.feed(line);
        let (body, ending) = split_line_ending_bytes(line);
        let line_text = match json::text_from_utf8(body) {
            Some(t) => t,
            None => {
                return None;
            },
        };
        let mut kept: Vec<u8> = Vec::new();
        if session_meta_line_has_payload_object(line_text.as_str()) {
            let whole = Json::Text(text::copy_text(line_text.as_str()));
            kept = json::to_compact(&whole);
            proof {
                let t = json::compact_json(whole@);
                vstd::utf8::encode_utf8_decode_utf8(t);
                vstd::utf8::encode_utf8_valid_utf8(t);
                assert(kept@.push(10u8).drop_last() =~= kept@);
            }
            kept.push(10);
        }
        assert(kept@ =~= kept_line(line@));
        let next = match rewritten_session_meta_line(line_text.as_str(), target_provider, mode) {
            Some(bytes) => {
                let mut out = bytes;
                out.extend_from_slice(ending);
                out
            },
            None => vstd::slice::slice_to_vec(line),
        };
        assert(next@ =~= staged_line(line@, target_provider@, mode@));
        self.next.feed(next.as_slice());
        self.kept.feed(kept.as_slice());
        Some(StagedLine { next, kept })
    }

    pub fn finish(self) -> (r: StagedSessionFile)
        requires
            self.wf(),
        ensures
            r.reports(self@),
    {
        let (original_sha256, original_size) = self.original.finish();
        let (next_sha256, next_size) = self.next.finish();
        let (session_meta_backup_sha256, _) = self.kept.finish();
        StagedSessionFile {
            original_sha256,
            next_sha256,
            original_size,
            next_size,
            session_meta_backup_sha256,
        }
    }
}

// ---------------------------------------------------------------------------
// Restoring the original version of a rollout file
// ---------------------------------------------------------------------------
/// Why the original version of a file cannot be restored.
#[derive(Clone, Copy, PartialEq, Eq, Debug)]
pub enum RestoreError {
    /// A line of the file is not UTF-8.
    NotUtf8,
    /// There are more `session_meta` records than kept lines.
    MetadataIncomplete,
    /// A kept line does not hold a text.
    MetadataInvalid,
    /// There are more kept lines than `session_meta` records.
    MetadataCountMismatch,
    /// The kept lines are not those that were written.
    MetadataHashMismatch,
}

/// What has been restored: the content, and how many kept lines went into it.
pub struct RestoreView {
    pub content: Seq<u8>,
    pub used: nat,
}

/// The content of a line as it was before it was staged.
pub open spec fn restored_line(line: Seq<u8>, kept: Option<Seq<u8>>) -> Result<
    Seq<u8>,
    RestoreError,
> {
    if !valid_utf8(line_content(line)) {
        Err(RestoreError::NotUtf8)
    } else if meta_with_payload(decode_utf8(line_content(line))) is None {
        Ok(line)
    } else {
        match kept {
            None => Err(RestoreError::MetadataIncomplete),
            Some(k) => match kept_text(k) {
                None => Err(RestoreError::MetadataInvalid),
                Some(t) => Ok(encode_utf8(t) + line_ending(line)),
            },
        }
    }
}

/// How many kept lines go into restoring a line.
pub open spec fn kept_lines_used(line: Seq<u8>) -> nat {
    if meta_with_payload(decode_utf8(line_content(line))) is Some {
        1
    } else {
        0
    }
}

/// Restores line after line, taking kept lines in their order.
pub open spec fn restore_lines(lines: Seq<Seq<u8>>, kept: Seq<Seq<u8>>) -> Result<
    RestoreView,
    RestoreError,
>
    decreases lines.len(),
{
    if lines.len() == 0 {
        Ok(RestoreView { content: Seq::empty(), used: 0 })
    } else {
        match restore_lines(lines.drop_last(), kept) {
            Err(e) => Err(e),
            Ok(v) => {
                let next = if v.used < kept.len() {
                    Some(kept[v.used as int])
                } else {
                    None
                };
                match restored_line(lines.last(), next) {
                    Err(e) => Err(e),
                    Ok(l) => Ok(
                        RestoreView {
                            content: v.content + l,
                            used: v.used + kept_lines_used(lines.last()),
                        },
                    ),
                }
            },
        }
    }
}

/// The original version of a file, from its lines and all the kept lines.
pub open spec fn restored_content(
    lines: Seq<Seq<u8>>,
    kept: Seq<Seq<u8>>,
    kept_sha256: Seq<char>,
) -> Result<Seq<u8>, RestoreError> {
    match restore_lines(lines, kept) {
        Err(e) => Err(e),
        Ok(v) => if v.used < kept.len() {
            Err(RestoreError::MetadataCountMismatch)
        } else if digest::sha256_hex(text::joined(kept)) != kept_sha256 {
            Err(RestoreError::MetadataHashMismatch)
        } else {
            Ok(v.content)
        },
    }
}

/// Restoring in progress, line by line.
pub struct SessionRestorer {
    content: ContentDigest,
    kept: ContentDigest,
}

impl SessionRestorer {
    pub closed spec fn wf(self) -> bool {
        self.content.wf() && self.kept.wf()
    }

    /// The content that has been restored.
    pub closed spec fn content(self) -> Seq<u8> {
        self.content@
    }

    /// The kept lines that went into it.
    pub closed spec fn kept(self) -> Seq<u8> {
        self.kept@
    }

    pub fn new() -> (r: SessionRestorer)
        ensures
            r.wf(),
            r.content() == Seq::<u8>::empty(),
            r.kept() == Seq::<u8>::empty(),
    {
        SessionRestorer { content: ContentDigest::new(), kept: ContentDigest::new() }
    }

    /// Whether a kept line goes into restoring `line`.
    pub fn wants_kept_line(line: &[u8]) -> (r: Result<bool, RestoreError>)
        ensures
            match r {
                Ok(wanted) => valid_utf8(line_content(line@)) && wanted == (kept_lines_used(line@)
                    == 1),
                Err(e) => !valid_utf8(line_content(line@)) && e == RestoreError::NotUtf8,
            },
    {
        let (body, _) = split_line_ending_bytes(line);
        match json::text_from_utf8(body) {
            Some(t) => Ok(session_meta_line_has_payload_object(t.as_str())),
            None => Err(RestoreError::NotUtf8),
        }
    }

    /// Restores one more line. A kept line is taken where the line wants one.
    pub fn restore(&mut self, line: &[u8], kept: Option<&[u8]>) -> (r: Result<
        Vec<u8>,
        RestoreError,
    >)
        requires
            old(self).wf(),
        ensures
            match (r, restored_line(line@, bytes_of(kept))) {
                (Ok(bytes), Ok(l)) => bytes@ == l && final(self).wf() && final(self).content()
                    == old(self).content() + l && final(self).kept() == if kept_lines_used(line@)
                    == 1 {
                    old(self).kept() + bytes_of(kept)->0
                } else {
                    old(self).kept()
                },
                (Err(e), Err(expected)) => e == expected,
                _ => false,
            },
    {
        let (body, ending) = split_line_ending_bytes(line);
        let line_text = match json::text_from_utf8(body) {
            Some(t) => t,
            None => {
                return Err(RestoreError::NotUtf8);
            },
        };
        if !session_meta_line_has_payload_object(line_text.as_str()) {
            self.content.feed(line);
            return Ok(vstd::slice::slice_to_vec(line));
        }
        let kept_line = match kept {
            Some(k) => k,
            None => {
                return Err(RestoreError::MetadataIncomplete);
            },
        };
        let original = match read_kept_line(kept_line) {
            Some(t) => t,
            None => {
                return Err(RestoreError::MetadataInvalid);
            },
        };
        self.kept.feed(kept_line);
        let mut out = json::text_to_utf8(original.as_str());
        out.extend_from_slice(ending);
        self.content.feed(out.as_slice());
        Ok(out)
    }

    /// Ends the restoring, given whether a kept line is left over. The result is
    /// the digest of the restored content and its size.
    pub fn finish(self, kept_left: bool, kept_sha256: &str) -> (r: Result<
        (String, u64),
        RestoreError,
    >)
        requires
            self.wf(),
        ensures
            match r {
                Ok((sha256, size)) => !kept_left && digest::sha256_hex(self.kept()) == kept_sha256@
                    && sha256@ == digest::sha256_hex(self.content()) && size
                    == digest::capped_size(self.content()),
                Err(e) => if kept_left {
                    e == RestoreError::MetadataCountMismatch
                } else {
                    e == RestoreError::MetadataHashMismatch && digest::sha256_hex(self.kept())
                        != kept_sha256@
                },
            },
    {
        if kept_left {
            return Err(RestoreError::MetadataCountMismatch);
        }
        let (sha256, _) = self.kept.finish();
        if !text::same_text(sha256.as_str(), kept_sha256) {
            return Err(RestoreError::MetadataHashMismatch);
        }
        Ok(self.content.finish())
    }
}

/// What an optional byte string holds.
pub open spec fn bytes_of(o: Option<&[u8]>) -> Option<Seq<u8>> {
    match o {
        Some(b) => Some(b@),
        None => None,
    }
}

fn read_kept_line(line: &[u8]) -> (r: Option<String>)
    ensures
        text::text_of(r) == kept_text(line@),
{
    let mut n: usize = line.len();
    if n > 0 && line[n - 1] == 10 {
        n -= 1;
    }
    let bytes = vstd::slice::slice_subrange(line, 0, n);
    proof {
        if line@.len() > 0 && line@.last() == 10 {
            assert(bytes@ =~= line@.drop_last());
        } else {
            assert(bytes@ =~= line@);
        }
    }
    match json::text_from_utf8(bytes) {
        Some(s) => match json::parse(s.as_str()) {
            Some(Json::Text(t)) => Some(t),
            _ => None,
        },
        None => None,
    }
}

// ---------------------------------------------------------------------------
// Staging and restoring whole contents
// ---------------------------------------------------------------------------
/// Whether the record that a line is rewritten to, if it is, can be read again.
pub open spec fn rewrite_reads_back(line: Seq<u8>, target: Seq<char>, mode: ModeView) -> bool {
    rewritten_record(decode_utf8(line_content(line)), target, mode) matches Some(record)
        ==> reads_back(record)
}

/// Staging undone: the lines that were staged for `line` give it back, where they can be
/// read.
proof fn lemma_line_restored(line: Seq<u8>, target: Seq<char>, mode: ModeView)
    requires
        valid_utf8(line_content(line)),
        text::is_line(line, 10u8),
        line_restorable(line, target, mode),
    ensures
        text::is_line(staged_line(line, target, mode), 10u8),
        staged_line(line, target, mode).last() == 10 <==> line.last() == 10,
        valid_utf8(line_content(staged_line(line, target, mode))),
        kept_lines_used(line) == 0 ==> kept_line(line) == Seq::<u8>::empty(),
        kept_lines_used(line) == 1 ==> is_kept_line(kept_line(line)),
        rewrite_reads_back(line, target, mode) ==> {
            &&& kept_lines_used(staged_line(line, target, mode)) == kept_lines_used(line)
            &&& kept_lines_used(line) == 0 ==> restored_line(
                staged_line(line, target, mode),
                None,
            ) == Ok::<Seq<u8>, RestoreError>(line)
            &&& kept_lines_used(line) == 1 ==> restored_line(
                staged_line(line, target, mode),
                Some(kept_line(line)),
            ) == Ok::<Seq<u8>, RestoreError>(line)
        },
{
    let body = line_content(line);
    let end = line_ending(line);
    let t = decode_utf8(body);
    let next = staged_line(line, target, mode);
    assert(line =~= body + end);
    vstd::utf8::decode_utf8_encode_utf8(body);
    if let Some(record) = rewritten_record(t, target, mode) {
        let bytes = encode_utf8(json::compact_json(record));
        vstd::utf8::encode_utf8_valid_utf8(json::compact_json(record));
        assert(next == bytes + end);
        assert(content_length(next) == bytes.len()) by {
            assert(bytes[bytes.len() - 1] >= 0x20);
            if end.len() == 0 {
                assert(next =~= bytes);
            }
        }
        assert(line_content(next) =~= bytes);
        assert(line_ending(next) =~= end);
        assert forall|i: int| 0 <= i < next.len() - 1 implies next[i] != 10u8 by {
            if i >= bytes.len() {
                assert(next[i] == end[i - bytes.len()]);
                assert(end[i - bytes.len()] == line[body.len() + i - bytes.len()]);
            }
        }
        if end.len() > 0 {
            assert(next.last() == end.last());
            assert(line.last() == end.last());
        } else {
            assert(next.last() == bytes.last());
            assert(line.last() != 10u8);
        }
        assert(kept_text(kept_line(line)) == Some(t));
    } else {
        assert(next == line);
    }
}

/// The lines that are kept of `lines`.
spec fn kept_list(lines: Seq<Seq<u8>>) -> Seq<Seq<u8>>
    decreases lines.len(),
{
    if lines.len() == 0 {
        Seq::empty()
    } else if kept_lines_used(lines.last()) == 1 {
        kept_list(lines.drop_last()).push(kept_line(lines.last()))
    } else {
        kept_list(lines.drop_last())
    }
}

/// Whether every line can be restored after it was staged.
pub open spec fn all_restorable(lines: Seq<Seq<u8>>, target: Seq<char>, mode: ModeView) -> bool {
    forall|i: int| 0 <= i < lines.len() ==> line_restorable(#[trigger] lines[i], target, mode)
}

/// Whether every record that is rewritten can be read again.
pub open spec fn rewrites_read_back(
    lines: Seq<Seq<u8>>,
    target: Seq<char>,
    mode: ModeView,
) -> bool {
    forall|i: int| 0 <= i < lines.len() ==> rewrite_reads_back(#[trigger] lines[i], target, mode)
}

/// Records without a number that has a fraction or an exponent can always be read
/// again.
pub proof fn lemma_rewrites_without_floats_read_back(
    lines: Seq<Seq<u8>>,
    target: Seq<char>,
    mode: ModeView,
)
    requires
        all_restorable(lines, target, mode),
        forall|i: int|
            0 <= i < lines.len() ==> (rewritten_record(
                decode_utf8(line_content(#[trigger] lines[i])),
                target,
                mode,
            ) matches Some(record) ==> json::float_free(record, json::nesting_limit())),
    ensures
        rewrites_read_back(lines, target, mode),
{
    assert forall|i: int| 0 <= i < lines.len() implies rewrite_reads_back(
        #[trigger] lines[i],
        target,
        mode,
    ) by {
        assert(line_restorable(lines[i], target, mode));
    }
}

proof fn lemma_lines_init(lines: Seq<Seq<u8>>, target: Seq<char>, mode: ModeView)
    requires
        lines.len() > 0,
        text::are_lines(lines, 10u8),
        all_utf8(lines),
        all_restorable(lines, target, mode),
    ensures
        text::are_lines(lines.drop_last(), 10u8),
        all_utf8(lines.drop_last()),
        all_restorable(lines.drop_last(), target, mode),
        rewrites_read_back(lines, target, mode) ==> rewrites_read_back(
            lines.drop_last(),
            target,
            mode,
        ),
{
    let init = lines.drop_last();
    assert(forall|i: int| 0 <= i < init.len() ==> init[i] == lines[i]);
    assert forall|i: int| 0 <= i < init.len() implies text::is_line(#[trigger] init[i], 10u8) by {
        assert(text::is_line(lines[i], 10u8));
    }
    assert forall|i: int| 0 <= i < init.len() - 1 implies (#[trigger] init[i]).last() == 10u8 by {
        assert(lines[i].last() == 10u8);
    }
    assert forall|i: int| 0 <= i < init.len() implies valid_utf8(line_content(#[trigger] init[i])) by {
        assert(valid_utf8(line_content(lines[i])));
    }
    assert forall|i: int| 0 <= i < init.len() implies line_restorable(#[trigger] init[i], target, mode) by {
        assert(line_restorable(lines[i], target, mode));
    }
    if rewrites_read_back(lines, target, mode) {
        assert forall|i: int| 0 <= i < init.len() implies rewrite_reads_back(
            #[trigger] init[i],
            target,
            mode,
        ) by {
            assert(rewrite_reads_back(lines[i], target, mode));
        }
    }
}

proof fn lemma_kept_list(lines: Seq<Seq<u8>>, target: Seq<char>, mode: ModeView)
    requires
        text::are_lines(lines, 10u8),
        all_utf8(lines),
        all_restorable(lines, target, mode),
    ensures
        text::joined(kept_list(lines)) == text::joined(kept_lines(lines)),
        text::are_lines(kept_list(lines), 10u8),
        forall|i: int|
            0 <= i < kept_list(lines).len() ==> (#[trigger] kept_list(lines)[i]).last() == 10u8,
        text::are_lines(staged_lines(lines, target, mode), 10u8),
    decreases lines.len(),
{
    if lines.len() > 0 {
        let init = lines.drop_last();
        let last = lines[lines.len() - 1];
        lemma_lines_init(lines, target, mode);
        lemma_kept_list(init, target, mode);
        assert(text::is_line(last, 10u8) && valid_utf8(line_content(last)) && line_restorable(
            last,
            target,
            mode,
        ));
        lemma_line_restored(last, target, mode);
        assert(kept_lines(lines) =~= kept_lines(init).push(kept_line(last)));
        assert(kept_lines(lines).drop_last() =~= kept_lines(init));
        if kept_lines_used(last) == 1 {
            assert(kept_list(lines).drop_last() =~= kept_list(init));
        } else {
            assert(text::joined(kept_lines(init)) + kept_line(last) =~= text::joined(
                kept_lines(init),
            ));
        }
        let st = staged_lines(lines, target, mode);
        let si = staged_lines(init, target, mode);
        assert(st =~= si.push(staged_line(last, target, mode)));
        assert forall|i: int| 0 <= i < st.len() implies text::is_line(#[trigger] st[i], 10u8) by {
            if i < si.len() {
                assert(st[i] == si[i]);
            }
        }
        assert forall|i: int| 0 <= i < st.len() - 1 implies (#[trigger] st[i]).last() == 10u8 by {
            assert(lines[i].last() == 10u8);
            assert(st[i] == staged_line(lines[i], target, mode));
            assert(text::is_line(lines[i], 10u8) && valid_utf8(line_content(lines[i]))
                && line_restorable(lines[i], target, mode));
            lemma_line_restored(lines[i], target, mode);
        }
    } else {
        assert(kept_lines(lines) =~= Seq::<Seq<u8>>::empty());
    }
}

proof fn lemma_restore_lines(
    lines: Seq<Seq<u8>>,
    kept: Seq<Seq<u8>>,
    target: Seq<char>,
    mode: ModeView,
)
    requires
        text::are_lines(lines, 10u8),
        all_utf8(lines),
        all_restorable(lines, target, mode),
        rewrites_read_back(lines, target, mode),
        kept_list(lines).is_prefix_of(kept),
    ensures
        restore_lines(staged_lines(lines, target, mode), kept) == Ok::<RestoreView, RestoreError>(
            RestoreView { content: text::joined(lines), used: kept_list(lines).len() },
        ),
    decreases lines.len(),
{
    if lines.len() > 0 {
        let init = lines.drop_last();
        let last = lines[lines.len() - 1];
        lemma_lines_init(lines, target, mode);
        assert(kept_list(init).is_prefix_of(kept)) by {
            assert(kept_list(init).len() <= kept_list(lines).len());
            assert(kept_list(init) =~= kept_list(lines).subrange(0, kept_list(init).len() as int));
            assert(kept_list(lines) =~= kept.subrange(0, kept_list(lines).len() as int));
            assert(kept_list(init) =~= kept.subrange(0, kept_list(init).len() as int));
        }
        lemma_restore_lines(init, kept, target, mode);
        assert(text::is_line(last, 10u8) && valid_utf8(line_content(last)) && line_restorable(
            last,
            target,
            mode,
        ));
        lemma_line_restored(last, target, mode);
        let st = staged_lines(lines, target, mode);
        assert(st.drop_last() =~= staged_lines(init, target, mode));
        assert(st.last() == staged_line(last, target, mode));
        if kept_lines_used(last) == 1 {
            let n = kept_list(init).len();
            assert(kept_list(lines)[n as int] == kept_line(last));
            assert(kept[n as int] == kept_list(lines)[n as int]);
        }
    }
}

/// Restoring undoes staging: from the next version of a file and what was kept of
/// its lines, the original content comes back byte for byte. A line that was rewritten
/// and cannot be read is not known for a record, and its kept line is left over, which
/// is why the law leaves that out.
pub proof fn lemma_restore_undoes_staging(content: Seq<u8>, target: Seq<char>, mode: ModeView)
    requires
        all_utf8(text::lines_of(content, 10u8)),
        all_restorable(text::lines_of(content, 10u8), target, mode),
        rewrites_read_back(text::lines_of(content, 10u8), target, mode),
    ensures
        ({
            let lines = text::lines_of(content, 10u8);
            let next = text::joined(staged_lines(lines, target, mode));
            let kept = text::joined(kept_lines(lines));
            restored_content(
                text::lines_of(next, 10u8),
                text::lines_of(kept, 10u8),
                digest::sha256_hex(kept),
            ) == Ok::<Seq<u8>, RestoreError>(content)
        }),
{
    let lines = text::lines_of(content, 10u8);
    text::lemma_lines_join(content, 10u8);
    lemma_kept_list(lines, target, mode);
    text::lemma_lines_split(kept_list(lines), 10u8);
    text::lemma_lines_split(staged_lines(lines, target, mode), 10u8);
    assert(kept_list(lines).is_prefix_of(kept_list(lines)));
    lemma_restore_lines(lines, kept_list(lines), target, mode);
}

/// A staged file: its next version, what is kept to undo it, and the digests.
pub struct StagedContent {
    pub next: Vec<u8>,
    pub kept: Vec<u8>,
    pub file: StagedSessionFile,
}

/// Stages the content of a rollout file; nothing where it is not UTF-8.
pub fn stage_next_session_file(
    content: &[u8],
    target_provider: &str,
    mode: &SessionRewriteMode,
) -> (r: Option<StagedContent>)
    ensures
        r is Some == all_utf8(text::lines_of(content@, 10u8)),
        r matches Some(staged) ==> {
            let lines = text::lines_of(content@, 10u8);
            &&& staged.next@ == text::joined(staged_lines(lines, target_provider@, mode@))
            &&& staged.kept@ == text::joined(kept_lines(lines))
            &&& staged.file.reports(
                StageView { original: content@, next: staged.next@, kept: staged.kept@ },
            )
            &&& all_restorable(lines, target_provider@, mode@)
            &&& rewrites_read_back(lines, target_provider@, mode@) ==> restored_content(
                text::lines_of(staged.next@, 10u8),
                text::lines_of(staged.kept@, 10u8),
                staged.file.session_meta_backup_sha256@,
            ) == Ok::<Seq<u8>, RestoreError>(content@)
        },
{
    let lines = text::byte_lines(content);
    let ghost all = text::byte_texts(lines@);
    let mut stager = SessionStager::new();
    let mut next: Vec<u8> = Vec::new();
    let mut kept: Vec<u8> = Vec::new();
    let mut i: usize = 0;
    while i < lines.len()
        invariant
            i <= lines.len(),
            all == text::byte_texts(lines@),
            all == text::lines_of(content@, 10u8),
            stager.wf(),
            stager@.original == text::joined(all.take(i as int)),
            stager@.next == next@,
            stager@.kept == kept@,
            next@ == text::joined(staged_lines(all.take(i as int), target_provider@, mode@)),
            kept@ == text::joined(kept_lines(all.take(i as int))),
            forall|k: int| 0 <= k < i ==> valid_utf8(line_content(#[trigger] all[k])),
            forall|k: int|
                0 <= k < i ==> line_restorable(#[trigger] all[k], target_provider@, mode@),
        decreases lines.len() - i,
    {
        let ghost part = all.take(i as int);
        let ghost line = all[i as int];
        proof {
            assert(all.take(i + 1) =~= part.push(line));
            assert(all.take(i + 1).drop_last() =~= part);
            assert(staged_lines(part.push(line), target_provider@, mode@) =~= staged_lines(
                part,
                target_provider@,
                mode@,
            ).push(staged_line(line, target_provider@, mode@)));
            assert(staged_lines(part.push(line), target_provider@, mode@).drop_last()
                =~= staged_lines(part, target_provider@, mode@));
            assert(kept_lines(part.push(line)) =~= kept_lines(part).push(kept_line(line)));
            assert(kept_lines(part.push(line)).drop_last() =~= kept_lines(part));
        }
        let staged = match stager.stage(lines[i].as_slice(), target_provider, mode) {
            Some(staged) => staged,
            None => {
                assert(!valid_utf8(line_content(all[i as int])));
                return None;
            },
        };
        next.extend_from_slice(staged.next.as_slice());
        kept.extend_from_slice(staged.kept.as_slice());
        i += 1;
    }
    proof {
        assert(all.take(i as int) =~= all);
        text::lemma_lines_join(content@, 10u8);
        if rewrites_read_back(all, target_provider@, mode@) {
            lemma_restore_undoes_staging(content@, target_provider@, mode@);
        }
    }
    let file = stager.finish();
    Some(StagedContent { next, kept, file })
}

/// Restores the original content of a rollout file from its next version and what
/// was kept.
pub fn stage_original_session_file(content: &[u8], kept: &[u8], kept_sha256: &str) -> (r: Result<
    Vec<u8>,
    RestoreError,
>)
    ensures
        match (
            r,
            restored_content(
                text::lines_of(content@, 10u8),
                text::lines_of(kept@, 10u8),
                kept_sha256@,
            ),
        ) {
            (Ok(bytes), Ok(expected)) => bytes@ == expected,
            (Err(e), Err(expected)) => e == expected,
            _ => false,
        },
{
    let lines = text::byte_lines(content);
    let kept_lines = text::byte_lines(kept);
    let ghost all = text::byte_texts(lines@);
    let ghost all_kept = text::byte_texts(kept_lines@);
    let mut restorer = SessionRestorer::new();
    let mut out: Vec<u8> = Vec::new();
    let mut used: usize = 0;
    let mut i: usize = 0;
    assert(all_kept.take(0) =~= Seq::<Seq<u8>>::empty());
    while i < lines.len()
        invariant
            i <= lines.len(),
            used <= kept_lines.len(),
            all == text::byte_texts(lines@),
            all == text::lines_of(content@, 10u8),
            all_kept == text::byte_texts(kept_lines@),
            all_kept == text::lines_of(kept@, 10u8),
            restorer.wf(),
            restorer.content() == out@,
            restorer.kept() == text::joined(all_kept.take(used as int)),
            restore_lines(all.take(i as int), all_kept) == Ok::<RestoreView, RestoreError>(
                RestoreView { content: out@, used: used as nat },
            ),
        decreases lines.len() - i,
    {
        assert(all.take(i + 1).drop_last() =~= all.take(i as int));
        assert(all.take(i + 1).last() == lines@[i as int]@);
        let next = if used < kept_lines.len() {
            Some(kept_lines[used].as_slice())
        } else {
            None
        };
        assert(bytes_of(next) == if used < all_kept.len() {
            Some(all_kept[used as int])
        } else {
            None
        });
        let wanted = match SessionRestorer::wants_kept_line(lines[i].as_slice()) {
            Ok(wanted) => wanted,
            Err(_) => false,
        };
        match restorer.restore(lines[i].as_slice(), next) {
            Ok(bytes) => {
                let ghost before = out@;
                out.extend_from_slice(bytes.as_slice());
                assert(out@ =~= before + bytes@);
                assert(restore_lines(all.take(i + 1), all_kept) == Ok::<RestoreView, RestoreError>(
                    RestoreView {
                        content: before + bytes@,
                        used: used as nat + kept_lines_used(lines@[i as int]@),
                    },
                ));
                if wanted {
                    proof {
                        assert(all_kept.take(used + 1).drop_last() =~= all_kept.take(used as int));
                    }
                    used += 1;
                }
            },
            Err(e) => {
                proof {
                    lemma_restore_stops(all, i + 1, all_kept, e);
                }
                return Err(e);
            },
        }
        i += 1;
    }
    assert(all.take(i as int) =~= all);
    assert(used == all_kept.len() ==> all_kept.take(used as int) =~= all_kept);
    match restorer.finish(used < kept_lines.len(), kept_sha256) {
        Ok(_) => Ok(out),
        Err(e) => Err(e),
    }
}

/// Restoring that failed stays failed, whatever lines come later.
proof fn lemma_restore_stops(lines: Seq<Seq<u8>>, n: int, kept: Seq<Seq<u8>>, e: RestoreError)
    requires
        0 <= n <= lines.len(),
        restore_lines(lines.take(n), kept) == Err::<RestoreView, RestoreError>(e),
    ensures
        restore_lines(lines, kept) == Err::<RestoreView, RestoreError>(e),
    decreases lines.len() - n,
{
    if n < lines.len() {
        assert(lines.take(n + 1).drop_last() =~= lines.take(n));
        lemma_restore_stops(lines, n + 1, kept, e);
    } else {
        assert(lines.take(n) =~= lines);
    }
}

// ---------------------------------------------------------------------------
// Rewriting settles a file
// ---------------------------------------------------------------------------
/// Whether two scans found the same apart from the providers.
pub open spec fn same_session(a: ScanView, b: ScanView) -> bool {
    &&& a.thread_id == b.thread_id
    &&& a.cwd == b.cwd
    &&& a.session_meta_count == b.session_meta_count
    &&& a.marks_non_root_agent == b.marks_non_root_agent
}

proof fn lemma_scan_staged(lines: Seq<Seq<u8>>, target: Seq<char>, mode: ModeView)
    requires
        text::are_lines(lines, 10u8),
        all_utf8(lines),
        all_restorable(lines, target, mode),
        !needs_rewrite(Some(target), target, mode),
    ensures
        scan_lines(lines, target, mode) is Some,
        scan_lines(staged_lines(lines, target, mode), target, mode) is Some,
        !scan_lines(staged_lines(lines, target, mode), target, mode)->0.rewrite_needed,
        rewrites_read_back(lines, target, mode) ==> same_session(
            scan_lines(lines, target, mode)->0,
            scan_lines(staged_lines(lines, target, mode), target, mode)->0,
        ),
    decreases lines.len(),
{
    if lines.len() > 0 {
        let init = lines.drop_last();
        let last = lines[lines.len() - 1];
        lemma_lines_init(lines, target, mode);
        lemma_scan_staged(init, target, mode);
        assert(text::is_line(last, 10u8) && valid_utf8(line_content(last)) && line_restorable(
            last,
            target,
            mode,
        ));
        lemma_line_restored(last, target, mode);
        let st = staged_lines(lines, target, mode);
        let next = staged_line(last, target, mode);
        assert(st.drop_last() =~= staged_lines(init, target, mode));
        assert(st.last() == next);
        let t = decode_utf8(line_content(last));
        reveal_strlit("model_provider");
        reveal_strlit("id");
        reveal_strlit("cwd");
        if let Some(record) = rewritten_record(t, target, mode) {
            let bytes = encode_utf8(json::compact_json(record));
            assert(line_content(next) =~= bytes) by {
                assert(bytes[bytes.len() - 1] >= 0x20);
                if line_ending(last).len() == 0 {
                    assert(next =~= bytes);
                }
            }
            vstd::utf8::encode_utf8_decode_utf8(json::compact_json(record));
            if reads_back(record) {
                let before = meta_with_payload(t)->0;
                lemma_with_provider(before, target);
                let again = meta_with_payload(decode_utf8(line_content(next)))->0;
                assert(same_record(record, again));
                assert("id"@.len() != "model_provider"@.len());
                assert("cwd"@.len() != "model_provider"@.len());
                assert(json::field(payload_of(record)->0, "id"@) == json::field(
                    payload_of(before)->0,
                    "id"@,
                ));
                assert(json::field(payload_of(record)->0, "cwd"@) == json::field(
                    payload_of(before)->0,
                    "cwd"@,
                ));
                assert(json::text_field(payload_of(record)->0, "id"@) == json::text_field(
                    payload_of(again)->0,
                    "id"@,
                ));
                assert(json::text_field(payload_of(record)->0, "cwd"@) == json::text_field(
                    payload_of(again)->0,
                    "cwd"@,
                ));
                assert(provider_of(payload_of(record)->0) == provider_of(payload_of(again)->0));
            } else {
                assert(meta_record(decode_utf8(line_content(next))) is None);
            }
        }
    } else {
        assert(staged_lines(lines, target, mode) =~= Seq::<Seq<u8>>::empty());
    }
}

/// Rewriting settles a file: a scan of the next version finds nothing left to
/// rewrite. Where all that was rewritten can be read, it finds the same thread, working
/// directory and number of records.
pub proof fn lemma_staged_file_is_settled(content: Seq<u8>, target: Seq<char>, mode: ModeView)
    requires
        all_utf8(text::lines_of(content, 10u8)),
        all_restorable(text::lines_of(content, 10u8), target, mode),
        !needs_rewrite(Some(target), target, mode),
    ensures
        ({
            let lines = text::lines_of(content, 10u8);
            let next = text::joined(staged_lines(lines, target, mode));
            let before = scan_lines(lines, target, mode);
            let after = scan_lines(text::lines_of(next, 10u8), target, mode);
            &&& before is Some
            &&& after is Some
            &&& !after->0.rewrite_needed
            &&& rewrites_read_back(lines, target, mode) ==> same_session(before->0, after->0)
        }),
{
    let lines = text::lines_of(content, 10u8);
    text::lemma_lines_join(content, 10u8);
    lemma_kept_list(lines, target, mode);
    text::lemma_lines_split(staged_lines(lines, target, mode), 10u8);
    lemma_scan_staged(lines, target, mode);
}

/// A file without anything to rewrite stays as it is.
pub proof fn lemma_settled_file_is_kept(content: Seq<u8>, target: Seq<char>, mode: ModeView)
    requires
        scan_lines(text::lines_of(content, 10u8), target, mode) matches Some(v)
            && !v.rewrite_needed,
    ensures
        text::joined(staged_lines(text::lines_of(content, 10u8), target, mode)) == content,
{
    let lines = text::lines_of(content, 10u8);
    text::lemma_lines_join(content, 10u8);
    lemma_nothing_to_rewrite(lines, target, mode);
}

proof fn lemma_nothing_to_rewrite(lines: Seq<Seq<u8>>, target: Seq<char>, mode: ModeView)
    requires
        scan_lines(lines, target, mode) matches Some(v) && !v.rewrite_needed,
    ensures
        staged_lines(lines, target, mode) == lines,
    decreases lines.len(),
{
    if lines.len() > 0 {
        let init = lines.drop_last();
        lemma_nothing_to_rewrite(init, target, mode);
        assert(staged_line(lines.last(), target, mode) == lines.last());
        assert forall|i: int| 0 <= i < lines.len() implies staged_lines(lines, target, mode)[i]
            == lines[i] by {
            if i < init.len() {
                assert(staged_lines(init, target, mode)[i] == init[i]);
            }
        }
    }
    assert(staged_lines(lines, target, mode) =~= lines);
}

/// A scan of lines that are not all UTF-8 finds nothing.
pub proof fn lemma_scanned_lines_are_utf8(lines: Seq<Seq<u8>>, target: Seq<char>, mode: ModeView)
    requires
        scan_lines(lines, target, mode) is Some,
    ensures
        all_utf8(lines),
    decreases lines.len(),
{
    if lines.len() > 0 {
        let init = lines.drop_last();
        lemma_scanned_lines_are_utf8(init, target, mode);
        assert forall|i: int| 0 <= i < lines.len() implies valid_utf8(
            line_content(#[trigger] lines[i]),
        ) by {
            if i < init.len() {
                assert(init[i] == lines[i]);
            }
        }
    }
}

// ---------------------------------------------------------------------------
// What a scan and a rewrite are for
// ---------------------------------------------------------------------------
/// Whether a line reads as a `session_meta` record with this payload.
pub open spec fn is_session_line(
    line: Seq<u8>,
    record: Map<Seq<char>, JsonView>,
    payload: Map<Seq<char>, JsonView>,
) -> bool {
    let t = decode_utf8(line_content(line));
    &&& text::holds(encode_utf8(t), encode_utf8("\"session_meta\""@))
    &&& json::parsed_json(t) == Some(JsonView::Object(record))
    &&& record.contains_key("type"@)
    &&& record["type"@] == JsonView::Text("session_meta"@)
    &&& record.contains_key("payload"@)
    &&& record["payload"@] == JsonView::Object(payload)
}

/// Whether a line reads as a `session_meta` record with this payload, whatever else the
/// record holds.
pub open spec fn tells_session(line: Seq<u8>, payload: Map<Seq<char>, JsonView>) -> bool {
    exists|record: Map<Seq<char>, JsonView>| is_session_line(line, record, payload)
}

/// Whether the line at `i` tells of a session with this payload.
pub open spec fn session_at(
    lines: Seq<Seq<u8>>,
    i: int,
    payload: Map<Seq<char>, JsonView>,
) -> bool {
    0 <= i < lines.len() && tells_session(lines[i], payload)
}

/// Whether a payload names this provider.
pub open spec fn names_provider(payload: Map<Seq<char>, JsonView>, p: Seq<char>) -> bool {
    payload.contains_key("model_provider"@) && payload["model_provider"@] == JsonView::Text(p)
}

/// Whether a payload names no provider.
pub open spec fn names_none(payload: Map<Seq<char>, JsonView>) -> bool {
    !(payload.contains_key("model_provider"@) && payload["model_provider"@] is Text)
}

/// A line is its content and its line ending, which is a line feed with or without a
/// carriage return before it, or nothing. A content never ends in a line feed that closes
/// the line.
pub proof fn lemma_line_is_content_and_ending(line: Seq<u8>)
    ensures
        line == line_content(line) + line_ending(line),
        line_ending(line) == seq![10u8] || line_ending(line) == seq![13u8, 10u8] || line_ending(
            line,
        ) == Seq::<u8>::empty(),
        line.len() > 0 && line.last() == 10 <==> line_ending(line).len() > 0,
        line_ending(line) == seq![10u8] ==> line_content(line).len() == 0 || line_content(
            line,
        ).last() != 13,
{
    assert(line =~= line_content(line) + line_ending(line));
    let n = line.len() as int;
    if n >= 2 && line[n - 2] == 13 && line[n - 1] == 10 {
        assert(line_ending(line) =~= seq![13u8, 10u8]);
        assert(line_ending(line).len() == 2);
        assert(line_ending(line)[0] == 13);
    } else if n >= 1 && line[n - 1] == 10 {
        assert(line_ending(line) =~= seq![10u8]);
    } else {
        assert(line_ending(line) =~= Seq::<u8>::empty());
    }
}

proof fn lemma_marker()
    ensures
        meta_marker() == encode_utf8("\"session_meta\""@),
{
    reveal_strlit("\"session_meta\"");
    reveal_strlit("session_meta");
    assert("\"session_meta\""@ =~= json::quoted("session_meta"@));
}

proof fn lemma_session_line(
    line: Seq<u8>,
    record: Map<Seq<char>, JsonView>,
    payload: Map<Seq<char>, JsonView>,
)
    requires
        is_session_line(line, record, payload),
    ensures
        meta_record(decode_utf8(line_content(line))) == Some(JsonView::Object(record)),
        meta_with_payload(decode_utf8(line_content(line))) == Some(JsonView::Object(record)),
        payload_of(JsonView::Object(record)) == Some(JsonView::Object(payload)),
        provider_of(JsonView::Object(payload)) is None <==> names_none(payload),
        provider_of(JsonView::Object(payload)) matches Some(p) ==> names_provider(payload, p),
{
    lemma_marker();
}

proof fn lemma_meta_is_session_line(line: Seq<u8>)
    requires
        meta_with_payload(decode_utf8(line_content(line))) is Some,
    ensures
        ({
            let record = meta_with_payload(decode_utf8(line_content(line)))->0;
            &&& record is Object
            &&& payload_of(record)->0 is Object
            &&& is_session_line(
                line,
                record->Object_0,
                payload_of(record)->0->Object_0,
            )
        }),
{
    lemma_marker();
}

proof fn lemma_one_payload(
    line: Seq<u8>,
    a: Map<Seq<char>, JsonView>,
    b: Map<Seq<char>, JsonView>,
)
    requires
        tells_session(line, a),
        tells_session(line, b),
    ensures
        a == b,
{
    let x = choose|record: Map<Seq<char>, JsonView>| is_session_line(line, record, a);
    let y = choose|record: Map<Seq<char>, JsonView>| is_session_line(line, record, b);
    lemma_session_line(line, x, a);
    lemma_session_line(line, y, b);
}

/// A record is rewritten where it names another provider than the target, or none; where
/// one provider only is to be replaced, where it names that provider, or none. The record
/// that takes its place holds the target as its provider and is the same in everything
/// else, in a line with the same line ending. A record that is not rewritten keeps its line
/// byte for byte.
pub proof fn lemma_record_gets_the_target(
    line: Seq<u8>,
    record: Map<Seq<char>, JsonView>,
    payload: Map<Seq<char>, JsonView>,
    target: Seq<char>,
    from: Seq<char>,
)
    requires
        is_session_line(line, record, payload),
    ensures
        ({
            let next = record.insert(
                "payload"@,
                JsonView::Object(payload.insert("model_provider"@, JsonView::Text(target))),
            );
            let rewritten = encode_utf8(json::compact_json(JsonView::Object(next)))
                + line_ending(line);
            let all = staged_line(line, target, ModeView::AllProviders);
            let some = staged_line(line, target, ModeView::SourceProvider(from));
            &&& names_provider(payload, target) ==> all == line
            &&& !names_provider(payload, target) ==> all == rewritten
            &&& names_none(payload) || names_provider(payload, from) ==> some == rewritten
            &&& !names_none(payload) && !names_provider(payload, from) ==> some == line
        }),
{
    lemma_session_line(line, record, payload);
}

/// A line that tells of no session is never rewritten, and nothing is kept of it. Of a line
/// that does, the whole text is kept.
pub proof fn lemma_only_records_are_touched(line: Seq<u8>, target: Seq<char>, mode: ModeView)
    ensures
        (forall|payload: Map<Seq<char>, JsonView>| !#[trigger] tells_session(line, payload)) ==> {
            &&& staged_line(line, target, mode) == line
            &&& kept_line(line) == Seq::<u8>::empty()
        },
        forall|payload: Map<Seq<char>, JsonView>| #[trigger]
            tells_session(line, payload) ==> kept_line(line) == encode_utf8(
                json::compact_json(JsonView::Text(decode_utf8(line_content(line)))),
            ).push(10u8),
{
    if meta_with_payload(decode_utf8(line_content(line))) is Some {
        lemma_meta_is_session_line(line);
        let record = meta_with_payload(decode_utf8(line_content(line)))->0;
        assert(tells_session(line, payload_of(record)->0->Object_0));
    }
    assert forall|payload: Map<Seq<char>, JsonView>| #[trigger]
        tells_session(line, payload) implies kept_line(line) == encode_utf8(
        json::compact_json(JsonView::Text(decode_utf8(line_content(line)))),
    ).push(10u8) by {
        let record = choose|record: Map<Seq<char>, JsonView>|
            is_session_line(line, record, payload);
        lemma_session_line(line, record, payload);
    }
}

proof fn lemma_staged_line_names_target(
    line: Seq<u8>,
    target: Seq<char>,
    mode: ModeView,
    payload: Map<Seq<char>, JsonView>,
)
    requires
        valid_utf8(line_content(line)),
        text::is_line(line, 10u8),
        line_restorable(line, target, mode),
        tells_session(staged_line(line, target, mode), payload),
    ensures
        mode is AllProviders ==> names_provider(payload, target),
        mode matches ModeView::SourceProvider(from) ==> !names_none(payload) && (names_provider(
            payload,
            from,
        ) ==> from == target),
{
    let next = staged_line(line, target, mode);
    let r = choose|record: Map<Seq<char>, JsonView>| is_session_line(next, record, payload);
    lemma_session_line(next, r, payload);
    lemma_line_restored(line, target, mode);
    let t = decode_utf8(line_content(line));
    if let Some(record) = rewritten_record(t, target, mode) {
        let bytes = encode_utf8(json::compact_json(record));
        assert(line_content(next) =~= bytes) by {
            assert(bytes[bytes.len() - 1] >= 0x20);
            if line_ending(line).len() == 0 {
                assert(next =~= bytes);
            }
        }
        vstd::utf8::encode_utf8_decode_utf8(json::compact_json(record));
        let before = meta_with_payload(t)->0;
        lemma_with_provider(before, target);
        assert(reads_back(record));
        assert(same_record(record, JsonView::Object(r)));
        assert(json::text_field(payload_of(record)->0, "model_provider"@) == json::text_field(
            payload_of(JsonView::Object(r))->0,
            "model_provider"@,
        ));
        assert(names_provider(payload, target));
    } else {
        assert(next == line);
    }
}

/// After all sessions of a file were rewritten, every `session_meta` record of it that can
/// be read names the target provider. After one provider was replaced, none of them names
/// that provider any more, and each of them names one.
pub proof fn lemma_every_record_names_the_target(
    content: Seq<u8>,
    target: Seq<char>,
    mode: ModeView,
    i: int,
    payload: Map<Seq<char>, JsonView>,
)
    requires
        all_utf8(text::lines_of(content, 10u8)),
        all_restorable(text::lines_of(content, 10u8), target, mode),
        session_at(
            text::lines_of(
                text::joined(staged_lines(text::lines_of(content, 10u8), target, mode)),
                10u8,
            ),
            i,
            payload,
        ),
    ensures
        mode is AllProviders ==> payload.contains_key("model_provider"@)
            && payload["model_provider"@] == JsonView::Text(target),
        mode matches ModeView::SourceProvider(from) ==> (payload.contains_key("model_provider"@)
            && (payload["model_provider"@] matches JsonView::Text(p) && (p == from ==> from
            == target))),
{
    let lines = text::lines_of(content, 10u8);
    text::lemma_lines_join(content, 10u8);
    lemma_kept_list(lines, target, mode);
    text::lemma_lines_split(staged_lines(lines, target, mode), 10u8);
    let line = lines[i];
    assert(staged_lines(lines, target, mode)[i] == staged_line(line, target, mode));
    assert(text::is_line(line, 10u8));
    assert(valid_utf8(line_content(line)));
    assert(line_restorable(line, target, mode));
    lemma_staged_line_names_target(line, target, mode, payload);
    if let ModeView::SourceProvider(from) = mode {
        if payload["model_provider"@] == JsonView::Text(from) {
            assert(names_provider(payload, from));
        }
    }
}

/// A file that is staged keeps its lines: as many of them, in the same order, each in its
/// place as it stands or with the target provider in its record.
pub proof fn lemma_staging_keeps_the_lines(content: Seq<u8>, target: Seq<char>, mode: ModeView)
    requires
        all_utf8(text::lines_of(content, 10u8)),
        all_restorable(text::lines_of(content, 10u8), target, mode),
    ensures
        ({
            let lines = text::lines_of(content, 10u8);
            let next = text::lines_of(text::joined(staged_lines(lines, target, mode)), 10u8);
            &&& next.len() == lines.len()
            &&& forall|i: int|
                0 <= i < lines.len() ==> #[trigger] next[i] == staged_line(lines[i], target, mode)
            &&& forall|i: int|
                0 <= i < lines.len() ==> line_ending(#[trigger] next[i]) == line_ending(lines[i])
        }),
{
    let lines = text::lines_of(content, 10u8);
    text::lemma_lines_join(content, 10u8);
    lemma_kept_list(lines, target, mode);
    text::lemma_lines_split(staged_lines(lines, target, mode), 10u8);
    let next = staged_lines(lines, target, mode);
    assert forall|i: int| 0 <= i < lines.len() implies line_ending(#[trigger] next[i])
        == line_ending(lines[i]) by {
        let line = lines[i];
        assert(valid_utf8(line_content(line)) && line_restorable(line, target, mode));
        if let Some(record) = rewritten_record(decode_utf8(line_content(line)), target, mode) {
            let bytes = encode_utf8(json::compact_json(record));
            let end = line_ending(line);
            assert(next[i] == bytes + end);
            assert(content_length(next[i]) == bytes.len()) by {
                assert(bytes[bytes.len() - 1] >= 0x20);
                if end.len() == 0 {
                    assert(next[i] =~= bytes);
                }
            }
            assert(line_ending(next[i]) =~= end);
        }
    }
}

/// The text under a key of a payload.
pub open spec fn payload_text(payload: Map<Seq<char>, JsonView>, key: Seq<char>) -> Option<
    Seq<char>,
> {
    if payload.contains_key(key) {
        match payload[key] {
            JsonView::Text(s) => Some(s),
            _ => None,
        }
    } else {
        None
    }
}

proof fn lemma_scan_step(lines: Seq<Seq<u8>>, target: Seq<char>, mode: ModeView)
    requires
        lines.len() > 0,
        scan_lines(lines, target, mode) is Some,
    ensures
        scan_lines(lines.drop_last(), target, mode) is Some,
        ({
            let u = scan_lines(lines.drop_last(), target, mode)->0;
            let v = scan_lines(lines, target, mode)->0;
            &&& v.content == u.content + lines.last()
            &&& v.has_user_event == (u.has_user_event || text::holds(
                lines.last(),
                encode_utf8("\"user_message\""@),
            ) || text::holds(lines.last(), encode_utf8("\"user_input\""@)))
            &&& v.has_encrypted_content == (u.has_encrypted_content || text::holds(
                lines.last(),
                encode_utf8("encrypted_content"@),
            ))
            &&& forall|p: Map<Seq<char>, JsonView>| #[trigger]
                tells_session(lines.last(), p) ==> {
                    &&& v.session_meta_count == if u.session_meta_count < usize::MAX {
                        u.session_meta_count + 1
                    } else {
                        u.session_meta_count as int
                    }
                    &&& v.thread_id == if u.thread_id is None {
                        payload_text(p, "id"@)
                    } else {
                        u.thread_id
                    }
                    &&& v.cwd == if u.cwd is None {
                        match payload_text(p, "cwd"@) {
                            Some(s) => workspace::desktop_path(s),
                            None => None,
                        }
                    } else {
                        u.cwd
                    }
                    &&& v.providers == text::with_text(
                        u.providers,
                        match payload_text(p, "model_provider"@) {
                            Some(s) => s,
                            None => "(missing)"@,
                        },
                    )
                    &&& v.rewrite_needed == (u.rewrite_needed || (match mode {
                        ModeView::AllProviders => payload_text(p, "model_provider"@) != Some(
                            target,
                        ),
                        ModeView::SourceProvider(from) => payload_text(p, "model_provider"@) is None
                            || payload_text(p, "model_provider"@) == Some(from),
                    }))
                    &&& v.marks_non_root_agent == (u.marks_non_root_agent || (p.contains_key(
                        "source"@,
                    ) && source::value_marks_non_root(p["source"@])))
                }
            &&& (forall|p: Map<Seq<char>, JsonView>| !#[trigger] tells_session(lines.last(), p))
                ==> {
                &&& v.session_meta_count == u.session_meta_count
                &&& v.thread_id == u.thread_id
                &&& v.cwd == u.cwd
                &&& v.providers == u.providers
                &&& v.rewrite_needed == u.rewrite_needed
                &&& v.marks_non_root_agent == u.marks_non_root_agent
            }
        }),
{
    let last = lines.last();
    let t = decode_utf8(line_content(last));
    assert forall|p: Map<Seq<char>, JsonView>| #[trigger] tells_session(last, p) implies
        meta_record(t) is Some && payload_of(meta_record(t)->0) == Some(JsonView::Object(p))
        && json::field(meta_record(t)->0, "payload"@) == Some(JsonView::Object(p)) by {
        let record = choose|record: Map<Seq<char>, JsonView>| is_session_line(last, record, p);
        lemma_session_line(last, record, p);
    }
    if meta_with_payload(t) is Some {
        lemma_meta_is_session_line(last);
        let record = meta_with_payload(t)->0;
        assert(tells_session(last, payload_of(record)->0->Object_0));
    } else if meta_record(t) is Some {
        assert(!record_marks_non_root(meta_record(t)->0));
    }
}

proof fn lemma_session_at_init(lines: Seq<Seq<u8>>, i: int, p: Map<Seq<char>, JsonView>)
    requires
        lines.len() > 0,
    ensures
        i != lines.len() - 1 ==> session_at(lines, i, p) == session_at(lines.drop_last(), i, p),
        i == lines.len() - 1 ==> session_at(lines, i, p) == tells_session(lines.last(), p),
{
    if 0 <= i < lines.len() - 1 {
        assert(lines.drop_last()[i] == lines[i]);
    }
}

/// Whether a record with this payload is to be rewritten, by the mode.
pub open spec fn is_to_be_rewritten(
    payload: Map<Seq<char>, JsonView>,
    target: Seq<char>,
    mode: ModeView,
) -> bool {
    match mode {
        ModeView::AllProviders => !names_provider(payload, target),
        ModeView::SourceProvider(from) => names_none(payload) || names_provider(payload, from),
    }
}

/// A scan asks for a rewrite where a record names another provider than it should, or
/// none, and only there. It lists the providers that records name, each once, and those
/// that none of them names it does not list; `(missing)` stands for a record without one.
pub proof fn lemma_scan_finds_the_providers(
    lines: Seq<Seq<u8>>,
    target: Seq<char>,
    mode: ModeView,
)
    requires
        scan_lines(lines, target, mode) is Some,
    ensures
        ({
            let v = scan_lines(lines, target, mode)->0;
            &&& v.rewrite_needed <==> exists|i: int, p: Map<Seq<char>, JsonView>| #[trigger]
                session_at(lines, i, p) && is_to_be_rewritten(p, target, mode)
            &&& forall|q: Seq<char>| #[trigger]
                v.providers.contains(q) <==> exists|i: int, p: Map<Seq<char>, JsonView>|
                    #[trigger] session_at(lines, i, p) && (names_provider(p, q) || (names_none(p)
                        && q == "(missing)"@))
            &&& v.providers.no_duplicates()
            &&& v.content == text::joined(lines)
        }),
    decreases lines.len(),
{
    let v = scan_lines(lines, target, mode)->0;
    if lines.len() == 0 {
        assert(text::joined(lines) =~= Seq::<u8>::empty());
    } else {
        let init = lines.drop_last();
        let n = lines.len() - 1;
        lemma_scan_step(lines, target, mode);
        lemma_scan_finds_the_providers(init, target, mode);
        let u = scan_lines(init, target, mode)->0;
        assert forall|i: int, p: Map<Seq<char>, JsonView>| #[trigger] session_at(
            lines,
            i,
            p,
        ) implies (i == n && tells_session(lines.last(), p)) || (i < n && session_at(
            init,
            i,
            p,
        )) by {
            lemma_session_at_init(lines, i, p);
        }
        assert forall|i: int, p: Map<Seq<char>, JsonView>| #[trigger] session_at(
            init,
            i,
            p,
        ) implies session_at(lines, i, p) by {
            lemma_session_at_init(lines, i, p);
        }
        if exists|p: Map<Seq<char>, JsonView>| tells_session(lines.last(), p) {
            let p = choose|p: Map<Seq<char>, JsonView>| tells_session(lines.last(), p);
            lemma_session_at_init(lines, n, p);
            assert(session_at(lines, n, p));
            assert forall|o: Map<Seq<char>, JsonView>| #[trigger]
                tells_session(lines.last(), o) implies o == p by {
                lemma_one_payload(lines.last(), o, p);
            }
            let name = match payload_text(p, "model_provider"@) {
                Some(s) => s,
                None => "(missing)"@,
            };
            assert(v.providers == text::with_text(u.providers, name));
            assert forall|q: Seq<char>| #[trigger]
                v.providers.contains(q) <==> exists|i: int, o: Map<Seq<char>, JsonView>| #[trigger]
                    session_at(lines, i, o) && (names_provider(o, q) || (names_none(o) && q
                        == "(missing)"@)) by {
                text::lemma_push_contains(u.providers, name, q);
                assert(u.providers.contains(q) <==> exists|
                    i: int,
                    o: Map<Seq<char>, JsonView>,
                | #[trigger]
                    session_at(init, i, o) && (names_provider(o, q) || (names_none(o) && q
                        == "(missing)"@)));
            }
        } else {
            assert forall|q: Seq<char>| #[trigger]
                v.providers.contains(q) <==> exists|i: int, o: Map<Seq<char>, JsonView>| #[trigger]
                    session_at(lines, i, o) && (names_provider(o, q) || (names_none(o) && q
                        == "(missing)"@)) by {
                assert(u.providers.contains(q) <==> exists|
                    i: int,
                    o: Map<Seq<char>, JsonView>,
                | #[trigger]
                    session_at(init, i, o) && (names_provider(o, q) || (names_none(o) && q
                        == "(missing)"@)));
            }
        }
    }
}

/// A scan that asks for no rewrite of all sessions has found no provider but the target.
pub proof fn lemma_settled_scan_finds_the_target_only(lines: Seq<Seq<u8>>, target: Seq<char>)
    requires
        scan_lines(lines, target, ModeView::AllProviders) matches Some(v) && !v.rewrite_needed,
    ensures
        ({
            let v = scan_lines(lines, target, ModeView::AllProviders)->0;
            v.providers == Seq::<Seq<char>>::empty() || v.providers == seq![target]
        }),
{
    let v = scan_lines(lines, target, ModeView::AllProviders)->0;
    lemma_scan_finds_the_providers(lines, target, ModeView::AllProviders);
    assert forall|k: int| 0 <= k < v.providers.len() implies #[trigger] v.providers[k] == target by {
        let q = v.providers[k];
        assert(v.providers.contains(q));
        let (i, p) = choose|i: int, p: Map<Seq<char>, JsonView>| #[trigger]
            session_at(lines, i, p) && (names_provider(p, q) || (names_none(p) && q
                == "(missing)"@));
        assert(!is_to_be_rewritten(p, target, ModeView::AllProviders));
    }
    if v.providers.len() > 1 {
        assert(v.providers[0] == v.providers[1]);
    }
    if v.providers.len() == 1 {
        assert(v.providers =~= seq![target]);
    } else {
        assert(v.providers =~= Seq::<Seq<char>>::empty());
    }
}

/// The thread and the working directory that a scan reports are those of the first record
/// that has one: the id as it stands, the directory in desktop form, where it is not blank.
pub proof fn lemma_scan_finds_thread_and_directory(
    lines: Seq<Seq<u8>>,
    target: Seq<char>,
    mode: ModeView,
)
    requires
        scan_lines(lines, target, mode) is Some,
    ensures
        ({
            let v = scan_lines(lines, target, mode)->0;
            &&& v.thread_id matches Some(id) ==> exists|i: int, p: Map<Seq<char>, JsonView>|
                #[trigger] session_at(lines, i, p) && payload_text(p, "id"@) == Some(id) && forall|
                    k: int,
                    o: Map<Seq<char>, JsonView>,
                | #[trigger]
                    session_at(lines, k, o) && k < i ==> payload_text(o, "id"@) is None
            &&& v.thread_id is None ==> forall|k: int, o: Map<Seq<char>, JsonView>| #[trigger]
                session_at(lines, k, o) ==> payload_text(o, "id"@) is None
            &&& v.cwd matches Some(c) ==> exists|i: int, p: Map<Seq<char>, JsonView>| #[trigger]
                session_at(lines, i, p) && (payload_text(p, "cwd"@) matches Some(s)
                    && workspace::desktop_path(s) == Some(c)) && forall|
                    k: int,
                    o: Map<Seq<char>, JsonView>,
                | #[trigger]
                    session_at(lines, k, o) && k < i ==> (payload_text(o, "cwd"@) matches Some(s)
                        ==> text::all_white(s))
            &&& v.cwd is None ==> forall|k: int, o: Map<Seq<char>, JsonView>| #[trigger]
                session_at(lines, k, o) ==> (payload_text(o, "cwd"@) matches Some(s)
                    ==> text::all_white(s))
        }),
    decreases lines.len(),
{
    let v = scan_lines(lines, target, mode)->0;
    if lines.len() > 0 {
        let init = lines.drop_last();
        let n = lines.len() - 1;
        lemma_scan_step(lines, target, mode);
        lemma_scan_finds_thread_and_directory(init, target, mode);
        let u = scan_lines(init, target, mode)->0;
        assert forall|s: Seq<char>| #[trigger] workspace::desktop_path(s) is None
            == text::all_white(s) by {
            workspace::lemma_only_blank_paths_have_no_form(s);
        }
        assert forall|i: int, p: Map<Seq<char>, JsonView>| #[trigger] session_at(
            lines,
            i,
            p,
        ) implies (i == n && tells_session(lines.last(), p)) || (i < n && session_at(
            init,
            i,
            p,
        )) by {
            lemma_session_at_init(lines, i, p);
        }
        assert forall|i: int, p: Map<Seq<char>, JsonView>| #[trigger] session_at(
            init,
            i,
            p,
        ) implies i < n && session_at(lines, i, p) by {
            lemma_session_at_init(lines, i, p);
        }
        if exists|p: Map<Seq<char>, JsonView>| tells_session(lines.last(), p) {
            let p = choose|p: Map<Seq<char>, JsonView>| tells_session(lines.last(), p);
            lemma_session_at_init(lines, n, p);
            assert(session_at(lines, n, p));
            assert forall|o: Map<Seq<char>, JsonView>| #[trigger]
                tells_session(lines.last(), o) implies o == p by {
                lemma_one_payload(lines.last(), o, p);
            }
        }
        if u.thread_id is Some {
            let id = u.thread_id->0;
            let (i, p) = choose|i: int, p: Map<Seq<char>, JsonView>| #[trigger]
                session_at(init, i, p) && payload_text(p, "id"@) == Some(id) && forall|
                    k: int,
                    o: Map<Seq<char>, JsonView>,
                | #[trigger]
                    session_at(init, k, o) && k < i ==> payload_text(o, "id"@) is None;
            assert(session_at(lines, i, p));
            assert(v.thread_id == Some(id));
        }
        if u.cwd is Some {
            let c = u.cwd->0;
            let (i, p) = choose|i: int, p: Map<Seq<char>, JsonView>| #[trigger]
                session_at(init, i, p) && (payload_text(p, "cwd"@) matches Some(s)
                    && workspace::desktop_path(s) == Some(c)) && forall|
                    k: int,
                    o: Map<Seq<char>, JsonView>,
                | #[trigger]
                    session_at(init, k, o) && k < i ==> (payload_text(o, "cwd"@) matches Some(s)
                        ==> text::all_white(s));
            assert(session_at(lines, i, p));
            assert(v.cwd == Some(c));
        }
    }
}

/// A scan finds that the user spoke, that there is encrypted content and that the thread is
/// no root thread where a line says so, and only there.
pub proof fn lemma_scan_finds_the_marks(lines: Seq<Seq<u8>>, target: Seq<char>, mode: ModeView)
    requires
        scan_lines(lines, target, mode) is Some,
    ensures
        ({
            let v = scan_lines(lines, target, mode)->0;
            &&& v.has_user_event <==> exists|i: int|
                0 <= i < lines.len() && (text::holds(
                    #[trigger] lines[i],
                    encode_utf8("\"user_message\""@),
                ) || text::holds(lines[i], encode_utf8("\"user_input\""@)))
            &&& v.has_encrypted_content <==> exists|i: int|
                0 <= i < lines.len() && text::holds(
                    #[trigger] lines[i],
                    encode_utf8("encrypted_content"@),
                )
            &&& v.marks_non_root_agent <==> exists|i: int, p: Map<Seq<char>, JsonView>| #[trigger]
                session_at(lines, i, p) && p.contains_key("source"@)
                    && source::value_marks_non_root(p["source"@])
            &&& v.session_meta_count == 0 <==> forall|i: int, p: Map<Seq<char>, JsonView>|
                !#[trigger] session_at(lines, i, p)
        }),
    decreases lines.len(),
{
    let v = scan_lines(lines, target, mode)->0;
    if lines.len() > 0 {
        let init = lines.drop_last();
        let n = lines.len() - 1;
        lemma_scan_step(lines, target, mode);
        lemma_scan_finds_the_marks(init, target, mode);
        let u = scan_lines(init, target, mode)->0;
        assert(lines[n] == lines.last());
        assert forall|i: int| 0 <= i < n implies #[trigger] init[i] == lines[i] by {}
        assert forall|i: int, p: Map<Seq<char>, JsonView>| #[trigger] session_at(
            lines,
            i,
            p,
        ) implies (i == n && tells_session(lines.last(), p)) || (i < n && session_at(
            init,
            i,
            p,
        )) by {
            lemma_session_at_init(lines, i, p);
        }
        assert forall|i: int, p: Map<Seq<char>, JsonView>| #[trigger] session_at(
            init,
            i,
            p,
        ) implies session_at(lines, i, p) by {
            lemma_session_at_init(lines, i, p);
        }
        if exists|p: Map<Seq<char>, JsonView>| tells_session(lines.last(), p) {
            let p = choose|p: Map<Seq<char>, JsonView>| tells_session(lines.last(), p);
            lemma_session_at_init(lines, n, p);
            assert(session_at(lines, n, p));
            assert forall|o: Map<Seq<char>, JsonView>| #[trigger]
                tells_session(lines.last(), o) implies o == p by {
                lemma_one_payload(lines.last(), o, p);
            }
        }
        if u.has_user_event {
            let i = choose|i: int|
                0 <= i < init.len() && (text::holds(
                    #[trigger] init[i],
                    encode_utf8("\"user_message\""@),
                ) || text::holds(init[i], encode_utf8("\"user_input\""@)));
            assert(lines[i] == init[i]);
        }
        if u.has_encrypted_content {
            let i = choose|i: int|
                0 <= i < init.len() && text::holds(
                    #[trigger] init[i],
                    encode_utf8("encrypted_content"@),
                );
            assert(lines[i] == init[i]);
        }
        if !v.has_user_event {
            assert forall|i: int| 0 <= i < n implies !text::holds(
                #[trigger] lines[i],
                encode_utf8("\"user_message\""@),
            ) && !text::holds(lines[i], encode_utf8("\"user_input\""@)) by {
                assert(init[i] == lines[i]);
            }
        }
        if !v.has_encrypted_content {
            assert forall|i: int| 0 <= i < n implies !text::holds(
                #[trigger] lines[i],
                encode_utf8("encrypted_content"@),
            ) by {
                assert(init[i] == lines[i]);
            }
        }
    }
}

/// Each record counts once, and no other line does, as far as a `usize` counts. A file is
/// scanned where all its lines are UTF-8, and only there.
pub proof fn lemma_scan_counts_the_records(
    lines: Seq<Seq<u8>>,
    line: Seq<u8>,
    target: Seq<char>,
    mode: ModeView,
)
    ensures
        scan_lines(lines, target, mode) is Some <==> all_utf8(lines),
        scan_lines(lines.push(line), target, mode) is Some ==> {
            let before = scan_lines(lines, target, mode)->0.session_meta_count;
            let after = scan_lines(lines.push(line), target, mode)->0.session_meta_count;
            &&& (exists|p: Map<Seq<char>, JsonView>| tells_session(line, p)) && before < usize::MAX
                ==> after == before + 1
            &&& (forall|p: Map<Seq<char>, JsonView>| !tells_session(line, p)) ==> after == before
        },
    decreases lines.len(),
{
    let more = lines.push(line);
    assert(more.drop_last() =~= lines);
    if scan_lines(more, target, mode) is Some {
        lemma_scan_step(more, target, mode);
    }
    if scan_lines(lines, target, mode) is Some {
        lemma_scanned_lines_are_utf8(lines, target, mode);
    }
    if all_utf8(lines) && lines.len() > 0 {
        let init = lines.drop_last();
        assert forall|i: int| 0 <= i < init.len() implies valid_utf8(
            line_content(#[trigger] init[i]),
        ) by {
            assert(init[i] == lines[i]);
        }
        lemma_scan_counts_the_records(init, line, target, mode);
        assert(valid_utf8(line_content(lines[lines.len() - 1])));
    }
}

/// Whether a kept line holds this text.
pub open spec fn keeps_text(kept: Seq<u8>, t: Seq<char>) -> bool {
    let bytes = if kept.len() > 0 && kept.last() == 10 {
        kept.drop_last()
    } else {
        kept
    };
    valid_utf8(bytes) && json::parsed_json(decode_utf8(bytes)) == Some(JsonView::Text(t))
}

/// How a line is restored: one that tells of no session stays as it is; one that does gets
/// the text of its kept line, with its own line ending. A line that is not UTF-8, a kept
/// line that is missing and one that holds no text are refused, each for its own reason.
pub proof fn lemma_how_a_line_is_restored(line: Seq<u8>, kept: Option<Seq<u8>>, t: Seq<char>)
    ensures
        ({
            let r = restored_line(line, kept);
            let session = exists|p: Map<Seq<char>, JsonView>| tells_session(line, p);
            &&& !valid_utf8(line_content(line)) ==> r == Err::<Seq<u8>, RestoreError>(
                RestoreError::NotUtf8,
            )
            &&& valid_utf8(line_content(line)) && !session ==> r == Ok::<Seq<u8>, RestoreError>(
                line,
            ) && kept_lines_used(line) == 0
            &&& valid_utf8(line_content(line)) && session ==> {
                &&& kept_lines_used(line) == 1
                &&& kept is None ==> r == Err::<Seq<u8>, RestoreError>(
                    RestoreError::MetadataIncomplete,
                )
                &&& kept matches Some(k) ==> keeps_text(k, t) ==> r == Ok::<
                    Seq<u8>,
                    RestoreError,
                >(encode_utf8(t) + line_ending(line))
                &&& kept matches Some(k) ==> (forall|s: Seq<char>| !#[trigger] keeps_text(k, s))
                    ==> r == Err::<Seq<u8>, RestoreError>(RestoreError::MetadataInvalid)
            }
        }),
{
    let c = decode_utf8(line_content(line));
    if meta_with_payload(c) is Some {
        lemma_meta_is_session_line(line);
        let record = meta_with_payload(c)->0;
        assert(tells_session(line, payload_of(record)->0->Object_0));
    }
    if exists|p: Map<Seq<char>, JsonView>| tells_session(line, p) {
        let p = choose|p: Map<Seq<char>, JsonView>| tells_session(line, p);
        let record = choose|record: Map<Seq<char>, JsonView>| is_session_line(line, record, p);
        lemma_session_line(line, record, p);
    }
    if let Some(k) = kept {
        if let Some(s) = kept_text(k) {
            assert(keeps_text(k, s));
        }
    }
}

/// Kept lines are taken one after the other. All of them have to be used up, and they have
/// to be those that were written; otherwise nothing is restored.
pub proof fn lemma_when_a_file_is_restored(
    lines: Seq<Seq<u8>>,
    line: Seq<u8>,
    kept: Seq<Seq<u8>>,
    kept_sha256: Seq<char>,
)
    ensures
        restore_lines(Seq::empty(), kept) matches Ok(v) && v.content.len() == 0 && v.used == 0,
        ({
            let before = restore_lines(lines, kept);
            let after = restore_lines(lines.push(line), kept);
            &&& before matches Err(e) ==> after == Err::<RestoreView, RestoreError>(e)
            &&& before matches Ok(v) ==> {
                let next = restored_line(
                    line,
                    if v.used < kept.len() {
                        Some(kept[v.used as int])
                    } else {
                        None
                    },
                );
                &&& next matches Err(e) ==> after == Err::<RestoreView, RestoreError>(e)
                &&& next matches Ok(l) ==> (after matches Ok(w) && w.content == v.content + l
                    && w.used == v.used + kept_lines_used(line))
            }
        }),
        ({
            let r = restored_content(lines, kept, kept_sha256);
            match restore_lines(lines, kept) {
                Err(e) => r == Err::<Seq<u8>, RestoreError>(e),
                Ok(v) => {
                    let written = digest::sha256_hex(text::joined(kept)) == kept_sha256;
                    &&& v.used < kept.len() ==> r == Err::<Seq<u8>, RestoreError>(
                        RestoreError::MetadataCountMismatch,
                    )
                    &&& v.used >= kept.len() && !written ==> r == Err::<Seq<u8>, RestoreError>(
                        RestoreError::MetadataHashMismatch,
                    )
                    &&& v.used >= kept.len() && written ==> r == Ok::<Seq<u8>, RestoreError>(
                        v.content,
                    )
                },
            }
        }),
{
    assert(lines.push(line).drop_last() =~= lines);
}

/// What a scan reports stands in the fields that have its name; so does what is known of
/// it as a value.
pub proof fn lemma_report_of_a_scan(r: RolloutRewrite, v: ScanView)
    ensures
        r.reports(v) <==> {
            &&& r.rewrite_needed == v.rewrite_needed
            &&& text::text_of(r.thread_id) == v.thread_id
            &&& text::text_of(r.cwd) == v.cwd
            &&& text::texts(r.providers@) == v.providers
            &&& r.session_meta_count == v.session_meta_count
            &&& r.has_user_event == v.has_user_event
            &&& r.has_encrypted_content == v.has_encrypted_content
            &&& r.marks_non_root_agent == v.marks_non_root_agent
            &&& r.original_sha256@ == digest::sha256_hex(v.content)
            &&& r.original_size == digest::capped_size(v.content)
        },
        r@.rewrite_needed == r.rewrite_needed,
        r@.thread_id == text::text_of(r.thread_id),
        r@.cwd == text::text_of(r.cwd),
        r@.providers == text::texts(r.providers@),
        r@.session_meta_count == r.session_meta_count,
        r@.has_user_event == r.has_user_event,
        r@.has_encrypted_content == r.has_encrypted_content,
        r@.marks_non_root_agent == r.marks_non_root_agent,
        r@.sha256 == r.original_sha256@,
        r@.size == r.original_size,
{
}

/// What staging reports: the digests and sizes of what was read and written, and the digest
/// of what was kept.
pub proof fn lemma_report_of_a_staging(r: StagedSessionFile, v: StageView)
    requires
        r.reports(v),
    ensures
        r.original_sha256@ == digest::sha256_hex(v.original),
        r.original_size == digest::capped_size(v.original),
        r.next_sha256@ == digest::sha256_hex(v.next),
        r.next_size == digest::capped_size(v.next),
        r.session_meta_backup_sha256@ == digest::sha256_hex(v.kept),
{
}

/// What a rewriting mode is.
pub proof fn lemma_modes(mode: SessionRewriteMode)
    ensures
        mode is AllProviders ==> mode@ is AllProviders,
        mode matches SessionRewriteMode::SourceProvider { source_provider } ==> mode@
            == ModeView::SourceProvider(source_provider@),
{
}

} // verus!
