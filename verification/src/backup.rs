//! Backups: how they are named and described, how one is checked before it is
//! restored, what restoring it does, and which ones are kept.

use crate::digest;
use crate::json;
use crate::json::{Json, JsonView};
use crate::names;
use crate::text;
use crate::transaction;
use vstd::prelude::*;

verus! {

pub const BACKUP_KEEP_COUNT: usize = 5;

/// What marks a backup as one of this library's.
pub const BACKUP_OWNER: &'static str = "Codex++ provider sync";

pub const GLOBAL_STATE_FILE: &'static str = ".codex-global-state.json";

pub const GLOBAL_STATE_BACKUP_FILE: &'static str = ".codex-global-state.json.bak";

// ---------------------------------------------------------------------------
// Names and descriptions
// ---------------------------------------------------------------------------
/// The name of the directory of a backup: the time, and a number where directories of
/// that time are there already.
pub fn backup_dir_name(timestamp: &str, suffix: u64) -> (r: String)
    ensures
        r@ == if suffix == 0 {
            timestamp@
        } else {
            timestamp@ + "-"@ + text::decimal(suffix as nat)
        },
{
    if suffix == 0 {
        return text::copy_text(timestamp);
    }
    let mut out = text::join_text(timestamp, "-");
    text::append_text(&mut out, text::decimal_text(suffix).as_str());
    out
}

/// What is known of a file in a backup.
#[derive(Debug)]
pub struct BackupFile {
    pub name: String,
    pub size: u64,
    pub sha256: String,
}

/// The record of the files of a backup.
pub open spec fn recorded_files(files: Seq<BackupFile>) -> Map<Seq<char>, JsonView>
    decreases files.len(),
{
    if files.len() == 0 {
        Map::empty()
    } else {
        recorded_files(files.drop_last()).insert(
            files.last().name@,
            JsonView::Object(
                Map::empty().insert("size"@, JsonView::Unsigned(files.last().size)).insert(
                    "sha256"@,
                    JsonView::Text(files.last().sha256@),
                ),
            ),
        )
    }
}

fn record_files(files: &Vec<BackupFile>) -> (r: Json)
    ensures
        r@ == JsonView::Object(recorded_files(files@)),
{
    let mut fields: Vec<(String, Json)> = Vec::new();
    let mut i: usize = 0;
    while i < files.len()
        invariant
            i <= files.len(),
            json::fields_view(fields@) == recorded_files(files@.take(i as int)),
        decreases files.len() - i,
    {
        assert(files@.take(i + 1).drop_last() =~= files@.take(i as int));
        let mut entry: Vec<(String, Json)> = Vec::new();
        json::set_entry(&mut entry, "size", Json::Unsigned(files[i].size));
        json::set_entry(
            &mut entry,
            "sha256",
            Json::Text(text::copy_text(files[i].sha256.as_str())),
        );
        json::set_entry(&mut fields, files[i].name.as_str(), Json::Object(entry));
        i += 1;
    }
    assert(files@.take(i as int) =~= files@);
    Json::Object(fields)
}

pub open spec fn text_items(v: Seq<Seq<char>>) -> Seq<JsonView> {
    v.map_values(|s: Seq<char>| JsonView::Text(s))
}

fn text_list(v: &Vec<String>) -> (r: Json)
    ensures
        r@ == JsonView::Array(text_items(text::texts(v@))),
{
    let mut items: Vec<Json> = Vec::new();
    let mut i: usize = 0;
    while i < v.len()
        invariant
            i <= v.len(),
            items@.len() == i,
            forall|k: int| 0 <= k < i ==> (#[trigger] items@[k])@ == JsonView::Text(v@[k]@),
        decreases v.len() - i,
    {
        items.push(Json::Text(text::copy_text(v[i].as_str())));
        i += 1;
    }
    proof {
        json::lemma_items_view(items@);
        assert(json::items_view(items@) =~= text_items(text::texts(v@)));
    }
    Json::Array(items)
}

/// What a backup is described by.
#[derive(Debug)]
pub struct BackupDescription {
    pub codex_home: String,
    pub target_provider: String,
    pub created_at: String,
    pub db_files: Vec<String>,
    pub global_state_files: Vec<String>,
    pub backup_files: Vec<BackupFile>,
    pub changed_session_files: u64,
}

pub open spec fn described(d: BackupDescription) -> JsonView {
    JsonView::Object(
        Map::empty().insert("version"@, JsonView::Unsigned(1)).insert(
            "namespace"@,
            JsonView::Text("provider-sync"@),
        ).insert("codexHome"@, JsonView::Text(d.codex_home@)).insert(
            "targetProvider"@,
            JsonView::Text(d.target_provider@),
        ).insert("createdAt"@, JsonView::Text(d.created_at@)).insert(
            "dbFiles"@,
            JsonView::Array(text_items(text::texts(d.db_files@))),
        ).insert(
            "globalStateFiles"@,
            JsonView::Array(text_items(text::texts(d.global_state_files@))),
        ).insert("backupFiles"@, JsonView::Object(recorded_files(d.backup_files@))).insert(
            "changedSessionFiles"@,
            JsonView::Unsigned(d.changed_session_files),
        ).insert("managedBy"@, JsonView::Text(BACKUP_OWNER@)),
    )
}

/// The description of a backup as it is written beside it.
pub fn backup_metadata(d: &BackupDescription) -> (r: Json)
    ensures
        r@ == described(*d),
{
    let mut fields: Vec<(String, Json)> = Vec::new();
    json::set_entry(&mut fields, "version", Json::Unsigned(1));
    json::set_entry(&mut fields, "namespace", Json::Text(text::copy_text("provider-sync")));
    json::set_entry(
        &mut fields,
        "codexHome",
        Json::Text(text::copy_text(d.codex_home.as_str())),
    );
    json::set_entry(
        &mut fields,
        "targetProvider",
        Json::Text(text::copy_text(d.target_provider.as_str())),
    );
    json::set_entry(
        &mut fields,
        "createdAt",
        Json::Text(text::copy_text(d.created_at.as_str())),
    );
    json::set_entry(&mut fields, "dbFiles", text_list(&d.db_files));
    json::set_entry(&mut fields, "globalStateFiles", text_list(&d.global_state_files));
    json::set_entry(&mut fields, "backupFiles", record_files(&d.backup_files));
    json::set_entry(
        &mut fields,
        "changedSessionFiles",
        Json::Unsigned(d.changed_session_files),
    );
    json::set_entry(&mut fields, "managedBy", Json::Text(text::copy_text(BACKUP_OWNER)));
    Json::Object(fields)
}

proof fn lemma_text_items_survive(v: Seq<Seq<char>>, n: nat)
    requires
        n > 0,
    ensures
        json::nested_within(JsonView::Array(text_items(v)), n),
        json::float_free(JsonView::Array(text_items(v)), n),
{
    let items = text_items(v);
    let m = (n - 1) as nat;
    assert forall|i: int| 0 <= i < items.len() implies json::nested_within(
        #[trigger] items[i],
        m,
    ) by {}
    assert forall|i: int| 0 <= i < items.len() implies json::float_free(#[trigger] items[i], m) by {}
    assert(json::items_nested_within(items, m));
    assert(json::items_float_free(items, m));
}

proof fn lemma_recorded_files_survive(files: Seq<BackupFile>, n: nat)
    requires
        n > 0,
    ensures
        json::fields_nested_within(recorded_files(files), n),
        json::fields_float_free(recorded_files(files), n),
    decreases files.len(),
{
    let all = recorded_files(files);
    let m = (n - 1) as nat;
    if files.len() > 0 {
        let before = recorded_files(files.drop_last());
        lemma_recorded_files_survive(files.drop_last(), n);
        let evidence = Map::<Seq<char>, JsonView>::empty().insert(
            "size"@,
            JsonView::Unsigned(files.last().size),
        ).insert("sha256"@, JsonView::Text(files.last().sha256@));
        assert forall|k: Seq<char>| #[trigger] evidence.contains_key(k) implies json::nested_within(
            evidence[k],
            m,
        ) && json::float_free(evidence[k], m) by {}
        assert(json::fields_nested_within(evidence, m));
        assert(json::fields_float_free(evidence, m));
        assert(json::nested_within(JsonView::Object(evidence), n));
        assert(json::float_free(JsonView::Object(evidence), n));
        assert forall|k: Seq<char>| #[trigger] all.contains_key(k) implies json::nested_within(
            all[k],
            n,
        ) && json::float_free(all[k], n) by {
            if k != files.last().name@ {
                assert(before.contains_key(k));
            }
        }
    }
}

/// The description of a backup can be read back.
proof fn lemma_description_survives(d: BackupDescription)
    ensures
        json::survives_text(described(d)),
{
    let all = described(d)->Object_0;
    lemma_text_items_survive(text::texts(d.db_files@), 126);
    lemma_text_items_survive(text::texts(d.global_state_files@), 126);
    lemma_recorded_files_survive(d.backup_files@, 125);
    let files = JsonView::Object(recorded_files(d.backup_files@));
    assert(json::nested_within(files, 126));
    assert(json::float_free(files, 126));
    assert forall|k: Seq<char>| #[trigger] all.contains_key(k) implies json::nested_within(
        all[k],
        126,
    ) && json::float_free(all[k], 126) by {}
    assert(json::fields_nested_within(all, 126));
    assert(json::fields_float_free(all, 126));
    assert(json::nested_within(described(d), 127));
    assert(json::float_free(described(d), 127));
}

/// The text of the description of a backup. Reading it gives the description back, and
/// the backup counts as one of this library's.
pub fn backup_metadata_text(d: &BackupDescription) -> (r: String)
    ensures
        r@ == json::pretty_json(described(*d)),
        json::parsed_json(r@) == Some(described(*d)),
        is_managed(r@),
{
    proof {
        lemma_description_survives(*d);
    }
    let r = json::to_pretty(&backup_metadata(d));
    assert(json::text_field(described(*d), "managedBy"@) == Some(BACKUP_OWNER@));
    r
}

/// The description of a backup of the index of sessions.
pub fn session_index_backup_metadata(
    codex_home: &str,
    created_at: &str,
    snapshot_sha256: &str,
    removed_entries: u64,
) -> (r: Json)
    ensures
        r@ == JsonView::Object(
            Map::empty().insert("version"@, JsonView::Unsigned(1)).insert(
                "namespace"@,
                JsonView::Text("provider-sync-session-index-cleanup"@),
            ).insert("codexHome"@, JsonView::Text(codex_home@)).insert(
                "createdAt"@,
                JsonView::Text(created_at@),
            ).insert("snapshotSha256"@, JsonView::Text(snapshot_sha256@)).insert(
                "prunedSessionIndexEntries"@,
                JsonView::Unsigned(removed_entries),
            ).insert("managedBy"@, JsonView::Text(BACKUP_OWNER@)),
        ),
{
    let mut fields: Vec<(String, Json)> = Vec::new();
    json::set_entry(&mut fields, "version", Json::Unsigned(1));
    json::set_entry(
        &mut fields,
        "namespace",
        Json::Text(text::copy_text("provider-sync-session-index-cleanup")),
    );
    json::set_entry(&mut fields, "codexHome", Json::Text(text::copy_text(codex_home)));
    json::set_entry(&mut fields, "createdAt", Json::Text(text::copy_text(created_at)));
    json::set_entry(
        &mut fields,
        "snapshotSha256",
        Json::Text(text::copy_text(snapshot_sha256)),
    );
    json::set_entry(
        &mut fields,
        "prunedSessionIndexEntries",
        Json::Unsigned(removed_entries),
    );
    json::set_entry(&mut fields, "managedBy", Json::Text(text::copy_text(BACKUP_OWNER)));
    Json::Object(fields)
}

// ---------------------------------------------------------------------------
// Checking a backup
// ---------------------------------------------------------------------------
/// What is wrong with a backup.
#[derive(Debug, Clone, Copy, PartialEq, Eq, Structural)]
pub enum BackupError {
    /// The transaction does not own databases and global state.
    NotFull,
    MissingDbFiles,
    InvalidDbFilesEntry,
    InvalidPath,
    UnexpectedDbFile,
    DbFilesMismatch,
    MissingGlobalStateFiles,
    InvalidGlobalStateFilesEntry,
    UnexpectedGlobalStateFile,
    GlobalStateFilesMismatch,
    BackupFilesMismatch,
    InvalidHash,
}

/// The paths of database files that a list names, or what is wrong with the first entry
/// that is not one.
pub open spec fn db_paths_of(items: Seq<JsonView>, windows: bool) -> Result<
    Seq<Seq<char>>,
    BackupError,
>
    decreases items.len(),
{
    if items.len() == 0 {
        Ok(Seq::empty())
    } else {
        match db_paths_of(items.drop_last(), windows) {
            Ok(before) => match items.last() {
                JsonView::Text(s) => if names::leads_down(s, windows) {
                    Ok(before.push(s))
                } else {
                    Err(BackupError::InvalidPath)
                },
                _ => Err(BackupError::InvalidDbFilesEntry),
            },
            Err(e) => Err(e),
        }
    }
}

pub open spec fn db_files_of(metadata: JsonView, windows: bool) -> Result<
    Seq<Seq<char>>,
    BackupError,
> {
    match json::field(metadata, "dbFiles"@) {
        Some(JsonView::Array(items)) => db_paths_of(items, windows),
        _ => Err(BackupError::MissingDbFiles),
    }
}

/// Whether a list, or the reason why there is none, is the one that is expected.
pub open spec fn is_list(
    r: Result<Vec<String>, BackupError>,
    expected: Result<Seq<Seq<char>>, BackupError>,
) -> bool {
    match (r, expected) {
        (Ok(v), Ok(e)) => text::texts(v@) == e,
        (Err(a), Err(b)) => a == b,
        _ => false,
    }
}

/// Once an entry of a list is wrong, it stays so.
proof fn lemma_db_paths_prefix(items: Seq<JsonView>, n: int, windows: bool)
    requires
        0 <= n <= items.len(),
    ensures
        db_paths_of(items.take(n), windows) matches Err(e) ==> db_paths_of(items, windows)
            == Err::<Seq<Seq<char>>, BackupError>(e),
    decreases items.len(),
{
    if n == items.len() {
        assert(items.take(n) =~= items);
    } else {
        assert(items.drop_last().take(n) =~= items.take(n));
        lemma_db_paths_prefix(items.drop_last(), n, windows);
    }
}

/// The database files that the description of a backup names.
pub fn backup_db_files(metadata: &Json, windows: bool) -> (r: Result<Vec<String>, BackupError>)
    ensures
        is_list(r, db_files_of(metadata@, windows)),
{
    let items = match json::get(metadata, "dbFiles") {
        Some(Json::Array(items)) => items,
        _ => {
            return Err(BackupError::MissingDbFiles);
        },
    };
    let ghost all = json::items_view(items@);
    proof {
        json::lemma_items_view(items@);
    }
    let mut out: Vec<String> = Vec::new();
    let mut i: usize = 0;
    assert(text::texts(out@) =~= Seq::<Seq<char>>::empty());
    while i < items.len()
        invariant
            i <= items.len(),
            all == json::items_view(items@),
            all.len() == items@.len(),
            forall|k: int| 0 <= k < items@.len() ==> #[trigger] all[k] == items@[k]@,
            db_files_of(metadata@, windows) == db_paths_of(all, windows),
            db_paths_of(all.take(i as int), windows) == Ok::<Seq<Seq<char>>, BackupError>(
                text::texts(out@),
            ),
        decreases items.len() - i,
    {
        proof {
            assert(all.take(i + 1).drop_last() =~= all.take(i as int));
            assert(all.take(i + 1).last() == all[i as int]);
            assert(all[i as int] == items@[i as int]@);
            lemma_db_paths_prefix(all, i + 1, windows);
        }
        match &items[i] {
            Json::Text(s) => {
                if !names::validated_backup_relative_path(s.as_str(), windows) {
                    return Err(BackupError::InvalidPath);
                }
                let ghost before = text::texts(out@);
                out.push(text::copy_text(s.as_str()));
                assert(text::texts(out@) =~= before.push(s@));
            },
            _ => {
                return Err(BackupError::InvalidDbFilesEntry);
            },
        }
        i += 1;
    }
    assert(all.take(i as int) =~= all);
    Ok(out)
}

/// The texts of a list, unless an entry is none.
pub open spec fn names_of(items: Seq<JsonView>) -> Option<Seq<Seq<char>>>
    decreases items.len(),
{
    if items.len() == 0 {
        Some(Seq::empty())
    } else {
        match (names_of(items.drop_last()), items.last()) {
            (Some(before), JsonView::Text(s)) => Some(before.push(s)),
            _ => None,
        }
    }
}

pub open spec fn global_state_files_of(metadata: JsonView) -> Result<Seq<Seq<char>>, BackupError> {
    match json::field(metadata, "globalStateFiles"@) {
        Some(JsonView::Array(items)) => match names_of(items) {
            Some(v) => Ok(v),
            None => Err(BackupError::InvalidGlobalStateFilesEntry),
        },
        _ => Err(BackupError::MissingGlobalStateFiles),
    }
}

proof fn lemma_names_prefix(items: Seq<JsonView>, n: int)
    requires
        0 <= n <= items.len(),
    ensures
        names_of(items.take(n)) is None ==> names_of(items) is None,
    decreases items.len(),
{
    if n == items.len() {
        assert(items.take(n) =~= items);
    } else {
        assert(items.drop_last().take(n) =~= items.take(n));
        lemma_names_prefix(items.drop_last(), n);
    }
}

/// The files of the global state that the description of a backup names.
pub fn backup_global_state_files(metadata: &Json) -> (r: Result<Vec<String>, BackupError>)
    ensures
        is_list(r, global_state_files_of(metadata@)),
{
    let items = match json::get(metadata, "globalStateFiles") {
        Some(Json::Array(items)) => items,
        _ => {
            return Err(BackupError::MissingGlobalStateFiles);
        },
    };
    let ghost all = json::items_view(items@);
    proof {
        json::lemma_items_view(items@);
    }
    let mut out: Vec<String> = Vec::new();
    let mut i: usize = 0;
    assert(text::texts(out@) =~= Seq::<Seq<char>>::empty());
    while i < items.len()
        invariant
            i <= items.len(),
            all == json::items_view(items@),
            all.len() == items@.len(),
            forall|k: int| 0 <= k < items@.len() ==> #[trigger] all[k] == items@[k]@,
            json::field(metadata@, "globalStateFiles"@) == Some(JsonView::Array(all)),
            names_of(all.take(i as int)) == Some(text::texts(out@)),
        decreases items.len() - i,
    {
        proof {
            assert(all.take(i + 1).drop_last() =~= all.take(i as int));
            assert(all.take(i + 1).last() == all[i as int]);
            assert(all[i as int] == items@[i as int]@);
            lemma_names_prefix(all, i + 1);
        }
        match &items[i] {
            Json::Text(s) => {
                let ghost before = text::texts(out@);
                out.push(text::copy_text(s.as_str()));
                assert(text::texts(out@) =~= before.push(s@));
            },
            _ => {
                return Err(BackupError::InvalidGlobalStateFilesEntry);
            },
        }
        i += 1;
    }
    assert(all.take(i as int) =~= all);
    Ok(out)
}

/// Whether everything in `a` is in `b`.
pub open spec fn within(a: Seq<Seq<char>>, b: Seq<Seq<char>>) -> bool {
    forall|s: Seq<char>| #[trigger] a.contains(s) ==> b.contains(s)
}

/// Whether everything in `a` is in `b`.
pub fn is_within(a: &Vec<String>, b: &Vec<String>) -> (r: bool)
    ensures
        r == within(text::texts(a@), text::texts(b@)),
{
    let ghost x = text::texts(a@);
    let ghost y = text::texts(b@);
    let mut i: usize = 0;
    while i < a.len()
        invariant
            i <= a.len(),
            x == text::texts(a@),
            y == text::texts(b@),
            forall|k: int| 0 <= k < i ==> y.contains(#[trigger] x[k]),
        decreases a.len() - i,
    {
        assert(x[i as int] == a@[i as int]@);
        if !text::contains_text(b, a[i].as_str()) {
            assert(x.contains(x[i as int]));
            return false;
        }
        i += 1;
    }
    true
}

/// Whether two lists name the same things.
pub open spec fn same_set(a: Seq<Seq<char>>, b: Seq<Seq<char>>) -> bool {
    within(a, b) && within(b, a)
}

/// Whether two lists name the same things.
pub fn is_same_set(a: &Vec<String>, b: &Vec<String>) -> (r: bool)
    ensures
        r == same_set(text::texts(a@), text::texts(b@)),
{
    is_within(a, b) && is_within(b, a)
}

/// How a path is recorded, with slashes.
pub open spec fn key_of(path: Seq<char>) -> Seq<char> {
    text::replaced(path, '\\', '/')
}

pub open spec fn keys_of(paths: Seq<Seq<char>>) -> Seq<Seq<char>> {
    paths.map_values(|p: Seq<char>| key_of(p))
}

/// How paths are recorded, with slashes.
pub fn recorded_keys(paths: &Vec<String>) -> (r: Vec<String>)
    ensures
        text::texts(r@) == keys_of(text::texts(paths@)),
{
    let mut out: Vec<String> = Vec::new();
    let mut i: usize = 0;
    while i < paths.len()
        invariant
            i <= paths.len(),
            text::texts(out@) == keys_of(text::texts(paths@)).take(i as int),
        decreases paths.len() - i,
    {
        let ghost before = text::texts(out@);
        out.push(text::replace_text(paths[i].as_str(), '\\', '/'));
        assert(text::texts(out@) =~= before.push(key_of(paths@[i as int]@)));
        assert(text::texts(paths@)[i as int] == paths@[i as int]@);
        i += 1;
    }
    assert(text::texts(out@) =~= keys_of(text::texts(paths@)));
    out
}

/// Checks that only files of databases that may be restored are named.
pub fn check_expected_db_files(db_keys: &Vec<String>, allowed: &Vec<String>) -> (r: Result<
    (),
    BackupError,
>)
    ensures
        r == if within(text::texts(db_keys@), text::texts(allowed@)) {
            Ok::<(), BackupError>(())
        } else {
            Err(BackupError::UnexpectedDbFile)
        },
{
    if is_within(db_keys, allowed) {
        Ok(())
    } else {
        Err(BackupError::UnexpectedDbFile)
    }
}

/// Checks that the files of databases that are named are those in the backup.
pub fn check_actual_db_files(db_keys: &Vec<String>, actual: &Vec<String>) -> (r: Result<
    (),
    BackupError,
>)
    ensures
        r == if same_set(text::texts(db_keys@), text::texts(actual@)) {
            Ok::<(), BackupError>(())
        } else {
            Err(BackupError::DbFilesMismatch)
        },
{
    if is_same_set(db_keys, actual) {
        Ok(())
    } else {
        Err(BackupError::DbFilesMismatch)
    }
}

/// The files of the global state.
pub open spec fn global_names() -> Seq<Seq<char>> {
    seq![GLOBAL_STATE_FILE@, GLOBAL_STATE_BACKUP_FILE@]
}

fn global_state_names() -> (r: Vec<String>)
    ensures
        text::texts(r@) == global_names(),
{
    let r = vec![text::copy_text(GLOBAL_STATE_FILE), text::copy_text(GLOBAL_STATE_BACKUP_FILE)];
    assert(text::texts(r@) =~= global_names());
    r
}

/// Checks the files of the global state that are named, given those in the backup.
pub fn check_global_state_files(recorded: &Vec<String>, actual: &Vec<String>) -> (r: Result<
    (),
    BackupError,
>)
    ensures
        r == if !within(text::texts(recorded@), global_names()) {
            Err::<(), BackupError>(BackupError::UnexpectedGlobalStateFile)
        } else if !same_set(text::texts(recorded@), text::texts(actual@)) {
            Err(BackupError::GlobalStateFilesMismatch)
        } else {
            Ok(())
        },
{
    if !is_within(recorded, &global_state_names()) {
        return Err(BackupError::UnexpectedGlobalStateFile);
    }
    if !is_same_set(recorded, actual) {
        return Err(BackupError::GlobalStateFilesMismatch);
    }
    Ok(())
}

/// The name under which a file of a database is kept in a backup.
pub open spec fn kept_name(key: Seq<char>) -> Seq<char> {
    "db/"@ + key
}

pub open spec fn kept_names(keys: Seq<Seq<char>>) -> Seq<Seq<char>> {
    keys.map_values(|k: Seq<char>| kept_name(k))
}

pub open spec fn file_names(files: Seq<BackupFile>) -> Seq<Seq<char>> {
    files.map_values(|f: BackupFile| f.name@)
}

fn kept_texts(keys: &Vec<String>) -> (r: Vec<String>)
    ensures
        text::texts(r@) == kept_names(text::texts(keys@)),
{
    let mut out: Vec<String> = Vec::new();
    let mut i: usize = 0;
    while i < keys.len()
        invariant
            i <= keys.len(),
            text::texts(out@) == kept_names(text::texts(keys@)).take(i as int),
        decreases keys.len() - i,
    {
        let ghost before = text::texts(out@);
        out.push(text::join_text("db/", keys[i].as_str()));
        assert(text::texts(out@) =~= before.push(kept_name(keys@[i as int]@)));
        assert(text::texts(keys@)[i as int] == keys@[i as int]@);
        i += 1;
    }
    assert(text::texts(out@) =~= kept_names(text::texts(keys@)));
    out
}

fn names_of_files(files: &Vec<BackupFile>) -> (r: Vec<String>)
    ensures
        text::texts(r@) == file_names(files@),
{
    let mut out: Vec<String> = Vec::new();
    let mut i: usize = 0;
    while i < files.len()
        invariant
            i <= files.len(),
            text::texts(out@) == file_names(files@).take(i as int),
        decreases files.len() - i,
    {
        let ghost before = text::texts(out@);
        out.push(text::copy_text(files[i].name.as_str()));
        assert(text::texts(out@) =~= before.push(files@[i as int].name@));
        i += 1;
    }
    assert(text::texts(out@) =~= file_names(files@));
    out
}

/// Checks that evidence is recorded for the files that are named and for no others.
pub fn check_recorded_files(
    files: &Vec<BackupFile>,
    db_keys: &Vec<String>,
    global_state_files: &Vec<String>,
) -> (r: Result<(), BackupError>)
    ensures
        r == if same_set(
            file_names(files@),
            text::with_texts(
                kept_names(text::texts(db_keys@)),
                text::texts(global_state_files@),
            ),
        ) {
            Ok::<(), BackupError>(())
        } else {
            Err(BackupError::BackupFilesMismatch)
        },
{
    let mut expected = kept_texts(db_keys);
    text::insert_texts(&mut expected, global_state_files);
    let recorded = names_of_files(files);
    if is_same_set(&recorded, &expected) {
        Ok(())
    } else {
        Err(BackupError::BackupFilesMismatch)
    }
}

/// What is wrong with the evidence for a file.
pub open spec fn evidence_error(file: BackupFile, windows: bool) -> Option<BackupError> {
    if !digest::is_sha256_hex(file.sha256@) {
        Some(BackupError::InvalidHash)
    } else if !names::leads_down(file.name@, windows) {
        Some(BackupError::InvalidPath)
    } else {
        None
    }
}

/// Checks the evidence that is recorded for a file, before the file is read.
pub fn check_file_evidence(file: &BackupFile, windows: bool) -> (r: Result<(), BackupError>)
    ensures
        match r {
            Ok(_) => evidence_error(*file, windows) is None,
            Err(e) => evidence_error(*file, windows) == Some(e),
        },
{
    if !transaction::is_sha256_text(file.sha256.as_str()) {
        return Err(BackupError::InvalidHash);
    }
    if !names::validated_backup_relative_path(file.name.as_str(), windows) {
        return Err(BackupError::InvalidPath);
    }
    Ok(())
}

/// Whether a file that was read is the one that evidence is recorded for.
pub fn file_matches(file: &BackupFile, sha256: &str, size: u64) -> (r: bool)
    ensures
        r == (file.sha256@ == sha256@ && file.size == size),
{
    text::same_text(file.sha256.as_str(), sha256) && file.size == size
}

// ---------------------------------------------------------------------------
// Making a backup
// ---------------------------------------------------------------------------
/// What was copied into a backup so far.
#[derive(Debug)]
pub struct BackupDraft {
    pub db_files: Vec<String>,
    pub global_state_files: Vec<String>,
    pub files: Vec<BackupFile>,
}

impl BackupDraft {
    /// Whether evidence is recorded for the files that are listed and for no others.
    pub open spec fn wf(self) -> bool {
        &&& within(text::texts(self.global_state_files@), global_names())
        &&& same_set(
            file_names(self.files@),
            text::with_texts(
                kept_names(text::texts(self.db_files@)),
                text::texts(self.global_state_files@),
            ),
        )
    }

    pub fn new() -> (r: BackupDraft)
        ensures
            r.wf(),
            r.db_files@.len() == 0,
            r.global_state_files@.len() == 0,
            r.files@.len() == 0,
    {
        let r = BackupDraft {
            db_files: Vec::new(),
            global_state_files: Vec::new(),
            files: Vec::new(),
        };
        proof {
            text::lemma_with_texts(
                kept_names(text::texts(r.db_files@)),
                text::texts(r.global_state_files@),
            );
        }
        r
    }

    /// Lists a file that was copied. Of files beside the databases, evidence is only
    /// kept for those of the global state.
    pub fn add_file(&mut self, name: &str, size: u64, sha256: String)
        requires
            old(self).wf(),
        ensures
            final(self).wf(),
            final(self).db_files == old(self).db_files,
            if global_names().contains(name@) {
                &&& text::texts(final(self).global_state_files@) == text::texts(
                    old(self).global_state_files@,
                ).push(name@)
                &&& listed_one_more(old(self).files@, final(self).files@, name@, size, sha256)
            } else {
                *final(self) == *old(self)
            },
    {
        if !text::contains_text(&global_state_names(), name) {
            return;
        }
        let ghost listed = self.files@;
        let ghost names = text::texts(self.global_state_files@);
        self.global_state_files.push(text::copy_text(name));
        assert(text::texts(self.global_state_files@) =~= names.push(name@));
        let ghost files = file_names(self.files@);
        self.files.push(BackupFile { name: text::copy_text(name), size, sha256 });
        proof {
            assert(file_names(self.files@) =~= files.push(name@));
            assert(self.files@.take(listed.len() as int) =~= listed);
            let kept = kept_names(text::texts(self.db_files@));
            text::lemma_with_texts(kept, names);
            text::lemma_with_texts(kept, names.push(name@));
            lemma_one_more(files, text::with_texts(kept, names), name@);
            assert forall|s: Seq<char>| text::with_texts(kept, names.push(name@)).contains(s)
                <==> text::with_texts(kept, names).contains(s) || s == name@ by {
                text::lemma_push_contains(names, name@, s);
            }
            assert forall|s: Seq<char>| #[trigger]
                names.push(name@).contains(s) implies global_names().contains(s) by {
                text::lemma_push_contains(names, name@, s);
            }
        }
    }

    /// Lists a file of a database that was copied, by its path below the home directory.
    pub fn add_db_file(
        &mut self,
        relative: &str,
        size: u64,
        sha256: String,
        windows: bool,
    ) -> (r: Result<(), BackupError>)
        requires
            old(self).wf(),
        ensures
            final(self).wf(),
            match r {
                Ok(_) => names::leads_down(relative@, windows) && text::texts(final(self).db_files@)
                    == text::texts(old(self).db_files@).push(key_of(relative@))
                    && final(self).global_state_files == old(self).global_state_files
                    && listed_one_more(
                    old(self).files@,
                    final(self).files@,
                    kept_name(key_of(relative@)),
                    size,
                    sha256,
                ),
                Err(e) => e == BackupError::InvalidPath && !names::leads_down(relative@, windows)
                    && *final(self) == *old(self),
            },
    {
        if !names::validated_backup_relative_path(relative, windows) {
            return Err(BackupError::InvalidPath);
        }
        let key = text::replace_text(relative, '\\', '/');
        let ghost k = key@;
        let ghost paths = text::texts(self.db_files@);
        let ghost listed = self.files@;
        let ghost files = file_names(self.files@);
        let kept = text::join_text("db/", key.as_str());
        self.db_files.push(key);
        assert(text::texts(self.db_files@) =~= paths.push(k));
        self.files.push(BackupFile { name: kept, size, sha256 });
        proof {
            assert(file_names(self.files@) =~= files.push(kept_name(k)));
            assert(self.files@.take(listed.len() as int) =~= listed);
            let globals = text::texts(self.global_state_files@);
            assert(kept_names(paths.push(k)) =~= kept_names(paths).push(kept_name(k)));
            text::lemma_with_texts(kept_names(paths), globals);
            text::lemma_with_texts(kept_names(paths.push(k)), globals);
            lemma_one_more(files, text::with_texts(kept_names(paths), globals), kept_name(k));
            assert forall|s: Seq<char>| text::with_texts(
                kept_names(paths.push(k)),
                globals,
            ).contains(s) <==> text::with_texts(kept_names(paths), globals).contains(s) || s
                == kept_name(k) by {
                text::lemma_push_contains(kept_names(paths), kept_name(k), s);
            }
        }
        Ok(())
    }
}

/// Whether a list of files has one more file at its end.
pub open spec fn listed_one_more(
    before: Seq<BackupFile>,
    after: Seq<BackupFile>,
    name: Seq<char>,
    size: u64,
    sha256: String,
) -> bool {
    &&& after.len() == before.len() + 1
    &&& after.take(before.len() as int) == before
    &&& after.last().name@ == name
    &&& after.last().size == size
    &&& after.last().sha256 == sha256
}

proof fn lemma_one_more(a: Seq<Seq<char>>, b: Seq<Seq<char>>, x: Seq<char>)
    requires
        same_set(a, b),
    ensures
        forall|s: Seq<char>| #[trigger] a.push(x).contains(s) <==> b.contains(s) || s == x,
{
    assert forall|s: Seq<char>| #[trigger] a.push(x).contains(s) <==> b.contains(s) || s == x by {
        text::lemma_push_contains(a, x, s);
        if a.contains(s) {
            assert(b.contains(s));
        }
        if b.contains(s) {
            assert(a.contains(s));
        }
    }
}

proof fn lemma_paths_read_back(v: Seq<Seq<char>>, windows: bool)
    requires
        forall|i: int| 0 <= i < v.len() ==> names::leads_down(#[trigger] v[i], windows),
    ensures
        db_paths_of(text_items(v), windows) == Ok::<Seq<Seq<char>>, BackupError>(v),
    decreases v.len(),
{
    if v.len() > 0 {
        let init = v.drop_last();
        assert forall|i: int| 0 <= i < init.len() implies names::leads_down(
            #[trigger] init[i],
            windows,
        ) by {
            assert(init[i] == v[i]);
        }
        lemma_paths_read_back(init, windows);
        assert(text_items(v).drop_last() =~= text_items(init));
        assert(v =~= init.push(v.last()));
        assert(names::leads_down(v[v.len() - 1], windows));
    } else {
        assert(v =~= Seq::<Seq<char>>::empty());
    }
}

proof fn lemma_names_read_back(v: Seq<Seq<char>>)
    ensures
        names_of(text_items(v)) == Some(v),
    decreases v.len(),
{
    if v.len() > 0 {
        let init = v.drop_last();
        lemma_names_read_back(init);
        assert(text_items(v).drop_last() =~= text_items(init));
        assert(v =~= init.push(v.last()));
    } else {
        assert(v =~= Seq::<Seq<char>>::empty());
    }
}

/// A backup that was made passes the checks before it is restored: its description
/// names the files that were listed, and evidence is recorded for just these. The paths
/// of the databases have to be recorded in the form in which they lead down.
pub proof fn lemma_made_backup_passes_its_checks(
    draft: BackupDraft,
    d: BackupDescription,
    windows: bool,
)
    requires
        draft.wf(),
        d.db_files == draft.db_files,
        d.global_state_files == draft.global_state_files,
        d.backup_files == draft.files,
        forall|i: int|
            0 <= i < draft.db_files@.len() ==> names::leads_down(
                (#[trigger] draft.db_files@[i])@,
                windows,
            ) && key_of(draft.db_files@[i]@) == draft.db_files@[i]@,
    ensures
        db_files_of(described(d), windows) == Ok::<Seq<Seq<char>>, BackupError>(
            text::texts(draft.db_files@),
        ),
        global_state_files_of(described(d)) == Ok::<Seq<Seq<char>>, BackupError>(
            text::texts(draft.global_state_files@),
        ),
        within(text::texts(draft.global_state_files@), global_names()),
        same_set(
            file_names(d.backup_files@),
            text::with_texts(
                kept_names(keys_of(text::texts(draft.db_files@))),
                text::texts(draft.global_state_files@),
            ),
        ),
{
    let paths = text::texts(draft.db_files@);
    assert forall|i: int| 0 <= i < paths.len() implies names::leads_down(
        #[trigger] paths[i],
        windows,
    )
        && key_of(paths[i]) == paths[i] by {
        assert(names::leads_down(draft.db_files@[i]@, windows));
    }
    assert(keys_of(paths) =~= paths);
    lemma_paths_read_back(paths, windows);
    lemma_names_read_back(text::texts(draft.global_state_files@));
    reveal_strlit("dbFiles");
    reveal_strlit("globalStateFiles");
    reveal_strlit("backupFiles");
    reveal_strlit("changedSessionFiles");
    reveal_strlit("managedBy");
    assert("dbFiles"@.len() == 7);
    assert("globalStateFiles"@.len() == 16);
    assert("backupFiles"@.len() == 11);
    assert("changedSessionFiles"@.len() == 19);
    assert("managedBy"@.len() == 9);
    assert(json::field(described(d), "dbFiles"@) == Some(JsonView::Array(text_items(paths))));
    assert(json::field(described(d), "globalStateFiles"@) == Some(
        JsonView::Array(text_items(text::texts(draft.global_state_files@))),
    ));
}

// ---------------------------------------------------------------------------
// Restoring a backup
// ---------------------------------------------------------------------------
/// A file of a database: the database itself, or one that goes with it.
#[derive(Debug)]
pub struct DatabaseFile {
    /// The path below the home directory.
    pub path: String,
    /// Whether it is the database itself.
    pub is_main: bool,
    pub exists: bool,
}

/// A step of restoring.
#[derive(Debug)]
pub enum RestoreStep {
    /// Remove a file.
    Remove { target: String },
    /// Put a file of the backup into its place.
    Restore { source: String, target: String },
}

/// What a step is.
#[verifier::ext_equal]
pub enum StepView {
    Remove { target: Seq<char> },
    Restore { source: Seq<char>, target: Seq<char> },
}

impl View for RestoreStep {
    type V = StepView;

    open spec fn view(&self) -> StepView {
        match *self {
            RestoreStep::Remove { target } => StepView::Remove { target: target@ },
            RestoreStep::Restore { source, target } => StepView::Restore {
                source: source@,
                target: target@,
            },
        }
    }
}

pub open spec fn steps_of(v: Seq<RestoreStep>) -> Seq<StepView> {
    v.map_values(|s: RestoreStep| s@)
}

/// Whether a file that goes with a database is newer than the backup, which does not
/// hold it.
pub open spec fn is_stale(f: DatabaseFile, db_keys: Seq<Seq<char>>) -> bool {
    !f.is_main && f.exists && !db_keys.contains(key_of(f.path@))
}

pub open spec fn removals(files: Seq<DatabaseFile>, db_keys: Seq<Seq<char>>) -> Seq<StepView>
    decreases files.len(),
{
    if files.len() == 0 {
        Seq::empty()
    } else {
        let before = removals(files.drop_last(), db_keys);
        if is_stale(files.last(), db_keys) {
            before.push(StepView::Remove { target: files.last().path@ })
        } else {
            before
        }
    }
}

pub open spec fn restorations(db_files: Seq<Seq<char>>) -> Seq<StepView> {
    db_files.map_values(
        |p: Seq<char>| StepView::Restore { source: kept_name(key_of(p)), target: p },
    )
}

/// What is done with a file of the global state.
pub open spec fn global_step(
    name: Seq<char>,
    recorded: Seq<Seq<char>>,
    exists: bool,
) -> Seq<StepView> {
    if recorded.contains(name) {
        seq![StepView::Restore { source: name, target: name }]
    } else if exists {
        seq![StepView::Remove { target: name }]
    } else {
        Seq::empty()
    }
}

/// All steps of restoring a backup, in order.
pub open spec fn restore_steps(
    files: Seq<DatabaseFile>,
    db_files: Seq<Seq<char>>,
    recorded: Seq<Seq<char>>,
    state_exists: bool,
    state_backup_exists: bool,
) -> Seq<StepView> {
    removals(files, keys_of(db_files)) + restorations(db_files) + global_step(
        GLOBAL_STATE_FILE@,
        recorded,
        state_exists,
    ) + global_step(GLOBAL_STATE_BACKUP_FILE@, recorded, state_backup_exists)
}

fn push_step(v: &mut Vec<RestoreStep>, step: RestoreStep)
    ensures
        steps_of(final(v)@) == steps_of(old(v)@).push(step@),
{
    let ghost before = steps_of(v@);
    let ghost s = step@;
    v.push(step);
    assert(steps_of(v@) =~= before.push(s));
}

fn push_global_step(v: &mut Vec<RestoreStep>, name: &str, recorded: &Vec<String>, exists: bool)
    ensures
        steps_of(final(v)@) == steps_of(old(v)@) + global_step(
            name@,
            text::texts(recorded@),
            exists,
        ),
{
    if text::contains_text(recorded, name) {
        push_step(
            v,
            RestoreStep::Restore { source: text::copy_text(name), target: text::copy_text(name) },
        );
    } else if exists {
        push_step(v, RestoreStep::Remove { target: text::copy_text(name) });
    }
    assert(steps_of(v@) =~= steps_of(old(v)@) + global_step(name@, text::texts(recorded@), exists));
}

/// The steps of restoring a backup: files that go with a database and that the backup
/// does not hold are removed, then the files of databases are put back, then those of
/// the global state are put back or removed.
fn plan_restore(
    files: &Vec<DatabaseFile>,
    db_files: &Vec<String>,
    global_state_files: &Vec<String>,
    state_exists: bool,
    state_backup_exists: bool,
) -> (r: Vec<RestoreStep>)
    ensures
        steps_of(r@) == restore_steps(
            files@,
            text::texts(db_files@),
            text::texts(global_state_files@),
            state_exists,
            state_backup_exists,
        ),
{
    let keys = recorded_keys(db_files);
    let ghost paths = text::texts(db_files@);
    assert(text::texts(keys@).len() == keys@.len());
    assert(paths.len() == db_files@.len());
    let mut out: Vec<RestoreStep> = Vec::new();
    let mut i: usize = 0;
    assert(steps_of(out@) =~= Seq::<StepView>::empty());
    while i < files.len()
        invariant
            i <= files.len(),
            text::texts(keys@) == keys_of(paths),
            steps_of(out@) == removals(files@.take(i as int), keys_of(paths)),
        decreases files.len() - i,
    {
        assert(files@.take(i + 1).drop_last() =~= files@.take(i as int));
        let f = &files[i];
        let key = text::replace_text(f.path.as_str(), '\\', '/');
        if !f.is_main && f.exists && !text::contains_text(&keys, key.as_str()) {
            push_step(
                &mut out,
                RestoreStep::Remove { target: text::copy_text(f.path.as_str()) },
            );
        }
        i += 1;
    }
    assert(files@.take(i as int) =~= files@);
    let ghost first = steps_of(out@);
    let mut k: usize = 0;
    assert(first + restorations(paths).take(0) =~= first);
    while k < db_files.len()
        invariant
            k <= db_files.len(),
            paths == text::texts(db_files@),
            keys@.len() == db_files@.len(),
            text::texts(keys@) == keys_of(paths),
            steps_of(out@) == first + restorations(paths).take(k as int),
        decreases db_files.len() - k,
    {
        assert(text::texts(keys@)[k as int] == keys@[k as int]@);
        assert(paths[k as int] == db_files@[k as int]@);
        push_step(
            &mut out,
            RestoreStep::Restore {
                source: text::join_text("db/", keys[k].as_str()),
                target: text::copy_text(db_files[k].as_str()),
            },
        );
        assert(first + restorations(paths).take(k + 1) =~= (first + restorations(paths).take(
            k as int,
        )).push(restorations(paths)[k as int]));
        k += 1;
    }
    assert(restorations(paths).take(k as int) =~= restorations(paths));
    push_global_step(&mut out, GLOBAL_STATE_FILE, global_state_files, state_exists);
    push_global_step(&mut out, GLOBAL_STATE_BACKUP_FILE, global_state_files, state_backup_exists);
    out
}

/// What the files are after a step, given the files of the backup.
pub open spec fn after_step(
    fs: Map<Seq<char>, Seq<u8>>,
    backup: Map<Seq<char>, Seq<u8>>,
    step: StepView,
) -> Map<Seq<char>, Seq<u8>> {
    match step {
        StepView::Remove { target } => fs.remove(target),
        StepView::Restore { source, target } => fs.insert(target, backup[source]),
    }
}

/// What the files are after some steps.
pub open spec fn after_steps(
    fs: Map<Seq<char>, Seq<u8>>,
    backup: Map<Seq<char>, Seq<u8>>,
    steps: Seq<StepView>,
) -> Map<Seq<char>, Seq<u8>>
    decreases steps.len(),
{
    if steps.len() == 0 {
        fs
    } else {
        after_step(after_steps(fs, backup, steps.drop_last()), backup, steps.last())
    }
}

proof fn lemma_after_both(
    fs: Map<Seq<char>, Seq<u8>>,
    backup: Map<Seq<char>, Seq<u8>>,
    a: Seq<StepView>,
    b: Seq<StepView>,
)
    ensures
        after_steps(fs, backup, a + b) == after_steps(after_steps(fs, backup, a), backup, b),
    decreases b.len(),
{
    if b.len() == 0 {
        assert(a + b =~= a);
    } else {
        assert((a + b).drop_last() =~= a + b.drop_last());
        lemma_after_both(fs, backup, a, b.drop_last());
    }
}

pub open spec fn step_target(s: StepView) -> Seq<char> {
    match s {
        StepView::Remove { target } => target,
        StepView::Restore { source, target } => target,
    }
}

/// A file that no step names stays as it is.
proof fn lemma_untouched(
    fs: Map<Seq<char>, Seq<u8>>,
    backup: Map<Seq<char>, Seq<u8>>,
    steps: Seq<StepView>,
    path: Seq<char>,
)
    requires
        forall|i: int| 0 <= i < steps.len() ==> step_target(#[trigger] steps[i]) != path,
    ensures
        after_steps(fs, backup, steps).contains_key(path) == fs.contains_key(path),
        fs.contains_key(path) ==> after_steps(fs, backup, steps)[path] == fs[path],
    decreases steps.len(),
{
    if steps.len() > 0 {
        let init = steps.drop_last();
        assert forall|i: int| 0 <= i < init.len() implies step_target(#[trigger] init[i])
            != path by {
            assert(init[i] == steps[i]);
        }
        lemma_untouched(fs, backup, init, path);
        assert(step_target(steps[steps.len() - 1]) != path);
    }
}

/// Removing stale files takes away those files and no others.
proof fn lemma_removals(
    fs: Map<Seq<char>, Seq<u8>>,
    backup: Map<Seq<char>, Seq<u8>>,
    files: Seq<DatabaseFile>,
    keys: Seq<Seq<char>>,
    path: Seq<char>,
)
    ensures
        ({
            let end = after_steps(fs, backup, removals(files, keys));
            if exists|i: int|
                0 <= i < files.len() && (#[trigger] files[i]).path@ == path && is_stale(
                    files[i],
                    keys,
                ) {
                !end.contains_key(path)
            } else {
                end.contains_key(path) == fs.contains_key(path) && (fs.contains_key(path)
                    ==> end[path] == fs[path])
            }
        }),
    decreases files.len(),
{
    if files.len() > 0 {
        let init = files.drop_last();
        lemma_removals(fs, backup, init, keys, path);
        let before = removals(init, keys);
        if is_stale(files.last(), keys) {
            assert(removals(files, keys).drop_last() =~= before);
        }
        if exists|i: int|
            0 <= i < init.len() && (#[trigger] init[i]).path@ == path && is_stale(init[i], keys) {
            let i = choose|i: int|
                0 <= i < init.len() && (#[trigger] init[i]).path@ == path && is_stale(
                    init[i],
                    keys,
                );
            assert(files[i].path@ == path);
        }
        if exists|i: int|
            0 <= i < files.len() && (#[trigger] files[i]).path@ == path && is_stale(
                files[i],
                keys,
            ) {
            let i = choose|i: int|
                0 <= i < files.len() && (#[trigger] files[i]).path@ == path && is_stale(
                    files[i],
                    keys,
                );
            if i < init.len() {
                assert(init[i].path@ == path);
            }
        }
        assert(files[files.len() - 1] == files.last());
    }
}

/// Putting files back gives each its content in the backup and changes no others.
proof fn lemma_restorations(
    fs: Map<Seq<char>, Seq<u8>>,
    backup: Map<Seq<char>, Seq<u8>>,
    db_files: Seq<Seq<char>>,
    path: Seq<char>,
)
    ensures
        ({
            let end = after_steps(fs, backup, restorations(db_files));
            if db_files.contains(path) {
                end.contains_key(path) && end[path] == backup[kept_name(key_of(path))]
            } else {
                end.contains_key(path) == fs.contains_key(path) && (fs.contains_key(path)
                    ==> end[path] == fs[path])
            }
        }),
    decreases db_files.len(),
{
    if db_files.len() > 0 {
        let init = db_files.drop_last();
        lemma_restorations(fs, backup, init, path);
        assert(restorations(db_files).drop_last() =~= restorations(init));
        assert(db_files =~= init.push(db_files.last()));
        text::lemma_push_contains(init, db_files.last(), path);
    }
}

proof fn lemma_global_step(
    fs: Map<Seq<char>, Seq<u8>>,
    backup: Map<Seq<char>, Seq<u8>>,
    name: Seq<char>,
    recorded: Seq<Seq<char>>,
    exists_now: bool,
    path: Seq<char>,
)
    ensures
        ({
            let end = after_steps(fs, backup, global_step(name, recorded, exists_now));
            if path == name && recorded.contains(name) {
                end.contains_key(path) && end[path] == backup[name]
            } else if path == name && exists_now {
                !end.contains_key(path)
            } else {
                end.contains_key(path) == fs.contains_key(path) && (fs.contains_key(path)
                    ==> end[path] == fs[path])
            }
        }),
{
    let steps = global_step(name, recorded, exists_now);
    reveal_with_fuel(after_steps, 2);
    if steps.len() > 0 {
        assert(steps.drop_last() =~= Seq::<StepView>::empty());
    }
}

/// Whether what is known of the files is what they are.
pub open spec fn known_files(
    fs: Map<Seq<char>, Seq<u8>>,
    files: Seq<DatabaseFile>,
    state_exists: bool,
    state_backup_exists: bool,
) -> bool {
    &&& forall|i: int|
        0 <= i < files.len() ==> (#[trigger] files[i]).exists == fs.contains_key(files[i].path@)
    &&& forall|i: int| 0 <= i < files.len() ==> !global_names().contains((#[trigger] files[i]).path@)
    &&& state_exists == fs.contains_key(GLOBAL_STATE_FILE@)
    &&& state_backup_exists == fs.contains_key(GLOBAL_STATE_BACKUP_FILE@)
}

/// What a file should be after a backup was restored.
pub open spec fn restored_content(
    fs: Map<Seq<char>, Seq<u8>>,
    backup: Map<Seq<char>, Seq<u8>>,
    files: Seq<DatabaseFile>,
    db_files: Seq<Seq<char>>,
    recorded: Seq<Seq<char>>,
    path: Seq<char>,
) -> Option<Seq<u8>> {
    if global_names().contains(path) {
        if recorded.contains(path) {
            Some(backup[path])
        } else {
            None
        }
    } else if db_files.contains(path) {
        Some(backup[kept_name(key_of(path))])
    } else if exists|i: int|
        0 <= i < files.len() && (#[trigger] files[i]).path@ == path && is_stale(
            files[i],
            keys_of(db_files),
        ) {
        None
    } else if fs.contains_key(path) {
        Some(fs[path])
    } else {
        None
    }
}

/// Restoring a backup brings back what it holds: every file of a database that it
/// names has its content in the backup, no file that goes with a database is left that
/// the backup does not hold, the files of the global state are those of the backup, and
/// every other file stays as it is.
pub proof fn lemma_restoring_brings_back_the_backup(
    fs: Map<Seq<char>, Seq<u8>>,
    backup: Map<Seq<char>, Seq<u8>>,
    files: Seq<DatabaseFile>,
    db_files: Seq<Seq<char>>,
    recorded: Seq<Seq<char>>,
    state_exists: bool,
    state_backup_exists: bool,
    path: Seq<char>,
)
    requires
        known_files(fs, files, state_exists, state_backup_exists),
        forall|p: Seq<char>| #[trigger] db_files.contains(p) ==> !global_names().contains(p),
    ensures
        ({
            let end = after_steps(
                fs,
                backup,
                restore_steps(files, db_files, recorded, state_exists, state_backup_exists),
            );
            match restored_content(fs, backup, files, db_files, recorded, path) {
                Some(content) => end.contains_key(path) && end[path] == content,
                None => !end.contains_key(path),
            }
        }),
{
    let keys = keys_of(db_files);
    let a = removals(files, keys);
    let b = restorations(db_files);
    let c = global_step(GLOBAL_STATE_FILE@, recorded, state_exists);
    let d = global_step(GLOBAL_STATE_BACKUP_FILE@, recorded, state_backup_exists);
    let fs1 = after_steps(fs, backup, a);
    let fs2 = after_steps(fs1, backup, b);
    let fs3 = after_steps(fs2, backup, c);
    lemma_after_both(fs, backup, a, b);
    lemma_after_both(fs, backup, a + b, c);
    lemma_after_both(fs, backup, a + b + c, d);
    lemma_removals(fs, backup, files, keys, path);
    lemma_restorations(fs1, backup, db_files, path);
    lemma_global_step(fs2, backup, GLOBAL_STATE_FILE@, recorded, state_exists, path);
    lemma_global_step(fs3, backup, GLOBAL_STATE_BACKUP_FILE@, recorded, state_backup_exists, path);
    assert(global_names()[0] == GLOBAL_STATE_FILE@);
    assert(global_names()[1] == GLOBAL_STATE_BACKUP_FILE@);
    assert(GLOBAL_STATE_FILE@ != GLOBAL_STATE_BACKUP_FILE@) by {
        reveal_strlit(".codex-global-state.json");
        reveal_strlit(".codex-global-state.json.bak");
        assert(GLOBAL_STATE_FILE@.len() != GLOBAL_STATE_BACKUP_FILE@.len());
    }
    if db_files.contains(path) {
        let i = choose|i: int| 0 <= i < db_files.len() && db_files[i] == path;
        assert(keys[i] == key_of(path));
    }
}

// ---------------------------------------------------------------------------
// A restore in progress
// ---------------------------------------------------------------------------
/// What is known of a backup before it is restored.
pub struct BackupFacts {
    /// How the transaction that the backup was made for works.
    pub mode: transaction::SessionTransactionMode,
    /// The description of the backup.
    pub metadata: JsonView,
    /// The files of databases in the home directory.
    pub databases: Seq<DatabaseFile>,
    /// The files of databases in the backup, and those of the global state.
    pub kept_db: Seq<Seq<char>>,
    pub kept_global: Seq<Seq<char>>,
    /// The evidence in the description.
    pub evidence: Seq<BackupFile>,
    pub windows: bool,
}

pub open spec fn database_paths(files: Seq<DatabaseFile>) -> Seq<Seq<char>> {
    files.map_values(|f: DatabaseFile| f.path@)
}

pub open spec fn all_lead_down(paths: Seq<Seq<char>>, windows: bool) -> bool {
    forall|i: int| 0 <= i < paths.len() ==> names::leads_down(#[trigger] paths[i], windows)
}

/// What is wrong with the first piece of evidence that is not right.
pub open spec fn first_evidence_error(files: Seq<BackupFile>, windows: bool) -> Option<BackupError>
    decreases files.len(),
{
    if files.len() == 0 {
        None
    } else {
        match first_evidence_error(files.drop_last(), windows) {
            Some(e) => Some(e),
            None => evidence_error(files.last(), windows),
        }
    }
}

/// The files of databases and of the global state that are to be restored, or what is
/// wrong with the backup, by the first check that it does not pass.
pub open spec fn checked_backup(b: BackupFacts) -> Result<
    (Seq<Seq<char>>, Seq<Seq<char>>),
    BackupError,
> {
    if b.mode != transaction::SessionTransactionMode::Full {
        Err(BackupError::NotFull)
    } else {
        match db_files_of(b.metadata, b.windows) {
            Err(e) => Err(e),
            Ok(db_files) => if !all_lead_down(database_paths(b.databases), b.windows) {
                Err(BackupError::InvalidPath)
            } else if !within(keys_of(db_files), keys_of(database_paths(b.databases))) {
                Err(BackupError::UnexpectedDbFile)
            } else if !same_set(keys_of(db_files), b.kept_db) {
                Err(BackupError::DbFilesMismatch)
            } else {
                match global_state_files_of(b.metadata) {
                    Err(e) => Err(e),
                    Ok(recorded) => if !within(recorded, global_names()) {
                        Err(BackupError::UnexpectedGlobalStateFile)
                    } else if !same_set(recorded, b.kept_global) {
                        Err(BackupError::GlobalStateFilesMismatch)
                    } else if !same_set(
                        file_names(b.evidence),
                        text::with_texts(kept_names(keys_of(db_files)), recorded),
                    ) {
                        Err(BackupError::BackupFilesMismatch)
                    } else {
                        match first_evidence_error(b.evidence, b.windows) {
                            Some(e) => Err(e),
                            None => Ok((db_files, recorded)),
                        }
                    },
                }
            },
        }
    }
}

/// A backup that passed every check that can be made without reading its files, and
/// which of its files were read and are as the evidence says.
pub struct RestoreRun {
    databases: Vec<DatabaseFile>,
    db_files: Vec<String>,
    global_state_files: Vec<String>,
    evidence: Vec<BackupFile>,
    matched: Vec<bool>,
    failed: bool,
    facts: Ghost<BackupFacts>,
}

/// What a restore in progress is.
pub struct RestoreView {
    pub facts: BackupFacts,
    pub db_files: Seq<Seq<char>>,
    pub global_state_files: Seq<Seq<char>>,
    /// Which files were read and are as the evidence says.
    pub matched: Seq<bool>,
    /// Whether a file was read that is not.
    pub failed: bool,
}

impl RestoreView {
    /// The backup passed its checks.
    pub open spec fn wf(self) -> bool {
        &&& checked_backup(self.facts) == Ok::<(Seq<Seq<char>>, Seq<Seq<char>>), BackupError>(
            (self.db_files, self.global_state_files),
        )
        &&& self.matched.len() == self.facts.evidence.len()
    }

    /// Every file was read and is as the evidence says.
    pub open spec fn is_ready(self) -> bool {
        !self.failed && forall|i: int| 0 <= i < self.matched.len() ==> #[trigger] self.matched[i]
    }

    /// The steps of the restore, once it is ready.
    pub open spec fn steps(self, state_exists: bool, state_backup_exists: bool) -> Option<
        Seq<StepView>,
    > {
        if self.is_ready() {
            Some(
                restore_steps(
                    self.facts.databases,
                    self.db_files,
                    self.global_state_files,
                    state_exists,
                    state_backup_exists,
                ),
            )
        } else {
            None
        }
    }
}

impl View for RestoreRun {
    type V = RestoreView;

    closed spec fn view(&self) -> RestoreView {
        RestoreView {
            facts: self.facts@,
            db_files: text::texts(self.db_files@),
            global_state_files: text::texts(self.global_state_files@),
            matched: self.matched@,
            failed: self.failed,
        }
    }
}

fn copy_databases(v: &Vec<DatabaseFile>) -> (r: Vec<DatabaseFile>)
    ensures
        r@ == v@,
{
    let mut out: Vec<DatabaseFile> = Vec::new();
    let mut i: usize = 0;
    while i < v.len()
        invariant
            i <= v.len(),
            out@ == v@.take(i as int),
        decreases v.len() - i,
    {
        let f = &v[i];
        out.push(DatabaseFile { path: f.path.clone(), is_main: f.is_main, exists: f.exists });
        assert(out@ =~= v@.take(i + 1));
        i += 1;
    }
    assert(v@.take(i as int) =~= v@);
    out
}

fn copy_evidence(v: &Vec<BackupFile>) -> (r: Vec<BackupFile>)
    ensures
        r@ == v@,
{
    let mut out: Vec<BackupFile> = Vec::new();
    let mut i: usize = 0;
    while i < v.len()
        invariant
            i <= v.len(),
            out@ == v@.take(i as int),
        decreases v.len() - i,
    {
        let f = &v[i];
        out.push(BackupFile { name: f.name.clone(), size: f.size, sha256: f.sha256.clone() });
        assert(out@ =~= v@.take(i + 1));
        i += 1;
    }
    assert(v@.take(i as int) =~= v@);
    out
}

/// The paths of the files of databases, unless one does not lead down.
fn paths_leading_down(v: &Vec<DatabaseFile>, windows: bool) -> (r: Option<Vec<String>>)
    ensures
        match r {
            Some(paths) => all_lead_down(database_paths(v@), windows) && text::texts(paths@)
                == database_paths(v@),
            None => !all_lead_down(database_paths(v@), windows),
        },
{
    let ghost all = database_paths(v@);
    let mut out: Vec<String> = Vec::new();
    let mut i: usize = 0;
    assert(text::texts(out@) =~= all.take(0));
    while i < v.len()
        invariant
            i <= v.len(),
            all == database_paths(v@),
            text::texts(out@) == all.take(i as int),
            forall|k: int| 0 <= k < i ==> names::leads_down(#[trigger] all[k], windows),
        decreases v.len() - i,
    {
        assert(all[i as int] == v@[i as int].path@);
        if !names::validated_backup_relative_path(v[i].path.as_str(), windows) {
            return None;
        }
        let ghost before = text::texts(out@);
        out.push(text::copy_text(v[i].path.as_str()));
        assert(text::texts(out@) =~= before.push(all[i as int]));
        assert(text::texts(out@) =~= all.take(i + 1));
        i += 1;
    }
    assert(all.take(i as int) =~= all);
    Some(out)
}

proof fn lemma_first_evidence_error(files: Seq<BackupFile>, n: int, windows: bool)
    requires
        0 <= n <= files.len(),
    ensures
        first_evidence_error(files.take(n), windows) matches Some(e) ==> first_evidence_error(
            files,
            windows,
        ) == Some(e),
    decreases files.len(),
{
    if n == files.len() {
        assert(files.take(n) =~= files);
    } else {
        assert(files.drop_last().take(n) =~= files.take(n));
        lemma_first_evidence_error(files.drop_last(), n, windows);
    }
}

fn check_evidence(files: &Vec<BackupFile>, windows: bool) -> (r: Result<(), BackupError>)
    ensures
        match r {
            Ok(_) => first_evidence_error(files@, windows) is None,
            Err(e) => first_evidence_error(files@, windows) == Some(e),
        },
{
    let mut i: usize = 0;
    while i < files.len()
        invariant
            i <= files.len(),
            first_evidence_error(files@.take(i as int), windows) is None,
        decreases files.len() - i,
    {
        assert(files@.take(i + 1).drop_last() =~= files@.take(i as int));
        if let Err(e) = check_file_evidence(&files[i], windows) {
            proof {
                lemma_first_evidence_error(files@, i + 1, windows);
            }
            return Err(e);
        }
        i += 1;
    }
    assert(files@.take(i as int) =~= files@);
    Ok(())
}

/// Begins to restore the databases and the global state from a backup. It is refused
/// where the transaction does not own them, and where the description of the backup,
/// the files that are there and the evidence do not fit together.
pub fn restore_provider_sync_downstream_backup(
    mode: transaction::SessionTransactionMode,
    metadata: &Json,
    databases: &Vec<DatabaseFile>,
    kept_db: &Vec<String>,
    kept_global: &Vec<String>,
    evidence: &Vec<BackupFile>,
    windows: bool,
) -> (r: Result<RestoreRun, BackupError>)
    ensures
        ({
            let facts = BackupFacts {
                mode,
                metadata: metadata@,
                databases: databases@,
                kept_db: text::texts(kept_db@),
                kept_global: text::texts(kept_global@),
                evidence: evidence@,
                windows,
            };
            match r {
                Ok(run) => {
                    &&& checked_backup(facts) == Ok::<
                        (Seq<Seq<char>>, Seq<Seq<char>>),
                        BackupError,
                    >((run@.db_files, run@.global_state_files))
                    &&& run.wf()
                    &&& run@.facts == facts
                    &&& run@.matched == Seq::new(evidence@.len(), |i: int| false)
                    &&& !run@.failed
                },
                Err(e) => checked_backup(facts) == Err::<
                    (Seq<Seq<char>>, Seq<Seq<char>>),
                    BackupError,
                >(e),
            }
        }),
{
    if let transaction::SessionTransactionMode::Remote = mode {
        return Err(BackupError::NotFull);
    }
    let db_files = match backup_db_files(metadata, windows) {
        Ok(v) => v,
        Err(e) => {
            return Err(e);
        },
    };
    let paths = match paths_leading_down(databases, windows) {
        Some(v) => v,
        None => {
            return Err(BackupError::InvalidPath);
        },
    };
    let keys = recorded_keys(&db_files);
    if let Err(e) = check_expected_db_files(&keys, &recorded_keys(&paths)) {
        return Err(e);
    }
    if let Err(e) = check_actual_db_files(&keys, kept_db) {
        return Err(e);
    }
    let recorded = match backup_global_state_files(metadata) {
        Ok(v) => v,
        Err(e) => {
            return Err(e);
        },
    };
    if let Err(e) = check_global_state_files(&recorded, kept_global) {
        return Err(e);
    }
    if let Err(e) = check_recorded_files(evidence, &keys, &recorded) {
        return Err(e);
    }
    if let Err(e) = check_evidence(evidence, windows) {
        return Err(e);
    }
    let mut matched: Vec<bool> = Vec::new();
    let mut i: usize = 0;
    while i < evidence.len()
        invariant
            i <= evidence.len(),
            matched@ == Seq::new(i as nat, |k: int| false),
        decreases evidence.len() - i,
    {
        matched.push(false);
        assert(matched@ =~= Seq::new((i + 1) as nat, |k: int| false));
        i += 1;
    }
    Ok(
        RestoreRun {
            databases: copy_databases(databases),
            db_files,
            global_state_files: recorded,
            evidence: copy_evidence(evidence),
            matched,
            failed: false,
            facts: Ghost(
                BackupFacts {
                    mode,
                    metadata: metadata@,
                    databases: databases@,
                    kept_db: text::texts(kept_db@),
                    kept_global: text::texts(kept_global@),
                    evidence: evidence@,
                    windows,
                },
            ),
        },
    )
}

impl RestoreRun {
    /// The backup passed its checks, and what they were made on is at hand.
    pub closed spec fn wf(self) -> bool {
        &&& self@.wf()
        &&& self.databases@ == self.facts@.databases
        &&& self.evidence@ == self.facts@.evidence
    }

    /// A restore in progress is that of a backup which passed its checks.
    pub proof fn lemma_wf(self)
        requires
            self.wf(),
        ensures
            self@.wf(),
    {
    }

    /// The files of databases that are to be put back.
    pub fn db_files(&self) -> (r: &Vec<String>)
        ensures
            text::texts(r@) == self@.db_files,
    {
        &self.db_files
    }

    /// Whether a file was read that is not as the evidence says.
    pub fn has_failed(&self) -> (r: bool)
        ensures
            r == self@.failed,
    {
        self.failed
    }

    /// Notes the digest and the size of a file of the backup that was read. The restore
    /// cannot go on after a file that is not as the evidence says.
    pub fn note_prepared(&mut self, i: usize, sha256: &str, size: u64)
        requires
            old(self).wf(),
            i < old(self)@.facts.evidence.len(),
        ensures
            final(self).wf(),
            ({
                let file = old(self)@.facts.evidence[i as int];
                final(self)@ == if file.sha256@ == sha256@ && file.size == size {
                    RestoreView { matched: old(self)@.matched.update(i as int, true), ..old(self)@ }
                } else {
                    RestoreView { failed: true, ..old(self)@ }
                }
            }),
    {
        if file_matches(&self.evidence[i], sha256, size) {
            self.matched.set(i, true);
        } else {
            self.failed = true;
        }
    }

    /// The steps of the restore. There are none before every file was read and found to
    /// be as the evidence says.
    pub fn steps(&self, state_exists: bool, state_backup_exists: bool) -> (r: Option<
        Vec<RestoreStep>,
    >)
        requires
            self.wf(),
        ensures
            match (r, self@.steps(state_exists, state_backup_exists)) {
                (Some(steps), Some(expected)) => steps_of(steps@) == expected,
                (None, None) => true,
                _ => false,
            },
    {
        if self.failed {
            return None;
        }
        let mut i: usize = 0;
        while i < self.matched.len()
            invariant
                i <= self.matched.len(),
                forall|k: int| 0 <= k < i ==> #[trigger] self.matched@[k],
            decreases self.matched.len() - i,
        {
            if !self.matched[i] {
                assert(!self@.matched[i as int]);
                return None;
            }
            i += 1;
        }
        Some(
            plan_restore(
                &self.databases,
                &self.db_files,
                &self.global_state_files,
                state_exists,
                state_backup_exists,
            ),
        )
    }
}

/// No file is removed or put back before every check was passed: where a restore hands
/// out its steps, the transaction owns databases and global state, the lists in the
/// description name the files that may be restored and that are in the backup, there is
/// evidence for just these, every one of them was read and is as the evidence says, and
/// nothing else is put back.
pub proof fn lemma_steps_follow_every_check(
    v: RestoreView,
    state_exists: bool,
    state_backup_exists: bool,
)
    requires
        v.wf(),
        v.steps(state_exists, state_backup_exists) is Some,
    ensures
        v.facts.mode == transaction::SessionTransactionMode::Full,
        db_files_of(v.facts.metadata, v.facts.windows) == Ok::<Seq<Seq<char>>, BackupError>(
            v.db_files,
        ),
        global_state_files_of(v.facts.metadata) == Ok::<Seq<Seq<char>>, BackupError>(
            v.global_state_files,
        ),
        within(keys_of(v.db_files), keys_of(database_paths(v.facts.databases))),
        same_set(keys_of(v.db_files), v.facts.kept_db),
        within(v.global_state_files, global_names()),
        same_set(v.global_state_files, v.facts.kept_global),
        same_set(
            file_names(v.facts.evidence),
            text::with_texts(kept_names(keys_of(v.db_files)), v.global_state_files),
        ),
        first_evidence_error(v.facts.evidence, v.facts.windows) is None,
        !v.failed,
        forall|i: int| 0 <= i < v.facts.evidence.len() ==> #[trigger] v.matched[i],
        forall|i: int|
            0 <= i < v.steps(state_exists, state_backup_exists)->0.len() ==> match #[trigger] v.steps(
                state_exists,
                state_backup_exists,
            )->0[i] {
                StepView::Restore { source, target } => file_names(v.facts.evidence).contains(
                    source,
                ),
                StepView::Remove { target } => true,
            },
{
    let db = v.db_files;
    let keys = keys_of(db);
    let recorded = v.global_state_files;
    let a = removals(v.facts.databases, keys);
    let b = restorations(db);
    let c = global_step(GLOBAL_STATE_FILE@, recorded, state_exists);
    let d = global_step(GLOBAL_STATE_BACKUP_FILE@, recorded, state_backup_exists);
    let steps = v.steps(state_exists, state_backup_exists)->0;
    let names = text::with_texts(kept_names(keys), recorded);
    text::lemma_with_texts(kept_names(keys), recorded);
    lemma_removals_only_remove(v.facts.databases, keys);
    assert forall|i: int| 0 <= i < steps.len() implies match #[trigger] steps[i] {
        StepView::Restore { source, target } => file_names(v.facts.evidence).contains(source),
        StepView::Remove { target } => true,
    } by {
        if i < a.len() {
            assert(steps[i] == a[i]);
        } else if i < a.len() + b.len() {
            let k = i - a.len();
            assert(steps[i] == b[k]);
            assert(kept_names(keys)[k] == kept_name(key_of(db[k])));
            assert(kept_names(keys).contains(kept_name(key_of(db[k]))));
            assert(names.contains(kept_name(key_of(db[k]))));
        } else if i < a.len() + b.len() + c.len() {
            assert(steps[i] == c[i - a.len() - b.len()]);
            assert(recorded.contains(GLOBAL_STATE_FILE@) ==> names.contains(GLOBAL_STATE_FILE@));
        } else {
            assert(steps[i] == d[i - a.len() - b.len() - c.len()]);
            assert(recorded.contains(GLOBAL_STATE_BACKUP_FILE@) ==> names.contains(
                GLOBAL_STATE_BACKUP_FILE@,
            ));
        }
    }
}

/// The home directory after a restore that was refused, that cannot go on or whose steps
/// were taken.
pub open spec fn home_after(
    run: Option<RestoreView>,
    fs: Map<Seq<char>, Seq<u8>>,
    backup: Map<Seq<char>, Seq<u8>>,
    state_exists: bool,
    state_backup_exists: bool,
) -> Map<Seq<char>, Seq<u8>> {
    match run {
        None => fs,
        Some(v) => match v.steps(state_exists, state_backup_exists) {
            None => fs,
            Some(steps) => after_steps(fs, backup, steps),
        },
    }
}

/// A restore changes nothing or brings everything back: the home directory stays as it
/// is where the transaction does not own it, where a check fails or where a file is not
/// as the evidence says, and otherwise it has what the backup holds.
pub proof fn lemma_restore_changes_nothing_or_everything(
    facts: BackupFacts,
    run: Option<RestoreView>,
    fs: Map<Seq<char>, Seq<u8>>,
    backup: Map<Seq<char>, Seq<u8>>,
    state_exists: bool,
    state_backup_exists: bool,
    path: Seq<char>,
)
    requires
        match run {
            Some(v) => v.facts == facts && v.wf(),
            None => checked_backup(facts) is Err,
        },
        known_files(fs, facts.databases, state_exists, state_backup_exists),
        run matches Some(v) ==> forall|p: Seq<char>| #[trigger]
            v.db_files.contains(p) ==> !global_names().contains(p),
    ensures
        ({
            let end = home_after(run, fs, backup, state_exists, state_backup_exists);
            &&& facts.mode != transaction::SessionTransactionMode::Full ==> end == fs
            &&& checked_backup(facts) is Err ==> end == fs
            &&& run matches Some(v) ==> if v.is_ready() {
                match restored_content(
                    fs,
                    backup,
                    facts.databases,
                    v.db_files,
                    v.global_state_files,
                    path,
                ) {
                    Some(content) => end.contains_key(path) && end[path] == content,
                    None => !end.contains_key(path),
                }
            } else {
                end == fs
            }
        }),
{
    if let Some(v) = run {
        lemma_restoring_brings_back_the_backup(
            fs,
            backup,
            facts.databases,
            v.db_files,
            v.global_state_files,
            state_exists,
            state_backup_exists,
            path,
        );
    }
}

proof fn lemma_removals_only_remove(files: Seq<DatabaseFile>, keys: Seq<Seq<char>>)
    ensures
        forall|i: int| 0 <= i < removals(files, keys).len() ==> #[trigger] removals(
            files,
            keys,
        )[i] is Remove,
    decreases files.len(),
{
    if files.len() > 0 {
        lemma_removals_only_remove(files.drop_last(), keys);
        let before = removals(files.drop_last(), keys);
        assert forall|i: int| 0 <= i < removals(files, keys).len() implies #[trigger] removals(
            files,
            keys,
        )[i] is Remove by {
            if i < before.len() {
                assert(removals(files, keys)[i] == before[i]);
            }
        }
    }
}

// ---------------------------------------------------------------------------
// Keeping backups
// ---------------------------------------------------------------------------
/// Whether the description of a backup says that it is one of this library's.
pub open spec fn is_managed(description: Seq<char>) -> bool {
    match json::parsed_json(description) {
        Some(v) => json::text_field(v, "managedBy"@) == Some(BACKUP_OWNER@),
        None => false,
    }
}

pub open spec fn describes_managed(v: JsonView) -> bool {
    json::text_field(v, "managedBy"@) == Some(BACKUP_OWNER@)
}

/// Whether a description that was read says that the backup is one of this library's.
pub fn description_is_managed(description: &Json) -> (r: bool)
    ensures
        r == describes_managed(description@),
{
    match json::get_text(description, "managedBy") {
        Some(owner) => text::same_text(owner.as_str(), BACKUP_OWNER),
        None => false,
    }
}

/// Whether a backup is one of this library, by its description as it was written.
pub fn backup_is_managed(description: &str) -> (r: bool)
    ensures
        r == is_managed(description@),
{
    match json::parse(description) {
        Some(v) => description_is_managed(&v),
        None => false,
    }
}

/// Those backups that are to be removed: all but the newest few, the newest of them
/// first.
pub open spec fn are_outdated(v: Seq<Seq<char>>, names: Seq<Seq<char>>) -> bool {
    exists|sorted: Seq<Seq<char>>| #[trigger]
        text::is_sorted_set(sorted, names) && v == (if sorted.len() <= BACKUP_KEEP_COUNT {
            Seq::empty()
        } else {
            sorted.take(sorted.len() - BACKUP_KEEP_COUNT).reverse()
        })
}

/// The backups that are to be removed, of all of this library's.
pub fn backups_to_prune(managed: &Vec<String>) -> (r: Vec<String>)
    ensures
        are_outdated(text::texts(r@), text::texts(managed@)),
{
    let sorted = text::sorted_set(managed);
    let ghost all = text::texts(sorted@);
    assert(all.len() == sorted@.len());
    let mut out: Vec<String> = Vec::new();
    assert(text::texts(out@) =~= Seq::<Seq<char>>::empty());
    if sorted.len() <= BACKUP_KEEP_COUNT {
        return out;
    }
    let ghost old = all.take(all.len() - BACKUP_KEEP_COUNT);
    let count: usize = sorted.len() - BACKUP_KEEP_COUNT;
    let mut i: usize = count;
    while i > 0
        invariant
            i <= count <= sorted.len(),
            count == old.len(),
            all == text::texts(sorted@),
            all.len() == sorted@.len(),
            old == all.take(count as int),
            text::texts(out@) == old.reverse().take(count - i),
        decreases i,
    {
        let ghost before = text::texts(out@);
        out.push(text::copy_text(sorted[i - 1].as_str()));
        proof {
            assert(all[i - 1] == sorted@[i - 1]@);
            assert(old.reverse()[count - i] == old[i - 1]);
            assert(text::texts(out@) =~= before.push(all[i - 1]));
            assert(old.reverse().take(count - i + 1) =~= old.reverse().take(count - i).push(
                old.reverse()[count - i],
            ));
        }
        i -= 1;
    }
    assert(text::texts(out@) =~= old.reverse());
    out
}

/// No backup is removed that is newer than one that is kept, and as long as there are
/// no more than the newest few, none is removed.
pub proof fn lemma_newest_backups_are_kept(v: Seq<Seq<char>>, names: Seq<Seq<char>>)
    requires
        are_outdated(v, names),
    ensures
        forall|a: Seq<char>, b: Seq<char>|
            #![trigger v.contains(a), names.contains(b)]
            v.contains(a) && names.contains(b) && !v.contains(b) ==> text::text_less(a, b),
        names.no_duplicates() ==> v.len() == if names.len() <= BACKUP_KEEP_COUNT {
            0int
        } else {
            names.len() - BACKUP_KEEP_COUNT
        },
        forall|a: Seq<char>| #[trigger] v.contains(a) ==> names.contains(a),
{
    let sorted = choose|sorted: Seq<Seq<char>>| #[trigger]
        text::is_sorted_set(sorted, names) && v == (if sorted.len() <= BACKUP_KEEP_COUNT {
            Seq::empty()
        } else {
            sorted.take(sorted.len() - BACKUP_KEEP_COUNT).reverse()
        });
    let n = if sorted.len() <= BACKUP_KEEP_COUNT {
        0int
    } else {
        sorted.len() - BACKUP_KEEP_COUNT
    };
    let old = sorted.take(n);
    assert(v =~= old.reverse());
    assert forall|a: Seq<char>| #[trigger] v.contains(a) implies (exists|i: int|
        0 <= i < n && #[trigger] sorted[i] == a) by {
        let k = choose|k: int| 0 <= k < v.len() && v[k] == a;
        assert(v[k] == old[n - 1 - k]);
        assert(sorted[n - 1 - k] == a);
    }
    assert forall|a: Seq<char>| #[trigger] v.contains(a) implies names.contains(a) by {
        let i = choose|i: int| 0 <= i < n && #[trigger] sorted[i] == a;
        assert(sorted.contains(a));
    }
    assert forall|a: Seq<char>, b: Seq<char>|
        #![trigger v.contains(a), names.contains(b)]
        v.contains(a) && names.contains(b) && !v.contains(b) implies text::text_less(a, b) by {
        let i = choose|i: int| 0 <= i < n && #[trigger] sorted[i] == a;
        assert(sorted.contains(b));
        let j = choose|j: int| 0 <= j < sorted.len() && sorted[j] == b;
        if j < n {
            assert(v[n - 1 - j] == b);
        }
    }
    if names.no_duplicates() {
        assert(sorted.no_duplicates()) by {
            assert forall|i: int, j: int| 0 <= i < j < sorted.len() implies sorted[i]
                != sorted[j] by {
                text::lemma_text_less_total(sorted[i], sorted[j]);
            }
        }
        assert(sorted.to_set() =~= names.to_set());
        sorted.unique_seq_to_set();
        names.unique_seq_to_set();
    }
}

// ---------------------------------------------------------------------------
// What a backup says of itself
// ---------------------------------------------------------------------------
/// A backup says of itself what it was made of, each part under its own key, and nothing
/// else.
pub proof fn lemma_parts_of_a_description(d: BackupDescription)
    ensures
        described(d) matches JsonView::Object(m) && {
            &&& m.dom() == set![
                "version"@,
                "namespace"@,
                "codexHome"@,
                "targetProvider"@,
                "createdAt"@,
                "dbFiles"@,
                "globalStateFiles"@,
                "backupFiles"@,
                "changedSessionFiles"@,
                "managedBy"@,
            ]
            &&& m["version"@] == JsonView::Unsigned(1)
            &&& m["namespace"@] == JsonView::Text("provider-sync"@)
            &&& m["codexHome"@] == JsonView::Text(d.codex_home@)
            &&& m["targetProvider"@] == JsonView::Text(d.target_provider@)
            &&& m["createdAt"@] == JsonView::Text(d.created_at@)
            &&& m["dbFiles"@] == JsonView::Array(
                text::texts(d.db_files@).map_values(|s: Seq<char>| JsonView::Text(s)),
            )
            &&& m["globalStateFiles"@] == JsonView::Array(
                text::texts(d.global_state_files@).map_values(|s: Seq<char>| JsonView::Text(s)),
            )
            &&& m["backupFiles"@] == JsonView::Object(recorded_files(d.backup_files@))
            &&& m["changedSessionFiles"@] == JsonView::Unsigned(d.changed_session_files)
            &&& m["managedBy"@] == JsonView::Text("Codex++ provider sync"@)
        },
{
    reveal_strlit("version");
    reveal_strlit("namespace");
    reveal_strlit("codexHome");
    reveal_strlit("targetProvider");
    reveal_strlit("createdAt");
    reveal_strlit("dbFiles");
    reveal_strlit("globalStateFiles");
    reveal_strlit("backupFiles");
    reveal_strlit("changedSessionFiles");
    reveal_strlit("managedBy");
    assert("version"@.len() == 7 && "version"@[0] == 'v');
    assert("dbFiles"@.len() == 7 && "dbFiles"@[0] == 'd');
    assert("namespace"@.len() == 9 && "namespace"@[0] == 'n');
    assert("codexHome"@.len() == 9 && "codexHome"@[0] == 'c' && "codexHome"@[1] == 'o');
    assert("createdAt"@.len() == 9 && "createdAt"@[0] == 'c' && "createdAt"@[1] == 'r');
    assert("managedBy"@.len() == 9 && "managedBy"@[0] == 'm');
    assert("targetProvider"@.len() == 14);
    assert("globalStateFiles"@.len() == 16);
    assert("backupFiles"@.len() == 11);
    assert("changedSessionFiles"@.len() == 19);
    let m = described(d)->Object_0;
    assert(m.dom() =~= set![
        "version"@,
        "namespace"@,
        "codexHome"@,
        "targetProvider"@,
        "createdAt"@,
        "dbFiles"@,
        "globalStateFiles"@,
        "backupFiles"@,
        "changedSessionFiles"@,
        "managedBy"@,
    ]);
}

/// The evidence of a backup tells the size and the digest of every file in it.
pub proof fn lemma_evidence_tells_of_every_file(files: Seq<BackupFile>, i: int)
    requires
        0 <= i < files.len(),
        forall|k: int| i < k < files.len() ==> (#[trigger] files[k]).name@ != files[i].name@,
    ensures
        recorded_files(files).contains_key(files[i].name@),
        recorded_files(files)[files[i].name@] matches JsonView::Object(m) && {
            &&& m.contains_key("size"@) && m["size"@] == JsonView::Unsigned(files[i].size)
            &&& m.contains_key("sha256"@) && m["sha256"@] == JsonView::Text(files[i].sha256@)
        },
        forall|name: Seq<char>| #[trigger]
            recorded_files(files).contains_key(name) ==> file_names(files).contains(name),
    decreases files.len(),
{
    reveal_strlit("size");
    reveal_strlit("sha256");
    assert("size"@.len() != "sha256"@.len());
    let init = files.drop_last();
    let n = files.len() - 1;
    if i < n {
        assert(init[i] == files[i]);
        assert forall|k: int| i < k < init.len() implies (#[trigger] init[k]).name@
            != init[i].name@ by {
            assert(files[k] == init[k]);
        }
        lemma_evidence_tells_of_every_file(init, i);
        assert(files[n].name@ != files[i].name@);
    }
    lemma_recorded_names(files);
}

proof fn lemma_recorded_names(files: Seq<BackupFile>)
    ensures
        forall|name: Seq<char>| #[trigger]
            recorded_files(files).contains_key(name) ==> file_names(files).contains(name),
    decreases files.len(),
{
    if files.len() > 0 {
        let init = files.drop_last();
        let n = files.len() - 1;
        lemma_recorded_names(init);
        assert(file_names(files) =~= file_names(init).push(files[n].name@));
        assert forall|name: Seq<char>| #[trigger]
            recorded_files(files).contains_key(name) implies file_names(files).contains(name) by {
            text::lemma_push_contains(file_names(init), files[n].name@, name);
            if name != files[n].name@ {
                assert(recorded_files(init).contains_key(name));
            }
        }
    }
}

/// The databases of a backup are read from its description: a list of texts, all of them
/// paths that lead down. A list with anything else, and none at all, is refused.
pub proof fn lemma_databases_are_read_from_the_description(
    m: Map<Seq<char>, JsonView>,
    windows: bool,
)
    ensures
        ({
            let r = db_files_of(JsonView::Object(m), windows);
            let listed = m.contains_key("dbFiles"@) && m["dbFiles"@] is Array;
            &&& !listed ==> r == Err::<Seq<Seq<char>>, BackupError>(BackupError::MissingDbFiles)
            &&& listed ==> {
                let items = m["dbFiles"@]->Array_0;
                &&& r is Ok <==> forall|i: int|
                    0 <= i < items.len() ==> (#[trigger] items[i] matches JsonView::Text(s)
                        && names::leads_down(s, windows))
                &&& r matches Ok(v) ==> v.len() == items.len() && forall|i: int|
                    0 <= i < items.len() ==> #[trigger] items[i] == JsonView::Text(v[i])
            }
        }),
{
    if m.contains_key("dbFiles"@) && m["dbFiles"@] is Array {
        lemma_db_paths(m["dbFiles"@]->Array_0, windows);
    }
}

proof fn lemma_db_paths(items: Seq<JsonView>, windows: bool)
    ensures
        ({
            let r = db_paths_of(items, windows);
            &&& r is Ok <==> forall|i: int|
                0 <= i < items.len() ==> (#[trigger] items[i] matches JsonView::Text(s)
                    && names::leads_down(s, windows))
            &&& r matches Ok(v) ==> v.len() == items.len() && forall|i: int|
                0 <= i < items.len() ==> #[trigger] items[i] == JsonView::Text(v[i])
        }),
    decreases items.len(),
{
    if items.len() > 0 {
        let init = items.drop_last();
        let n = items.len() - 1;
        lemma_db_paths(init, windows);
        let r = db_paths_of(items, windows);
        if r is Ok {
            let v = r->Ok_0;
            let before = db_paths_of(init, windows)->Ok_0;
            assert forall|i: int| 0 <= i < items.len() implies (
            #[trigger] items[i] matches JsonView::Text(s) && names::leads_down(s, windows))
                && items[i] == JsonView::Text(v[i]) by {
                if i < n {
                    assert(init[i] == items[i]);
                    assert(v[i] == before[i]);
                }
            }
        }
        if forall|i: int|
            0 <= i < items.len() ==> (#[trigger] items[i] matches JsonView::Text(s)
                && names::leads_down(s, windows)) {
            assert forall|i: int| 0 <= i < init.len() implies (
            #[trigger] init[i] matches JsonView::Text(s) && names::leads_down(s, windows)) by {
                assert(items[i] == init[i]);
            }
            assert(items[n] is Text);
        }
    }
}

/// The files of the global state of a backup are read from its description: a list of
/// texts.
pub proof fn lemma_global_state_is_read_from_the_description(m: Map<Seq<char>, JsonView>)
    ensures
        ({
            let r = global_state_files_of(JsonView::Object(m));
            let listed = m.contains_key("globalStateFiles"@) && m["globalStateFiles"@] is Array;
            &&& !listed ==> r == Err::<Seq<Seq<char>>, BackupError>(
                BackupError::MissingGlobalStateFiles,
            )
            &&& listed ==> {
                let items = m["globalStateFiles"@]->Array_0;
                &&& r is Ok <==> forall|i: int| 0 <= i < items.len() ==> #[trigger] items[i] is Text
                &&& r is Err ==> r == Err::<Seq<Seq<char>>, BackupError>(
                    BackupError::InvalidGlobalStateFilesEntry,
                )
                &&& r matches Ok(v) ==> v.len() == items.len() && forall|i: int|
                    0 <= i < items.len() ==> #[trigger] items[i] == JsonView::Text(v[i])
            }
        }),
{
    if m.contains_key("globalStateFiles"@) && m["globalStateFiles"@] is Array {
        lemma_names_listed(m["globalStateFiles"@]->Array_0);
    }
}

proof fn lemma_names_listed(items: Seq<JsonView>)
    ensures
        names_of(items) is Some <==> forall|i: int|
            0 <= i < items.len() ==> #[trigger] items[i] is Text,
        names_of(items) matches Some(v) ==> v.len() == items.len() && forall|i: int|
            0 <= i < items.len() ==> #[trigger] items[i] == JsonView::Text(v[i]),
    decreases items.len(),
{
    if items.len() > 0 {
        let init = items.drop_last();
        let n = items.len() - 1;
        lemma_names_listed(init);
        if names_of(items) is Some {
            let v = names_of(items)->0;
            let before = names_of(init)->0;
            assert forall|i: int| 0 <= i < items.len() implies #[trigger] items[i]
                == JsonView::Text(v[i]) by {
                if i < n {
                    assert(init[i] == items[i]);
                    assert(v[i] == before[i]);
                }
            }
        }
        if forall|i: int| 0 <= i < items.len() ==> #[trigger] items[i] is Text {
            assert forall|i: int| 0 <= i < init.len() implies #[trigger] init[i] is Text by {
                assert(items[i] == init[i]);
            }
            assert(items[n] is Text);
        }
    }
}

/// The evidence of a file is accepted where it is a digest and the name leads down.
pub proof fn lemma_which_evidence_is_accepted(file: BackupFile, windows: bool)
    ensures
        evidence_error(file, windows) is None <==> digest::is_sha256_hex(file.sha256@)
            && names::leads_down(file.name@, windows),
        !digest::is_sha256_hex(file.sha256@) ==> evidence_error(file, windows) == Some(
            BackupError::InvalidHash,
        ),
{
}

/// A file of a database is known in a backup by its path with slashes, and kept in a
/// directory for databases.
pub proof fn lemma_where_databases_are_kept(path: Seq<char>)
    ensures
        kept_name(key_of(path)).len() == path.len() + 3,
        kept_name(key_of(path)).take(3) == "db/"@,
        forall|i: int|
            0 <= i < path.len() ==> #[trigger] kept_name(key_of(path))[i + 3] == if path[i]
                == '\\' {
                '/'
            } else {
                path[i]
            },
{
    reveal_strlit("db/");
    assert(kept_name(key_of(path)).take(3) =~= "db/"@);
}

/// A file beside a database is removed in a restoration where it is there and the backup
/// does not hold it; the database itself never is.
pub proof fn lemma_which_files_are_removed(f: DatabaseFile, keys: Seq<Seq<char>>)
    ensures
        is_stale(f, keys) <==> f.exists && !f.is_main && !keys.contains(
            text::replaced(f.path@, '\\', '/'),
        ),
{
}

/// A backup is this library's own where its description is JSON and says so.
pub proof fn lemma_which_backups_are_managed(description: Seq<char>)
    ensures
        is_managed(description) <==> (json::parsed_json(description) matches Some(
            JsonView::Object(m),
        ) && m.contains_key("managedBy"@) && m["managedBy"@] == JsonView::Text(
            "Codex++ provider sync"@,
        )),
{
}

/// The five newest backups stay; all older ones go, the newest of them first.
pub proof fn lemma_five_backups_stay(v: Seq<Seq<char>>, names: Seq<Seq<char>>)
    requires
        are_outdated(v, names),
    ensures
        exists|sorted: Seq<Seq<char>>| #[trigger]
            text::is_sorted_set(sorted, names) && v.len() == (if sorted.len() > 5 {
                sorted.len() - 5
            } else {
                0
            }) && forall|i: int| 0 <= i < v.len() ==> #[trigger] v[i] == sorted[v.len() - 1 - i],
{
    let sorted = choose|sorted: Seq<Seq<char>>| #[trigger]
        text::is_sorted_set(sorted, names) && v == (if sorted.len() <= BACKUP_KEEP_COUNT {
            Seq::empty()
        } else {
            sorted.take(sorted.len() - BACKUP_KEEP_COUNT).reverse()
        });
    assert(text::is_sorted_set(sorted, names));
}

/// A backup is accepted where every check passes: it belongs to a full transaction, its
/// databases are known and are those that it holds, its files of the global state are the
/// two that there can be and those that it holds, and the evidence is of all these files
/// and of no other.
pub proof fn lemma_which_backups_are_accepted(b: BackupFacts)
    ensures
        checked_backup(b) matches Ok(found) ==> {
            &&& b.mode == transaction::SessionTransactionMode::Full
            &&& db_files_of(b.metadata, b.windows) == Ok::<Seq<Seq<char>>, BackupError>(found.0)
            &&& global_state_files_of(b.metadata) == Ok::<Seq<Seq<char>>, BackupError>(found.1)
            &&& forall|s: Seq<char>| #[trigger]
                keys_of(found.0).contains(s) <==> b.kept_db.contains(s)
            &&& forall|s: Seq<char>| #[trigger]
                found.1.contains(s) <==> b.kept_global.contains(s)
            &&& forall|s: Seq<char>| #[trigger]
                found.1.contains(s) ==> s == ".codex-global-state.json"@ || s
                    == ".codex-global-state.json.bak"@
            &&& forall|s: Seq<char>| #[trigger]
                file_names(b.evidence).contains(s) <==> kept_names(keys_of(found.0)).contains(s)
                    || found.1.contains(s)
            &&& forall|s: Seq<char>| #[trigger]
                keys_of(found.0).contains(s) ==> keys_of(database_paths(b.databases)).contains(s)
        },
        b.mode != transaction::SessionTransactionMode::Full ==> checked_backup(b) == Err::<
            (Seq<Seq<char>>, Seq<Seq<char>>),
            BackupError,
        >(BackupError::NotFull),
{
    if let Ok(found) = checked_backup(b) {
        text::lemma_with_texts(kept_names(keys_of(found.0)), found.1);
        let files = text::with_texts(kept_names(keys_of(found.0)), found.1);
        assert(within(found.1, global_names()));
        assert forall|s: Seq<char>| #[trigger] found.1.contains(s) implies s
            == ".codex-global-state.json"@ || s == ".codex-global-state.json.bak"@ by {
            assert(global_names().contains(s));
            let k = choose|k: int| 0 <= k < global_names().len() && global_names()[k] == s;
        }
        assert forall|s: Seq<char>| #[trigger]
            file_names(b.evidence).contains(s) <==> kept_names(keys_of(found.0)).contains(s)
                || found.1.contains(s) by {
            assert(files.contains(s) <==> kept_names(keys_of(found.0)).contains(s)
                || found.1.contains(s));
        }
    }
}

/// After a restoration every database file that the backup lists is what the backup holds
/// of it; the two files of the global state are what the backup holds, or gone where it
/// holds none; a file beside a database that the backup does not hold is gone; everything
/// else is as it was.
pub proof fn lemma_home_after_a_restoration(
    fs: Map<Seq<char>, Seq<u8>>,
    backup: Map<Seq<char>, Seq<u8>>,
    files: Seq<DatabaseFile>,
    db_files: Seq<Seq<char>>,
    recorded: Seq<Seq<char>>,
    state_exists: bool,
    state_backup_exists: bool,
    path: Seq<char>,
)
    requires
        known_files(fs, files, state_exists, state_backup_exists),
        forall|p: Seq<char>| #[trigger]
            db_files.contains(p) ==> p != ".codex-global-state.json"@ && p
                != ".codex-global-state.json.bak"@,
    ensures
        ({
            let end = after_steps(
                fs,
                backup,
                restore_steps(files, db_files, recorded, state_exists, state_backup_exists),
            );
            let global = path == ".codex-global-state.json"@ || path
                == ".codex-global-state.json.bak"@;
            let beside = exists|i: int|
                0 <= i < files.len() && (#[trigger] files[i]).path@ == path && files[i].exists
                    && !files[i].is_main && !keys_of(db_files).contains(
                    text::replaced(path, '\\', '/'),
                );
            &&& global && recorded.contains(path) ==> end.contains_key(path) && end[path]
                == backup[path]
            &&& global && !recorded.contains(path) ==> !end.contains_key(path)
            &&& db_files.contains(path) ==> end.contains_key(path) && end[path] == backup["db/"@
                + text::replaced(path, '\\', '/')]
            &&& !global && !db_files.contains(path) && beside ==> !end.contains_key(path)
            &&& !global && !db_files.contains(path) && !beside ==> end.contains_key(path)
                == fs.contains_key(path) && (fs.contains_key(path) ==> end[path] == fs[path])
        }),
{
    assert forall|p: Seq<char>| #[trigger] global_names().contains(p) <==> p
        == ".codex-global-state.json"@ || p == ".codex-global-state.json.bak"@ by {
        assert(global_names()[0] == ".codex-global-state.json"@);
        assert(global_names()[1] == ".codex-global-state.json.bak"@);
        if global_names().contains(p) {
            let k = choose|k: int| 0 <= k < global_names().len() && global_names()[k] == p;
            assert(k == 0 || k == 1);
        }
    }
    lemma_restoring_brings_back_the_backup(
        fs,
        backup,
        files,
        db_files,
        recorded,
        state_exists,
        state_backup_exists,
        path,
    );
    let keys = keys_of(db_files);
    if exists|i: int|
        0 <= i < files.len() && (#[trigger] files[i]).path@ == path && is_stale(files[i], keys) {
        let i = choose|i: int|
            0 <= i < files.len() && (#[trigger] files[i]).path@ == path && is_stale(files[i], keys);
        assert(files[i].path@ == path);
    }
    if exists|i: int|
        0 <= i < files.len() && (#[trigger] files[i]).path@ == path && files[i].exists
            && !files[i].is_main && !keys.contains(text::replaced(path, '\\', '/')) {
        let i = choose|i: int|
            0 <= i < files.len() && (#[trigger] files[i]).path@ == path && files[i].exists
                && !files[i].is_main && !keys.contains(text::replaced(path, '\\', '/'));
        assert(is_stale(files[i], keys));
    }
}

/// What is known of a step of a restoration as a value.
pub proof fn lemma_restoration_steps_as_values(v: Seq<RestoreStep>, i: int)
    requires
        0 <= i < v.len(),
    ensures
        steps_of(v).len() == v.len(),
        v[i] matches RestoreStep::Remove { target } ==> steps_of(v)[i] == (StepView::Remove {
            target: target@,
        }),
        v[i] matches RestoreStep::Restore { source, target } ==> steps_of(v)[i]
            == (StepView::Restore { source: source@, target: target@ }),
{
}

/// Whether a list holds a text exactly where another does.
pub open spec fn lists_the_same(a: Seq<Seq<char>>, b: Seq<Seq<char>>) -> bool {
    forall|s: Seq<char>| #[trigger] a.contains(s) <==> b.contains(s)
}

/// A backup that is as it should be is accepted, with the files that it lists.
pub proof fn lemma_sound_backups_are_accepted(
    b: BackupFacts,
    db_files: Seq<Seq<char>>,
    recorded: Seq<Seq<char>>,
)
    requires
        b.mode == transaction::SessionTransactionMode::Full,
        db_files_of(b.metadata, b.windows) == Ok::<Seq<Seq<char>>, BackupError>(db_files),
        global_state_files_of(b.metadata) == Ok::<Seq<Seq<char>>, BackupError>(recorded),
        forall|i: int|
            0 <= i < b.databases.len() ==> names::leads_down(
                (#[trigger] b.databases[i]).path@,
                b.windows,
            ),
        forall|s: Seq<char>| #[trigger]
            keys_of(db_files).contains(s) ==> keys_of(database_paths(b.databases)).contains(s),
        lists_the_same(keys_of(db_files), b.kept_db),
        lists_the_same(recorded, b.kept_global),
        forall|s: Seq<char>| #[trigger]
            recorded.contains(s) ==> s == ".codex-global-state.json"@ || s
                == ".codex-global-state.json.bak"@,
        forall|s: Seq<char>| #[trigger]
            file_names(b.evidence).contains(s) <==> kept_names(keys_of(db_files)).contains(s)
                || recorded.contains(s),
        forall|i: int|
            0 <= i < b.evidence.len() ==> digest::is_sha256_hex((#[trigger] b.evidence[i]).sha256@)
                && names::leads_down(b.evidence[i].name@, b.windows),
    ensures
        checked_backup(b) == Ok::<(Seq<Seq<char>>, Seq<Seq<char>>), BackupError>(
            (db_files, recorded),
        ),
{
    assert(global_names()[0] == ".codex-global-state.json"@);
    assert(global_names()[1] == ".codex-global-state.json.bak"@);
    text::lemma_with_texts(kept_names(keys_of(db_files)), recorded);
    let files = text::with_texts(kept_names(keys_of(db_files)), recorded);
    let paths = database_paths(b.databases);
    assert forall|i: int| 0 <= i < paths.len() implies names::leads_down(
        #[trigger] paths[i],
        b.windows,
    ) by {
        assert(names::leads_down(b.databases[i].path@, b.windows));
    }
    assert(same_set(keys_of(db_files), b.kept_db)) by {
        assert forall|s: Seq<char>| #[trigger] b.kept_db.contains(s) implies keys_of(
            db_files,
        ).contains(s) by {
            assert(keys_of(db_files).contains(s) <==> b.kept_db.contains(s));
        }
    }
    assert(same_set(recorded, b.kept_global)) by {
        assert forall|s: Seq<char>| #[trigger] b.kept_global.contains(s) implies recorded.contains(
            s,
        ) by {
            assert(recorded.contains(s) <==> b.kept_global.contains(s));
        }
    }
    assert(same_set(file_names(b.evidence), files)) by {
        assert forall|s: Seq<char>| #[trigger] files.contains(s) implies file_names(
            b.evidence,
        ).contains(s) by {
            assert(file_names(b.evidence).contains(s) <==> kept_names(keys_of(db_files)).contains(s)
                || recorded.contains(s));
        }
    }
    lemma_sound_evidence(b.evidence, b.windows);
}

proof fn lemma_sound_evidence(files: Seq<BackupFile>, windows: bool)
    requires
        forall|i: int|
            0 <= i < files.len() ==> digest::is_sha256_hex((#[trigger] files[i]).sha256@)
                && names::leads_down(files[i].name@, windows),
    ensures
        first_evidence_error(files, windows) is None,
    decreases files.len(),
{
    if files.len() > 0 {
        let init = files.drop_last();
        assert forall|i: int| 0 <= i < init.len() implies digest::is_sha256_hex(
            (#[trigger] init[i]).sha256@,
        ) && names::leads_down(init[i].name@, windows) by {
            assert(files[i] == init[i]);
        }
        lemma_sound_evidence(init, windows);
        assert(digest::is_sha256_hex(files[files.len() - 1].sha256@));
    }
}

/// A list of databases is refused for the first entry that is not right: because it is no
/// text, or because it is no path that leads down.
pub proof fn lemma_why_a_list_of_databases_is_refused(
    m: Map<Seq<char>, JsonView>,
    items: Seq<JsonView>,
    n: int,
    windows: bool,
)
    requires
        m.contains_key("dbFiles"@),
        m["dbFiles"@] == JsonView::Array(items),
        0 <= n < items.len(),
        forall|i: int|
            0 <= i < n ==> (#[trigger] items[i] matches JsonView::Text(s) && names::leads_down(
                s,
                windows,
            )),
        items[n] matches JsonView::Text(s) ==> !names::leads_down(s, windows),
    ensures
        db_files_of(JsonView::Object(m), windows) == Err::<Seq<Seq<char>>, BackupError>(
            if items[n] is Text {
                BackupError::InvalidPath
            } else {
                BackupError::InvalidDbFilesEntry
            },
        ),
{
    let before = items.take(n);
    lemma_db_paths(before, windows);
    assert forall|i: int| 0 <= i < before.len() implies (
    #[trigger] before[i] matches JsonView::Text(s) && names::leads_down(s, windows)) by {
        assert(before[i] == items[i]);
    }
    assert(items.take(n + 1).drop_last() =~= before);
    lemma_db_paths_prefix(items, n + 1, windows);
}

/// A backup is refused by the first check that it does not pass. The checks are of the
/// list of databases, of the paths of the databases that are there, of databases that are
/// not known, of those that the backup holds, of the list of files of the global state,
/// of files that are none of it, of those that the backup holds, and of the evidence.
pub proof fn lemma_why_a_backup_is_refused(
    b: BackupFacts,
    db: Seq<Seq<char>>,
    recorded: Seq<Seq<char>>,
    s: Seq<char>,
)
    requires
        b.mode == transaction::SessionTransactionMode::Full,
    ensures
        ({
            let r = checked_backup(b);
            let known = keys_of(database_paths(b.databases));
            let down = forall|i: int|
                0 <= i < b.databases.len() ==> names::leads_down(
                    (#[trigger] b.databases[i]).path@,
                    b.windows,
                );
            let all_known = forall|k: Seq<char>| #[trigger]
                keys_of(db).contains(k) ==> known.contains(k);
            let all_kept = forall|k: Seq<char>| #[trigger]
                keys_of(db).contains(k) <==> b.kept_db.contains(k);
            let all_global = forall|k: Seq<char>| #[trigger]
                recorded.contains(k) ==> k == ".codex-global-state.json"@ || k
                    == ".codex-global-state.json.bak"@;
            let global_kept = forall|k: Seq<char>| #[trigger]
                recorded.contains(k) <==> b.kept_global.contains(k);
            let sound = down && all_known && all_kept;
            &&& db_files_of(b.metadata, b.windows) matches Err(e) ==> is_refused(r, e)
            &&& db_files_of(b.metadata, b.windows) == Ok::<Seq<Seq<char>>, BackupError>(db) ==> {
                &&& !down ==> is_refused(r, BackupError::InvalidPath)
                &&& down && !all_known ==> is_refused(r, BackupError::UnexpectedDbFile)
                &&& down && all_known && !all_kept ==> is_refused(r, BackupError::DbFilesMismatch)
                &&& sound ==> (global_state_files_of(b.metadata) matches Err(e) ==> is_refused(
                    r,
                    e,
                ))
                &&& sound && global_state_files_of(b.metadata) == Ok::<Seq<Seq<char>>, BackupError>(
                    recorded,
                ) ==> {
                    &&& !all_global ==> is_refused(r, BackupError::UnexpectedGlobalStateFile)
                    &&& all_global && !global_kept ==> is_refused(
                        r,
                        BackupError::GlobalStateFilesMismatch,
                    )
                    &&& all_global && global_kept && file_names(b.evidence).contains(s) != (
                    kept_names(keys_of(db)).contains(s) || recorded.contains(s)) ==> is_refused(
                        r,
                        BackupError::BackupFilesMismatch,
                    )
                }
            }
        }),
{
    let known = keys_of(database_paths(b.databases));
    let paths = database_paths(b.databases);
    let down = forall|i: int|
        0 <= i < b.databases.len() ==> names::leads_down(
            (#[trigger] b.databases[i]).path@,
            b.windows,
        );
    assert(down == all_lead_down(paths, b.windows)) by {
        assert forall|i: int| 0 <= i < paths.len() implies #[trigger] paths[i]
            == b.databases[i].path@ by {}
        if down {
            assert forall|i: int| 0 <= i < paths.len() implies names::leads_down(
                #[trigger] paths[i],
                b.windows,
            ) by {
                assert(b.databases[i].path@ == paths[i]);
            }
        }
        if all_lead_down(paths, b.windows) {
            assert forall|i: int| 0 <= i < b.databases.len() implies names::leads_down(
                (#[trigger] b.databases[i]).path@,
                b.windows,
            ) by {
                assert(paths[i] == b.databases[i].path@);
            }
        }
    }
    text::lemma_with_texts(kept_names(keys_of(db)), recorded);
    assert forall|k: Seq<char>| #[trigger] global_names().contains(k) <==> k
        == ".codex-global-state.json"@ || k == ".codex-global-state.json.bak"@ by {
        assert(global_names()[0] == ".codex-global-state.json"@);
        assert(global_names()[1] == ".codex-global-state.json.bak"@);
    }
    let files = text::with_texts(kept_names(keys_of(db)), recorded);
    assert(files.contains(s) <==> kept_names(keys_of(db)).contains(s) || recorded.contains(s));
    assert(file_names(b.evidence).contains(s) != files.contains(s) ==> !same_set(
        file_names(b.evidence),
        files,
    ));
    assert(within(recorded, global_names()) == (forall|k: Seq<char>| #[trigger]
        recorded.contains(k) ==> k == ".codex-global-state.json"@ || k
            == ".codex-global-state.json.bak"@));
    assert(same_set(recorded, b.kept_global) == (forall|k: Seq<char>| #[trigger]
        recorded.contains(k) <==> b.kept_global.contains(k)));
    assert(same_set(keys_of(db), b.kept_db) == (forall|k: Seq<char>| #[trigger]
        keys_of(db).contains(k) <==> b.kept_db.contains(k)));
    assert(within(keys_of(db), known) == (forall|k: Seq<char>| #[trigger]
        keys_of(db).contains(k) ==> known.contains(k)));
}

/// Whether something is refused with this error.
pub open spec fn is_refused<T>(r: Result<T, BackupError>, e: BackupError) -> bool {
    r matches Err(found) && found == e
}

/// Evidence is refused for the first file of which it is not right: because what it gives
/// is no SHA-256, or because the file's name does not lead down.
pub proof fn lemma_why_evidence_is_refused(files: Seq<BackupFile>, n: int, windows: bool)
    requires
        0 <= n < files.len(),
        forall|i: int|
            0 <= i < n ==> digest::is_sha256_hex((#[trigger] files[i]).sha256@)
                && names::leads_down(files[i].name@, windows),
        !digest::is_sha256_hex(files[n].sha256@) || !names::leads_down(files[n].name@, windows),
    ensures
        first_evidence_error(files, windows) == Some(
            if digest::is_sha256_hex(files[n].sha256@) {
                BackupError::InvalidPath
            } else {
                BackupError::InvalidHash
            },
        ),
    decreases files.len(),
{
    let init = files.drop_last();
    assert forall|i: int| 0 <= i < init.len() implies #[trigger] init[i] == files[i] by {}
    if n < init.len() {
        lemma_why_evidence_is_refused(init, n, windows);
    } else {
        lemma_right_evidence(init, windows);
    }
}

proof fn lemma_right_evidence(files: Seq<BackupFile>, windows: bool)
    requires
        forall|i: int|
            0 <= i < files.len() ==> digest::is_sha256_hex((#[trigger] files[i]).sha256@)
                && names::leads_down(files[i].name@, windows),
    ensures
        first_evidence_error(files, windows) is None,
    decreases files.len(),
{
    if files.len() > 0 {
        let init = files.drop_last();
        assert forall|i: int| 0 <= i < init.len() implies #[trigger] init[i] == files[i] by {}
        lemma_right_evidence(init, windows);
        assert(digest::is_sha256_hex(files[files.len() - 1].sha256@));
    }
}

} // verus!
