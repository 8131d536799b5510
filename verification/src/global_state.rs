//! The global state of the desktop application: which of its entries hold workspace
//! paths, and how those are brought into the form that the application uses.

use crate::json;
use crate::json::{Json, JsonView};
use crate::text;
use crate::workspace;
use vstd::prelude::*;

verus! {

// ---------------------------------------------------------------------------
// Reading
// ---------------------------------------------------------------------------
/// The entries of a global state file; a missing file and one that is no object
/// have none. Nothing where the file is no JSON.
pub open spec fn state_entries(content: Option<Seq<char>>) -> Option<Map<Seq<char>, JsonView>> {
    match content {
        None => Some(Map::empty()),
        Some(s) => match json::parsed_json(s) {
            None => None,
            Some(JsonView::Object(m)) => Some(m),
            Some(_) => Some(Map::empty()),
        },
    }
}

/// Reads the entries of a global state file.
pub fn load_global_state(content: Option<&str>) -> (r: Option<Vec<(String, Json)>>)
    ensures
        match (r, state_entries(text::str_of(content))) {
            (Some(fields), Some(m)) => json::fields_view(fields@) == m,
            (None, None) => true,
            _ => false,
        },
{
    match content {
        None => Some(Vec::new()),
        Some(s) => match json::parse(s) {
            None => None,
            Some(v) => match v {
                Json::Object(fields) => Some(fields),
                _ => Some(Vec::new()),
            },
        },
    }
}

/// The value under `key`, where there is one.
pub open spec fn entry(m: Map<Seq<char>, JsonView>, key: Seq<char>) -> Option<JsonView> {
    json::field(JsonView::Object(m), key)
}

/// The texts among these values that are not blank.
pub open spec fn texts_among(items: Seq<JsonView>) -> Seq<Seq<char>>
    decreases items.len(),
{
    if items.len() == 0 {
        Seq::empty()
    } else {
        let before = texts_among(items.drop_last());
        match items.last() {
            JsonView::Text(s) => if text::is_blank(s) {
                before
            } else {
                before.push(s)
            },
            _ => before,
        }
    }
}

/// The paths that a value holds: the texts of an array, or one text.
pub open spec fn paths_in(v: JsonView) -> Seq<Seq<char>> {
    match v {
        JsonView::Array(items) => texts_among(items),
        JsonView::Text(s) => if text::is_blank(s) {
            Seq::empty()
        } else {
            seq![s]
        },
        _ => Seq::empty(),
    }
}

/// The paths in a value, which is a list or a single path.
pub fn path_array(value: &Json) -> (r: Vec<String>)
    ensures
        text::texts(r@) == paths_in(value@),
{
    let mut out: Vec<String> = Vec::new();
    match value {
        Json::Array(items) => {
            let ghost views = json::items_view(items@);
            proof {
                json::lemma_items_view(items@);
            }
            let mut i: usize = 0;
            while i < items.len()
                invariant
                    i <= items.len(),
                    views == json::items_view(items@),
                    views.len() == items@.len(),
                    forall|k: int| 0 <= k < items@.len() ==> #[trigger] views[k] == items@[k]@,
                    text::texts(out@) == texts_among(views.take(i as int)),
                decreases items.len() - i,
            {
                assert(views.take(i + 1).drop_last() =~= views.take(i as int));
                assert(views.take(i + 1).last() == items@[i as int]@);
                if let Json::Text(s) = &items[i] {
                    if !text::blank(s.as_str()) {
                        let ghost before = text::texts(out@);
                        out.push(text::copy_text(s.as_str()));
                        assert(text::texts(out@) =~= before.push(s@));
                    }
                }
                i += 1;
            }
            assert(views.take(i as int) =~= views);
        },
        Json::Text(s) => {
            if !text::blank(s.as_str()) {
                out.push(text::copy_text(s.as_str()));
                assert(text::texts(out@) =~= seq![s@]);
            }
        },
        _ => {},
    }
    assert(text::texts(out@) =~= paths_in(value@));
    out
}

/// The threads that belong to no project, each once.
pub open spec fn projectless_ids(m: Map<Seq<char>, JsonView>) -> Seq<Seq<char>> {
    match entry(m, "projectless-thread-ids"@) {
        Some(JsonView::Array(items)) => text::with_texts(Seq::empty(), texts_among(items)),
        _ => Seq::empty(),
    }
}

/// The threads that belong to no project. There is no answer where the state is not JSON.
pub fn load_projectless_thread_ids(content: Option<&str>) -> (r: Option<Vec<String>>)
    ensures
        match (r, state_entries(text::str_of(content))) {
            (Some(ids), Some(m)) => text::texts(ids@) == projectless_ids(m),
            (None, None) => true,
            _ => false,
        },
{
    let fields = match load_global_state(content) {
        Some(fields) => fields,
        None => {
            return None;
        },
    };
    let state = Json::Object(fields);
    let mut ids: Vec<String> = Vec::new();
    if let Some(value) = json::get(&state, "projectless-thread-ids") {
        if let Json::Array(_) = value {
            let listed = path_array(value);
            text::insert_texts(&mut ids, &listed);
        }
    }
    assert(text::texts(Seq::<String>::empty()) =~= Seq::<Seq<char>>::empty());
    Some(ids)
}

// ---------------------------------------------------------------------------
// Keys that are paths
// ---------------------------------------------------------------------------
/// The form that a path gets as a key.
pub open spec fn resolved_key(key: Seq<char>) -> Seq<char> {
    match workspace::desktop_path(key) {
        Some(p) => p,
        None => key,
    }
}

/// Whether `key` is the last of the keys of an object that get its form.
pub open spec fn is_last_source(m: Map<Seq<char>, JsonView>, key: Seq<char>) -> bool {
    &&& m.contains_key(key)
    &&& forall|other: Seq<char>| #[trigger]
        m.contains_key(other) && resolved_key(other) == resolved_key(key) && other != key
            ==> text::text_less(other, key)
}

/// Whether a key of an object gets the form `k`.
pub open spec fn has_source(m: Map<Seq<char>, JsonView>, k: Seq<char>) -> bool {
    exists|key: Seq<char>| #[trigger] m.contains_key(key) && resolved_key(key) == k
}

/// An object with its keys in the form of desktop paths. Where several keys get the
/// same form, the value of the last one counts.
pub open spec fn resolved(m: Map<Seq<char>, JsonView>) -> Map<Seq<char>, JsonView> {
    Map::new(
        |k: Seq<char>| has_source(m, k),
        |k: Seq<char>|
            m[choose|key: Seq<char>| #[trigger] is_last_source(m, key) && resolved_key(key) == k],
    )
}

fn resolve_key(key: &str) -> (r: String)
    ensures
        r@ == resolved_key(key@),
{
    match workspace::to_desktop_workspace_path(key) {
        Some(p) => p,
        None => text::copy_text(key),
    }
}

spec fn distinct_entries(out: Seq<(String, Json)>) -> bool {
    forall|a: int, b: int| 0 <= a < b < out.len() ==> out[a].0@ != out[b].0@
}

/// What `out` and `sources` have to do with the first entries of an object.
spec fn resolves_first(
    fields: Seq<(String, Json)>,
    n: int,
    out: Seq<(String, Json)>,
    sources: Seq<String>,
) -> bool {
    let m = json::fields_view(fields);
    &&& out.len() == sources.len()
    &&& distinct_entries(out)
    &&& forall|k: int|
        0 <= k < out.len() ==> {
            &&& (#[trigger] out[k]).0@ == resolved_key(sources[k]@)
            &&& m.contains_key(sources[k]@)
            &&& out[k].1@ == m[sources[k]@]
        }
    &&& forall|j: int| 0 <= j < n ==> #[trigger] is_covered(fields[j].0@, out, sources)
}

spec fn is_covered(key: Seq<char>, out: Seq<(String, Json)>, sources: Seq<String>) -> bool {
    exists|k: int|
        0 <= k < out.len() && (#[trigger] out[k]).0@ == resolved_key(key) && (sources[k]@ == key
            || text::text_less(key, sources[k]@))
}

proof fn lemma_resolved(
    fields: Seq<(String, Json)>,
    out: Seq<(String, Json)>,
    sources: Seq<String>,
)
    requires
        resolves_first(fields, fields.len() as int, out, sources),
    ensures
        json::fields_view(out) == resolved(json::fields_view(fields)),
{
    let m = json::fields_view(fields);
    let r = json::fields_view(out);
    assert forall|key: Seq<char>| #[trigger] m.contains_key(key) implies is_covered(
        key,
        out,
        sources,
    ) by {
        json::lemma_fields_view(fields, key);
        let j = choose|j: int| 0 <= j < fields.len() && (#[trigger] fields[j]).0@ == key;
        assert(is_covered(fields[j].0@, out, sources));
    }
    assert forall|k: int| 0 <= k < out.len() implies is_last_source(
        m,
        #[trigger] sources[k]@,
    ) by {
        let key = sources[k]@;
        assert(out[k].0@ == resolved_key(key));
        assert forall|other: Seq<char>| #[trigger]
            m.contains_key(other) && resolved_key(other) == resolved_key(key) && other
                != key implies text::text_less(other, key) by {
            assert(is_covered(other, out, sources));
            let b = choose|b: int|
                0 <= b < out.len() && (#[trigger] out[b]).0@ == resolved_key(other) && (sources[b]@
                    == other || text::text_less(other, sources[b]@));
            if b < k {
                assert(out[b].0@ != out[k].0@);
            } else if k < b {
                assert(out[k].0@ != out[b].0@);
            }
        }
    }
    let expected = resolved(m);
    assert forall|k: Seq<char>|
        #![trigger r.dom().contains(k)]
        #![trigger expected.dom().contains(k)]
        r.dom().contains(k) == expected.dom().contains(k) && (expected.dom().contains(k) ==> r[k]
            == expected[k]) by {
        json::lemma_fields_view(out, k);
        if has_source(m, k) {
            let key = choose|key: Seq<char>| #[trigger]
                m.contains_key(key) && resolved_key(key) == k;
            assert(is_covered(key, out, sources));
            let a = choose|a: int|
                0 <= a < out.len() && (#[trigger] out[a]).0@ == resolved_key(key) && (sources[a]@
                    == key || text::text_less(key, sources[a]@));
            assert(out[a].0@ == k);
        }
        if r.contains_key(k) {
            let a = choose|a: int| 0 <= a < out.len() && (#[trigger] out[a]).0@ == k;
            assert(m.contains_key(sources[a]@) && resolved_key(sources[a]@) == k);
            assert(has_source(m, k));
            assert(json::first_entry(out, k, a)) by {
                assert forall|j: int| 0 <= j < a implies (#[trigger] out[j]).0@ != k by {
                    assert(out[j].0@ != out[a].0@);
                }
            }
            assert(is_last_source(m, sources[a]@));
            let chosen = choose|key: Seq<char>| #[trigger]
                is_last_source(m, key) && resolved_key(key) == k;
            assert(is_last_source(m, chosen) && resolved_key(chosen) == k);
            if chosen != sources[a]@ {
                assert(m.contains_key(chosen) && m.contains_key(sources[a]@));
                text::lemma_text_less_total(chosen, sources[a]@);
            }
        }
    }
    assert(r =~= expected);
}

/// Brings the keys of an object into the form of desktop paths.
pub fn copy_resolved_object_keys(fields: &Vec<(String, Json)>) -> (r: Vec<(String, Json)>)
    ensures
        json::fields_view(r@) == resolved(json::fields_view(fields@)),
{
    let ghost m = json::fields_view(fields@);
    let mut out: Vec<(String, Json)> = Vec::new();
    let mut sources: Vec<String> = Vec::new();
    let mut i: usize = 0;
    while i < fields.len()
        invariant
            i <= fields.len(),
            m == json::fields_view(fields@),
            resolves_first(fields@, i as int, out@, sources@),
        decreases fields.len() - i,
    {
        let ghost before = out@;
        let ghost before_sources = sources@;
        let ghost key = fields@[i as int].0@;
        let form = resolve_key(fields[i].0.as_str());
        let mut at: usize = 0;
        while at < out.len() && !text::same_text(out[at].0.as_str(), form.as_str())
            invariant
                at <= out.len(),
                forall|k: int| 0 <= k < at ==> (#[trigger] out@[k]).0@ != form@,
            decreases out.len() - at,
        {
            at += 1;
        }
        proof {
            json::lemma_fields_view(fields@, key);
            assert(m.contains_key(key));
        }
        if at == out.len() {
            proof {
                lemma_first_here(fields@, i as int, out@, sources@);
            }
            out.push((form, json::copy(&fields[i].1)));
            sources.push(text::copy_text(fields[i].0.as_str()));
            proof {
                assert(distinct_entries(out@));
                assert forall|j: int| 0 <= j < i + 1 implies #[trigger] is_covered(
                    fields@[j].0@,
                    out@,
                    sources@,
                ) by {
                    if j < i {
                        assert(is_covered(fields@[j].0@, before, before_sources));
                        let k = choose|k: int|
                            0 <= k < before.len() && (#[trigger] before[k]).0@ == resolved_key(
                                fields@[j].0@,
                            ) && (before_sources[k]@ == fields@[j].0@ || text::text_less(
                                fields@[j].0@,
                                before_sources[k]@,
                            ));
                        assert(out@[k] == before[k]);
                        assert(sources@[k] == before_sources[k]);
                    } else {
                        assert(out@[before.len() as int].0@ == resolved_key(key));
                    }
                }
                assert forall|k: int| 0 <= k < out@.len() implies {
                    &&& (#[trigger] out@[k]).0@ == resolved_key(sources@[k]@)
                    &&& m.contains_key(sources@[k]@)
                    &&& out@[k].1@ == m[sources@[k]@]
                } by {
                    if k < before.len() {
                        assert(out@[k] == before[k]);
                    }
                }
            }
        } else if text::less_text(sources[at].as_str(), fields[i].0.as_str()) {
            proof {
                lemma_first_when_greater(fields@, i as int, out@, sources@, at as int);
            }
            let entry = (form, json::copy(&fields[i].1));
            out.set(at, entry);
            let source = text::copy_text(fields[i].0.as_str());
            sources.set(at, source);
            proof {
                assert(distinct_entries(out@)) by {
                    assert forall|a: int, b: int| 0 <= a < b < out@.len() implies out@[a].0@
                        != out@[b].0@ by {
                        assert(before[a].0@ != before[b].0@);
                    }
                }
                assert forall|j: int| 0 <= j < i + 1 implies #[trigger] is_covered(
                    fields@[j].0@,
                    out@,
                    sources@,
                ) by {
                    if j < i {
                        let other = fields@[j].0@;
                        assert(is_covered(other, before, before_sources));
                        let k = choose|k: int|
                            0 <= k < before.len() && (#[trigger] before[k]).0@ == resolved_key(
                                other,
                            ) && (before_sources[k]@ == other || text::text_less(
                                other,
                                before_sources[k]@,
                            ));
                        assert(out@[k].0@ == resolved_key(other));
                        if k == at {
                            if before_sources[k]@ != other {
                                text::lemma_text_less_transitive(other, before_sources[k]@, key);
                            }
                        } else {
                            assert(sources@[k] == before_sources[k]);
                        }
                    } else {
                        assert(out@[at as int].0@ == resolved_key(key));
                    }
                }
                assert forall|k: int| 0 <= k < out@.len() implies {
                    &&& (#[trigger] out@[k]).0@ == resolved_key(sources@[k]@)
                    &&& m.contains_key(sources@[k]@)
                    &&& out@[k].1@ == m[sources@[k]@]
                } by {
                    if k != at {
                        assert(out@[k] == before[k]);
                    }
                }
            }
        } else {
            proof {
                text::lemma_text_less_total(sources@[at as int]@, key);
                assert(out@[at as int].0@ == resolved_key(key));
                assert(is_covered(key, out@, sources@));
            }
        }
        i += 1;
    }
    proof {
        lemma_resolved(fields@, out@, sources@);
    }
    out
}

/// A key whose form has not come up has not come up itself.
proof fn lemma_first_here(
    fields: Seq<(String, Json)>,
    i: int,
    out: Seq<(String, Json)>,
    sources: Seq<String>,
)
    requires
        0 <= i < fields.len(),
        resolves_first(fields, i, out, sources),
        forall|k: int| 0 <= k < out.len() ==> (#[trigger] out[k]).0@ != resolved_key(fields[i].0@),
    ensures
        json::fields_view(fields)[fields[i].0@] == fields[i].1@,
{
    let key = fields[i].0@;
    json::lemma_fields_view(fields, key);
    assert(json::first_entry(fields, key, i)) by {
        assert forall|j: int| 0 <= j < i implies (#[trigger] fields[j]).0@ != key by {
            assert(is_covered(fields[j].0@, out, sources));
        }
    }
}

/// A key that is greater than the source of its form has not come up.
proof fn lemma_first_when_greater(
    fields: Seq<(String, Json)>,
    i: int,
    out: Seq<(String, Json)>,
    sources: Seq<String>,
    at: int,
)
    requires
        0 <= i < fields.len(),
        0 <= at < out.len(),
        resolves_first(fields, i, out, sources),
        out[at].0@ == resolved_key(fields[i].0@),
        text::text_less(sources[at]@, fields[i].0@),
    ensures
        json::fields_view(fields)[fields[i].0@] == fields[i].1@,
{
    let key = fields[i].0@;
    json::lemma_fields_view(fields, key);
    assert(json::first_entry(fields, key, i)) by {
        assert forall|j: int| 0 <= j < i implies (#[trigger] fields[j]).0@ != key by {
            if fields[j].0@ == key {
                assert(is_covered(fields[j].0@, out, sources));
                let k = choose|k: int|
                    0 <= k < out.len() && (#[trigger] out[k]).0@ == resolved_key(key) && (
                    sources[k]@ == key || text::text_less(key, sources[k]@));
                if k < at {
                    assert(out[k].0@ != out[at].0@);
                } else if at < k {
                    assert(out[at].0@ != out[k].0@);
                }
                text::lemma_text_less_total(sources[at]@, key);
            }
        }
    }
}

// ---------------------------------------------------------------------------
// Normalising
// ---------------------------------------------------------------------------
/// A list of texts as a JSON array.
pub open spec fn text_array(v: Seq<Seq<char>>) -> JsonView {
    JsonView::Array(v.map_values(|s: Seq<char>| JsonView::Text(s)))
}

/// A JSON list of texts.
pub fn text_array_json(v: &Vec<String>) -> (r: Json)
    ensures
        r@ == text_array(text::texts(v@)),
        r is Array,
{
    let mut items: Vec<Json> = Vec::new();
    let mut i: usize = 0;
    while i < v.len()
        invariant
            i <= v.len(),
            items@.len() == i,
            forall|k: int| 0 <= k < i ==> (#[trigger] items@[k])@ == JsonView::Text(v@[k]@),
        decreases v.len() - i,
    {
        items.push(Json::Text(text::copy_text(v[i].as_str())));
        i += 1;
    }
    proof {
        json::lemma_items_view(items@);
        assert(json::items_view(items@) =~= text::texts(v@).map_values(
            |s: Seq<char>| JsonView::Text(s),
        ));
    }
    Json::Array(items)
}

/// A list of workspace paths in normal form.
pub open spec fn normal_list(v: JsonView) -> JsonView {
    text_array(workspace::deduped(paths_in(v)))
}

/// The active workspace in normal form: a list stays a list and a single path a
/// single path.
pub open spec fn normal_active(v: JsonView) -> JsonView {
    let paths = workspace::deduped(paths_in(v));
    if v is Array {
        text_array(paths)
    } else if paths.len() > 0 {
        JsonView::Text(paths[0])
    } else {
        v
    }
}

/// The preferences for opening files in normal form.
pub open spec fn normal_targets(t: Map<Seq<char>, JsonView>) -> Map<Seq<char>, JsonView> {
    match entry(t, "perPath"@) {
        Some(JsonView::Object(p)) => t.insert("perPath"@, JsonView::Object(resolved(p))),
        _ => t,
    }
}

/// The entry `key` in normal form, where `key` is an entry that holds paths.
pub open spec fn normal_entry(m: Map<Seq<char>, JsonView>, key: Seq<char>) -> Option<JsonView> {
    match entry(m, key) {
        None => None,
        Some(v) => if key == "electron-saved-workspace-roots"@ || key == "project-order"@ {
            Some(normal_list(v))
        } else if key == "active-workspace-roots"@ {
            Some(normal_active(v))
        } else if key == "electron-workspace-root-labels"@ {
            match v {
                JsonView::Object(labels) => Some(JsonView::Object(resolved(labels))),
                _ => None,
            }
        } else if key == "open-in-target-preferences"@ {
            match v {
                JsonView::Object(targets) => Some(JsonView::Object(normal_targets(targets))),
                _ => None,
            }
        } else {
            None
        },
    }
}

/// The entries that hold paths, in normal form.
pub open spec fn normalized(m: Map<Seq<char>, JsonView>) -> Map<Seq<char>, JsonView> {
    Map::new(
        |key: Seq<char>| normal_entry(m, key) is Some,
        |key: Seq<char>| normal_entry(m, key)->0,
    )
}

fn normal_entry_json(state: &Json, key: &str) -> (r: Option<Json>)
    requires
        state is Object,
        key@ == "electron-saved-workspace-roots"@ || key@ == "project-order"@ || key@
            == "active-workspace-roots"@ || key@ == "electron-workspace-root-labels"@ || key@
            == "open-in-target-preferences"@,
    ensures
        json::json_of(r) == normal_entry(state@->Object_0, key@),
{
    let value = match json::get(state, key) {
        Some(value) => value,
        None => {
            return None;
        },
    };
    if text::same_text(key, "electron-saved-workspace-roots") || text::same_text(
        key,
        "project-order",
    ) {
        let paths = workspace::dedupe_paths(&path_array(value));
        return Some(text_array_json(&paths));
    }
    if text::same_text(key, "active-workspace-roots") {
        let paths = workspace::dedupe_paths(&path_array(value));
        assert(text::texts(paths@).len() == paths@.len());
        return match value {
            Json::Array(_) => Some(text_array_json(&paths)),
            _ => if paths.len() > 0 {
                assert(text::texts(paths@)[0] == paths@[0]@);
                Some(Json::Text(text::copy_text(paths[0].as_str())))
            } else {
                Some(json::copy(value))
            },
        };
    }
    let fields = match value {
        Json::Object(fields) => fields,
        _ => {
            return None;
        },
    };
    if text::same_text(key, "electron-workspace-root-labels") {
        return Some(Json::Object(copy_resolved_object_keys(fields)));
    }
    let copied = json::copy(value);
    let mut next = match copied {
        Json::Object(next) => next,
        _ => Vec::new(),
    };
    if let Some(per_path) = json::get(value, "perPath") {
        if let Json::Object(inner) = per_path {
            let keys = copy_resolved_object_keys(inner);
            json::set_entry(&mut next, "perPath", Json::Object(keys));
        }
    }
    Some(Json::Object(next))
}

/// Whether a key of the normal form differs from what the state holds.
pub open spec fn key_changes(m: Map<Seq<char>, JsonView>, key: Seq<char>) -> bool {
    match normal_entry(m, key) {
        Some(v) => !json::values_equal(m[key], v),
        None => false,
    }
}

/// How many entries are not in normal form.
pub open spec fn update_count(m: Map<Seq<char>, JsonView>) -> nat {
    (if key_changes(m, "electron-saved-workspace-roots"@) { 1nat } else { 0nat }) + (
    if key_changes(m, "project-order"@) { 1nat } else { 0nat }) + (
    if key_changes(m, "active-workspace-roots"@) { 1nat } else { 0nat }) + (
    if key_changes(m, "electron-workspace-root-labels"@) { 1nat } else { 0nat }) + (
    if key_changes(m, "open-in-target-preferences"@) { 1nat } else { 0nat })
}

/// A state with all entries that hold paths in normal form.
pub open spec fn updated(m: Map<Seq<char>, JsonView>) -> Map<Seq<char>, JsonView> {
    m.union_prefer_right(normalized(m))
}

/// Takes one entry into the next state, where it holds paths.
fn update_entry(state: &Json, key: &str, next: &mut Vec<(String, Json)>) -> (changed: bool)
    requires
        state is Object,
        key@ == "electron-saved-workspace-roots"@ || key@ == "project-order"@ || key@
            == "active-workspace-roots"@ || key@ == "electron-workspace-root-labels"@ || key@
            == "open-in-target-preferences"@,
    ensures
        changed == key_changes(state@->Object_0, key@),
        json::fields_view(final(next)@) == match normal_entry(state@->Object_0, key@) {
            Some(v) => json::fields_view(old(next)@).insert(key@, v),
            None => json::fields_view(old(next)@),
        },
{
    match normal_entry_json(state, key) {
        None => false,
        Some(v) => {
            let changed = match json::get(state, key) {
                Some(before) => !json::equal(before, &v),
                None => false,
            };
            json::set_entry(next, key, v);
            changed
        },
    }
}

/// A global state in normal form, and how many entries of it changed.
pub struct GlobalStateUpdate {
    pub count: usize,
    /// The text that is to be written, where anything changed.
    pub text: Option<String>,
}

/// Brings the paths in a global state file into normal form; nothing where the
/// file is no JSON.
pub fn apply_global_state_update(content: Option<&str>) -> (r: Option<GlobalStateUpdate>)
    ensures
        match (r, state_entries(text::str_of(content))) {
            (Some(update), Some(m)) => update.count == update_count(m) && text::text_of(update.text)
                == if update_count(m) > 0 {
                Some(json::pretty_json(JsonView::Object(updated(m))))
            } else {
                None
            },
            (None, None) => true,
            _ => false,
        },
{
    let fields = match load_global_state(content) {
        Some(fields) => fields,
        None => {
            return None;
        },
    };
    let state = Json::Object(fields);
    let ghost m = state@->Object_0;
    let copied = json::copy(&state);
    let mut next = match copied {
        Json::Object(next) => next,
        _ => Vec::new(),
    };
    let mut count: usize = 0;
    if update_entry(&state, "electron-saved-workspace-roots", &mut next) {
        count += 1;
    }
    if update_entry(&state, "project-order", &mut next) {
        count += 1;
    }
    if update_entry(&state, "active-workspace-roots", &mut next) {
        count += 1;
    }
    if update_entry(&state, "electron-workspace-root-labels", &mut next) {
        count += 1;
    }
    if update_entry(&state, "open-in-target-preferences", &mut next) {
        count += 1;
    }
    proof {
        lemma_updated(m, json::fields_view(next@));
    }
    if count == 0 {
        return Some(GlobalStateUpdate { count, text: None });
    }
    let whole = Json::Object(next);
    Some(GlobalStateUpdate { count, text: Some(json::to_pretty(&whole)) })
}

/// How many entries of a global state file are not in normal form.
pub fn count_global_state_updates(content: Option<&str>) -> (r: Option<usize>)
    ensures
        match (r, state_entries(text::str_of(content))) {
            (Some(count), Some(m)) => count == update_count(m),
            (None, None) => true,
            _ => false,
        },
{
    match apply_global_state_update(content) {
        Some(update) => Some(update.count),
        None => None,
    }
}

/// One entry of the next state.
spec fn with_normal(
    next: Map<Seq<char>, JsonView>,
    m: Map<Seq<char>, JsonView>,
    key: Seq<char>,
) -> Map<Seq<char>, JsonView> {
    match normal_entry(m, key) {
        Some(v) => next.insert(key, v),
        None => next,
    }
}

proof fn lemma_updated(m: Map<Seq<char>, JsonView>, next: Map<Seq<char>, JsonView>)
    requires
        next == with_normal(
            with_normal(
                with_normal(
                    with_normal(
                        with_normal(m, m, "electron-saved-workspace-roots"@),
                        m,
                        "project-order"@,
                    ),
                    m,
                    "active-workspace-roots"@,
                ),
                m,
                "electron-workspace-root-labels"@,
            ),
            m,
            "open-in-target-preferences"@,
        ),
    ensures
        next == updated(m),
{
    assert(next =~= updated(m));
}

// ---------------------------------------------------------------------------
// Laws
// ---------------------------------------------------------------------------
/// Whether every key of an object has a form that is its own form.
pub open spec fn has_settled_keys(m: Map<Seq<char>, JsonView>) -> bool {
    forall|k: Seq<char>| #[trigger]
        m.contains_key(k) ==> resolved_key(resolved_key(k)) == resolved_key(k)
}

/// Bringing keys into form twice is doing it once.
pub proof fn lemma_resolved_settles(m: Map<Seq<char>, JsonView>)
    requires
        has_settled_keys(m),
    ensures
        resolved(resolved(m)) == resolved(m),
{
    let r = resolved(m);
    let rr = resolved(r);
    assert forall|k: Seq<char>| #[trigger] r.contains_key(k) implies resolved_key(k) == k by {
        let key = choose|key: Seq<char>| #[trigger] m.contains_key(key) && resolved_key(key) == k;
        assert(m.contains_key(key));
    }
    assert forall|k: Seq<char>| #[trigger] r.contains_key(k) implies is_last_source(r, k) by {
        assert forall|other: Seq<char>| #[trigger]
            r.contains_key(other) && resolved_key(other) == resolved_key(k) && other
                != k implies text::text_less(other, k) by {
            assert(resolved_key(other) == other);
        }
    }
    assert forall|k: Seq<char>|
        #![trigger rr.dom().contains(k)]
        #![trigger r.dom().contains(k)]
        rr.dom().contains(k) == r.dom().contains(k) && (r.dom().contains(k) ==> rr[k] == r[k]) by {
        if has_source(r, k) {
            let key = choose|key: Seq<char>| #[trigger]
                r.contains_key(key) && resolved_key(key) == k;
            assert(r.contains_key(key) && resolved_key(key) == key);
        }
        if r.contains_key(k) {
            assert(has_source(r, k));
            assert(is_last_source(r, k) && resolved_key(k) == k);
            let chosen = choose|key: Seq<char>| #[trigger]
                is_last_source(r, key) && resolved_key(key) == k;
            assert(is_last_source(r, chosen) && resolved_key(chosen) == k);
            assert(r.contains_key(chosen));
        }
    }
    assert(rr =~= r);
}

proof fn lemma_texts_among_array(v: Seq<Seq<char>>)
    requires
        forall|i: int| 0 <= i < v.len() ==> !text::is_blank(#[trigger] v[i]),
    ensures
        texts_among(v.map_values(|s: Seq<char>| JsonView::Text(s))) == v,
    decreases v.len(),
{
    let items = v.map_values(|s: Seq<char>| JsonView::Text(s));
    if v.len() > 0 {
        let init = v.drop_last();
        assert forall|i: int| 0 <= i < init.len() implies !text::is_blank(#[trigger] init[i]) by {
            assert(init[i] == v[i]);
        }
        lemma_texts_among_array(init);
        assert(items.drop_last() =~= init.map_values(|s: Seq<char>| JsonView::Text(s)));
        assert(items.last() == JsonView::Text(v[v.len() - 1]));
        assert(!text::is_blank(v[v.len() - 1]));
        assert(v =~= init.push(v.last()));
    } else {
        assert(texts_among(items) =~= v);
    }
}

/// Whether the desktop forms of these paths are their own desktop forms.
pub open spec fn settled_paths(paths: Seq<Seq<char>>) -> bool {
    forall|i: int| 0 <= i < paths.len() ==> workspace::has_settled_form(#[trigger] paths[i])
}

/// Bringing a list of paths into normal form twice is doing it once.
pub proof fn lemma_normal_list_settles(v: JsonView)
    requires
        settled_paths(paths_in(v)),
    ensures
        normal_list(normal_list(v)) == normal_list(v),
        normal_active(normal_active(v)) == normal_active(v),
{
    let paths = paths_in(v);
    let d = workspace::deduped(paths);
    workspace::lemma_deduped_idempotent(paths);
    assert forall|i: int| 0 <= i < d.len() implies !text::is_blank(#[trigger] d[i]) by {
        workspace::lemma_deduped_forms(paths, i);
    }
    lemma_texts_among_array(d);
    assert(paths_in(text_array(d)) == d);
    if !(v is Array) && d.len() > 0 {
        let one = seq![d[0]];
        assert(!text::is_blank(d[0]));
        workspace::lemma_deduped_forms(paths, 0);
        assert(paths_in(JsonView::Text(d[0])) == one);
        reveal_with_fuel(workspace::deduped, 2);
        assert(one.drop_last() =~= Seq::<Seq<char>>::empty());
        assert(workspace::deduped(one) =~= one);
    }
}

/// Whether all paths in an entry of a state have settled forms.
pub open spec fn entry_settles(m: Map<Seq<char>, JsonView>, key: Seq<char>) -> bool {
    match entry(m, key) {
        None => true,
        Some(v) => if key == "electron-workspace-root-labels"@ {
            v matches JsonView::Object(labels) ==> has_settled_keys(labels)
        } else if key == "open-in-target-preferences"@ {
            v matches JsonView::Object(targets) ==> match entry(targets, "perPath"@) {
                Some(JsonView::Object(p)) => has_settled_keys(p),
                _ => true,
            }
        } else if key == "electron-saved-workspace-roots"@ || key == "project-order"@ || key
            == "active-workspace-roots"@ {
            settled_paths(paths_in(v))
        } else {
            true
        },
    }
}

proof fn lemma_entry_settles(m: Map<Seq<char>, JsonView>, key: Seq<char>)
    requires
        entry_settles(m, key),
    ensures
        normal_entry(updated(m), key) == normal_entry(m, key),
{
    if let Some(v) = normal_entry(m, key) {
        assert(normalized(m).contains_key(key));
        assert(updated(m)[key] == v);
        let before = entry(m, key)->0;
        if key == "electron-saved-workspace-roots"@ || key == "project-order"@ || key
            == "active-workspace-roots"@ {
            reveal_strlit("electron-saved-workspace-roots");
            reveal_strlit("project-order");
            reveal_strlit("active-workspace-roots");
            reveal_strlit("electron-workspace-root-labels");
            reveal_strlit("open-in-target-preferences");
            assert(key.len() != "electron-workspace-root-labels"@.len() || key[9]
                != "electron-workspace-root-labels"@[9]);
            assert(key.len() != "open-in-target-preferences"@.len());
            lemma_normal_list_settles(before);
        } else if key == "electron-workspace-root-labels"@ {
            lemma_resolved_settles(before->Object_0);
        } else {
            let targets = before->Object_0;
            if let Some(JsonView::Object(p)) = entry(targets, "perPath"@) {
                lemma_resolved_settles(p);
                assert(normal_targets(normal_targets(targets)) =~= normal_targets(targets));
            }
        }
    } else {
        assert(!normalized(m).contains_key(key));
        assert(updated(m).contains_key(key) == m.contains_key(key));
    }
}

/// A global state that was brought into normal form stays as it is.
pub proof fn lemma_updated_state_is_settled(m: Map<Seq<char>, JsonView>)
    requires
        forall|key: Seq<char>| #[trigger] entry_settles(m, key),
    ensures
        normalized(updated(m)) == normalized(m),
        updated(updated(m)) == updated(m),
{
    assert forall|key: Seq<char>| normal_entry(updated(m), key) == #[trigger] normal_entry(
        m,
        key,
    ) by {
        assert(entry_settles(m, key));
        lemma_entry_settles(m, key);
    }
    assert(normalized(updated(m)) =~= normalized(m));
    assert(updated(updated(m)) =~= updated(m));
}

/// A missing state wants no update.
pub proof fn lemma_missing_state_wants_no_update()
    ensures
        state_entries(None) matches Some(m) && update_count(m) == 0,
{
}

/// The texts of a list, apart from blank ones, are the paths in it.
pub proof fn lemma_paths_are_the_texts(items: Seq<JsonView>, s: Seq<char>)
    ensures
        paths_in(JsonView::Array(items)).contains(s) <==> !text::all_white(s) && items.contains(
            JsonView::Text(s),
        ),
        paths_in(JsonView::Array(Seq::empty())) == Seq::<Seq<char>>::empty(),
        !text::all_white(s) ==> paths_in(JsonView::Array(items.push(JsonView::Text(s))))
            == paths_in(JsonView::Array(items)).push(s),
    decreases items.len(),
{
    text::lemma_blank_is_white_space(s);
    assert(items.push(JsonView::Text(s)).drop_last() =~= items);
    if items.len() > 0 {
        let init = items.drop_last();
        lemma_paths_are_the_texts(init, s);
        assert(items =~= init.push(items.last()));
        text::lemma_push_contains(init, items.last(), JsonView::Text(s));
        if let JsonView::Text(t) = items.last() {
            text::lemma_push_contains(texts_among(init), t, s);
        }
    }
}

/// In a list of workspace paths that is brought into form, every path that is not blank
/// is still represented, nothing comes in that was not there, no path stands twice, and
/// the paths keep the order in which they first come up. That holds of the active
/// workspaces as of the saved ones and of the order of projects.
pub proof fn lemma_path_list_is_brought_into_form(
    m: Map<Seq<char>, JsonView>,
    key: Seq<char>,
    items: Seq<JsonView>,
)
    requires
        key == "electron-saved-workspace-roots"@ || key == "project-order"@ || key
            == "active-workspace-roots"@,
        m.contains_key(key),
        m[key] == JsonView::Array(items),
    ensures
        updated(m).contains_key(key),
        updated(m)[key] is Array,
        forall|i: int|
            0 <= i < items.len() ==> (#[trigger] items[i] matches JsonView::Text(s) ==> (
            workspace::desktop_path(s) matches Some(p) ==> is_represented(
                updated(m)[key]->Array_0,
                p,
            ))),
        forall|j: int|
            0 <= j < updated(m)[key]->Array_0.len() ==> comes_from(
                #[trigger] updated(m)[key]->Array_0[j],
                items,
            ),
        forall|j: int, k: int|
            0 <= j < k < updated(m)[key]->Array_0.len() ==> workspace::comparable(
                (#[trigger] updated(m)[key]->Array_0[j])->Text_0,
            ) != workspace::comparable((#[trigger] updated(m)[key]->Array_0[k])->Text_0),
        forall|j: int, k: int|
            0 <= j < k < updated(m)[key]->Array_0.len() ==> comes_up_before(
                paths_in(m[key]),
                (#[trigger] updated(m)[key]->Array_0[j])->Text_0,
                (#[trigger] updated(m)[key]->Array_0[k])->Text_0,
            ),
{
    lemma_key_names();
    let v = m[key];
    let paths = paths_in(v);
    let forms = workspace::deduped(paths);
    let next = updated(m)[key]->Array_0;
    assert(normal_entry(m, key) == Some(text_array(forms)));
    assert(normalized(m).contains_key(key));
    assert(next == forms.map_values(|s: Seq<char>| JsonView::Text(s)));
    workspace::lemma_deduped_distinct(paths);
    assert forall|i: int| 0 <= i < items.len() implies (
    #[trigger] items[i] matches JsonView::Text(s) ==> (workspace::desktop_path(s) matches Some(p)
        ==> is_represented(next, p))) by {
        if let JsonView::Text(s) = items[i] {
            if let Some(p) = workspace::desktop_path(s) {
                lemma_paths_are_the_texts(items, s);
                workspace::lemma_only_blank_paths_have_no_form(s);
                assert(items.contains(JsonView::Text(s)));
                let n = choose|n: int| 0 <= n < paths.len() && paths[n] == s;
                workspace::lemma_deduped_represents(paths, n);
                let j = choose|j: int|
                    0 <= j < workspace::comparables(forms).len() && workspace::comparables(forms)[j]
                        == workspace::comparable(p);
                assert(next[j] == JsonView::Text(forms[j]));
            }
        }
    }
    assert forall|j: int| 0 <= j < next.len() implies comes_from(#[trigger] next[j], items) by {
        workspace::lemma_deduped_comes_from_paths(paths, j);
        let n = choose|n: int|
            0 <= n < paths.len() && workspace::desktop_path(#[trigger] paths[n]) == Some(forms[j]);
        lemma_paths_are_the_texts(items, paths[n]);
        assert(paths.contains(paths[n]));
        let i = choose|i: int| 0 <= i < items.len() && items[i] == JsonView::Text(paths[n]);
        assert(items[i] == JsonView::Text(paths[n]));
        assert(next[j] == JsonView::Text(forms[j]));
    }
    assert forall|j: int, k: int| 0 <= j < k < next.len() implies workspace::comparable(
        (#[trigger] next[j])->Text_0,
    ) != workspace::comparable((#[trigger] next[k])->Text_0) by {
        assert(workspace::comparables(forms)[j] != workspace::comparables(forms)[k]);
    }
    assert forall|j: int, k: int| 0 <= j < k < next.len() implies comes_up_before(
        paths,
        (#[trigger] next[j])->Text_0,
        (#[trigger] next[k])->Text_0,
    ) by {
        lemma_deduped_order(paths, j, k);
    }
}

/// Whether a list of texts holds a path that compares equal to `p`.
pub open spec fn is_represented(items: Seq<JsonView>, p: Seq<char>) -> bool {
    exists|j: int|
        0 <= j < items.len() && (#[trigger] items[j] matches JsonView::Text(q)
            && workspace::comparable(q) == workspace::comparable(p))
}

/// Whether a value is the desktop form of a text of a list.
pub open spec fn comes_from(v: JsonView, items: Seq<JsonView>) -> bool {
    exists|i: int|
        0 <= i < items.len() && (#[trigger] items[i] matches JsonView::Text(s) && (
        workspace::desktop_path(s) matches Some(p) && v == JsonView::Text(p)))
}

/// Whether a path has the form `p` before any has a form that compares equal to `q`.
pub open spec fn comes_up_before(paths: Seq<Seq<char>>, p: Seq<char>, q: Seq<char>) -> bool {
    exists|a: int|
        #![trigger paths[a]]
        0 <= a < paths.len() && workspace::desktop_path(paths[a]) == Some(p) && forall|b: int|
            0 <= b < paths.len() && (workspace::desktop_path(#[trigger] paths[b]) matches Some(x)
                && workspace::comparable(x) == workspace::comparable(q)) ==> a < b
}

proof fn lemma_deduped_order(paths: Seq<Seq<char>>, j: int, k: int)
    requires
        0 <= j < k < workspace::deduped(paths).len(),
    ensures
        comes_up_before(paths, workspace::deduped(paths)[j], workspace::deduped(paths)[k]),
    decreases paths.len(),
{
    let d = workspace::deduped(paths);
    let init = paths.drop_last();
    let before = workspace::deduped(init);
    let n = paths.len() - 1;
    assert(d[j] == before[j]);
    if k < before.len() {
        lemma_deduped_order(init, j, k);
        let a = choose|a: int|
            #![trigger init[a]]
            0 <= a < init.len() && workspace::desktop_path(init[a]) == Some(before[j]) && forall|
                b: int,
            |
                0 <= b < init.len() && (workspace::desktop_path(#[trigger] init[b]) matches Some(x)
                    && workspace::comparable(x) == workspace::comparable(before[k])) ==> a < b;
        assert(paths[a] == init[a]);
        assert forall|b: int|
            0 <= b < paths.len() && (workspace::desktop_path(#[trigger] paths[b]) matches Some(x)
                && workspace::comparable(x) == workspace::comparable(d[k])) implies a < b by {
            if b < n {
                assert(init[b] == paths[b]);
            }
        }
    } else {
        workspace::lemma_deduped_comes_from_paths(init, j);
        let a = choose|a: int|
            0 <= a < init.len() && workspace::desktop_path(#[trigger] init[a]) == Some(before[j]);
        assert(paths[a] == init[a]);
        assert forall|b: int|
            0 <= b < paths.len() && (workspace::desktop_path(#[trigger] paths[b]) matches Some(x)
                && workspace::comparable(x) == workspace::comparable(d[k])) implies a < b by {
            if b < n {
                assert(init[b] == paths[b]);
                workspace::lemma_deduped_represents(init, b);
            }
        }
    }
}

proof fn lemma_key_names()
    ensures
        "electron-saved-workspace-roots"@ != "active-workspace-roots"@,
        "electron-saved-workspace-roots"@ != "electron-workspace-root-labels"@,
        "electron-saved-workspace-roots"@ != "open-in-target-preferences"@,
        "project-order"@ != "active-workspace-roots"@,
        "project-order"@ != "electron-workspace-root-labels"@,
        "project-order"@ != "open-in-target-preferences"@,
        "active-workspace-roots"@ != "electron-workspace-root-labels"@,
        "active-workspace-roots"@ != "open-in-target-preferences"@,
        "electron-workspace-root-labels"@ != "open-in-target-preferences"@,
        "electron-saved-workspace-roots"@ != "project-order"@,
{
    reveal_strlit("electron-saved-workspace-roots");
    reveal_strlit("project-order");
    reveal_strlit("active-workspace-roots");
    reveal_strlit("electron-workspace-root-labels");
    reveal_strlit("open-in-target-preferences");
    assert("electron-saved-workspace-roots"@.len() == 30);
    assert("project-order"@.len() == 13);
    assert("active-workspace-roots"@.len() == 22);
    assert("electron-workspace-root-labels"@.len() == 30);
    assert("open-in-target-preferences"@.len() == 26);
    assert("electron-saved-workspace-roots"@[9] == 's');
    assert("electron-workspace-root-labels"@[9] == 'w');
}

/// A single active workspace stays a single path, in desktop form. One path in place of a
/// list of saved workspaces or of projects becomes a list of that path. What is neither a
/// text nor a list is left alone as the active workspace, and is no path anywhere else.
pub proof fn lemma_single_path_is_brought_into_form(
    m: Map<Seq<char>, JsonView>,
    key: Seq<char>,
)
    requires
        key == "electron-saved-workspace-roots"@ || key == "project-order"@ || key
            == "active-workspace-roots"@,
        m.contains_key(key),
        !(m[key] is Array),
    ensures
        updated(m).contains_key(key),
        m[key] matches JsonView::Text(s) ==> (workspace::desktop_path(s) matches Some(p) ==> (
        updated(m)[key] == if key == "active-workspace-roots"@ {
            JsonView::Text(p)
        } else {
            JsonView::Array(seq![JsonView::Text(p)])
        })),
        (m[key] matches JsonView::Text(s) ==> text::all_white(s)) ==> updated(m)[key] == if key
            == "active-workspace-roots"@ {
            m[key]
        } else {
            JsonView::Array(Seq::empty())
        },
{
    lemma_key_names();
    let paths = paths_in(m[key]);
    let forms = workspace::deduped(paths);
    assert(normalized(m).contains_key(key));
    assert(workspace::deduped(Seq::<Seq<char>>::empty()) == Seq::<Seq<char>>::empty());
    if let JsonView::Text(s) = m[key] {
        text::lemma_blank_is_white_space(s);
        workspace::lemma_only_blank_paths_have_no_form(s);
        if let Some(p) = workspace::desktop_path(s) {
            assert(paths =~= seq![s]);
            assert(paths.drop_last() =~= Seq::<Seq<char>>::empty());
            assert(paths.last() == s);
            assert(!workspace::comparables(Seq::<Seq<char>>::empty()).contains(
                workspace::comparable(p),
            ));
            assert(forms =~= seq![p]);
            assert(text_array(forms)->Array_0 =~= seq![JsonView::Text(p)]);
        } else {
            assert(paths =~= Seq::<Seq<char>>::empty());
            assert(text_array(forms)->Array_0 =~= Seq::<JsonView>::empty());
        }
    } else {
        assert(paths =~= Seq::<Seq<char>>::empty());
        assert(text_array(forms)->Array_0 =~= Seq::<JsonView>::empty());
    }
}

/// The form that a key gets: its desktop form, or the key itself where it is blank.
pub proof fn lemma_form_of_a_key(key: Seq<char>)
    ensures
        workspace::desktop_path(key) matches Some(p) ==> resolved_key(key) == p,
        text::all_white(key) ==> resolved_key(key) == key,
{
    workspace::lemma_only_blank_paths_have_no_form(key);
}

/// Where keys are brought into form, no entry is lost and none is made up: each form of a
/// key is there, with the value of the key that has it; of several keys with one form the
/// last in order counts.
pub proof fn lemma_keys_are_brought_into_form(m: Map<Seq<char>, JsonView>, key: Seq<char>)
    requires
        m.contains_key(key),
        forall|other: Seq<char>|
            #![trigger m.contains_key(other)]
            m.contains_key(other) && other != key && resolved_key(other) == resolved_key(key)
                ==> text::text_less(other, key),
    ensures
        resolved(m).contains_key(resolved_key(key)),
        resolved(m)[resolved_key(key)] == m[key],
        forall|k: Seq<char>| #[trigger]
            resolved(m).contains_key(k) <==> exists|source: Seq<char>| #[trigger]
                m.contains_key(source) && resolved_key(source) == k,
{
    let k = resolved_key(key);
    assert(has_source(m, k));
    assert(is_last_source(m, key));
    let chosen = choose|c: Seq<char>| #[trigger] is_last_source(m, c) && resolved_key(c) == k;
    assert(is_last_source(m, chosen) && resolved_key(chosen) == k);
    if chosen != key {
        assert(m.contains_key(chosen));
        text::lemma_text_less_total(chosen, key);
    }
    assert forall|f: Seq<char>| #[trigger]
        resolved(m).contains_key(f) <==> exists|source: Seq<char>| #[trigger]
            m.contains_key(source) && resolved_key(source) == f by {
        assert(resolved(m).contains_key(f) == has_source(m, f));
    }
}

/// Labels of workspaces and preferences for paths move with the keys they stand under.
/// Everything else in the state stays as it is, and no entry is added or dropped.
pub proof fn lemma_rest_of_the_state_is_kept(m: Map<Seq<char>, JsonView>, key: Seq<char>)
    ensures
        updated(m).contains_key(key) == m.contains_key(key),
        m.contains_key(key) && key != "electron-saved-workspace-roots"@ && key != "project-order"@
            && key != "active-workspace-roots"@ && key != "electron-workspace-root-labels"@ && key
            != "open-in-target-preferences"@ ==> updated(m)[key] == m[key],
        m.contains_key(key) && key == "electron-workspace-root-labels"@ ==> updated(m)[key] == (
        match m[key] {
            JsonView::Object(labels) => JsonView::Object(resolved(labels)),
            other => other,
        }),
        m.contains_key(key) && key == "open-in-target-preferences"@ ==> match m[key] {
            JsonView::Object(t) => updated(m)[key] matches JsonView::Object(next) && next.dom()
                == t.dom() && (forall|k: Seq<char>|
                k != "perPath"@ && #[trigger] t.contains_key(k) ==> next[k] == t[k]) && (
            t.contains_key("perPath"@) ==> next["perPath"@] == (match t["perPath"@] {
                JsonView::Object(p) => JsonView::Object(resolved(p)),
                other => other,
            })),
            other => updated(m)[key] == other,
        },
{
    lemma_key_names();
    assert(normalized(m).contains_key(key) == (normal_entry(m, key) is Some));
    if m.contains_key(key) && key == "open-in-target-preferences"@ {
        if let JsonView::Object(t) = m[key] {
            let next = normal_targets(t);
            assert(updated(m)[key] == JsonView::Object(next));
            assert(next.dom() =~= t.dom());
        }
    }
}

/// The number of updates is that of the entries that hold paths and are not in form. With
/// none of them the state is as it was, for all that `serde_json` can tell.
pub proof fn lemma_count_of_updates(m: Map<Seq<char>, JsonView>)
    ensures
        ({
            let changed = |key: Seq<char>|
                m.contains_key(key) && updated(m)[key] != m[key] && !json::values_equal(
                    m[key],
                    updated(m)[key],
                );
            let one = |b: bool|
                if b {
                    1nat
                } else {
                    0nat
                };
            (forall|v: JsonView| #[trigger] json::values_equal(v, v)) ==> update_count(m) == one(
                changed("electron-saved-workspace-roots"@),
            ) + one(changed("project-order"@)) + one(changed("active-workspace-roots"@)) + one(
                changed("electron-workspace-root-labels"@),
            ) + one(changed("open-in-target-preferences"@))
        }),
{
    lemma_key_names();
    assert forall|key: Seq<char>| normal_entry(m, key) is Some implies #[trigger] updated(m)[key]
        == normal_entry(m, key)->0 by {
        assert(normalized(m).contains_key(key));
    }
    assert forall|key: Seq<char>| normal_entry(m, key) is None && m.contains_key(
        key,
    ) implies #[trigger] updated(m)[key] == m[key] by {
        assert(!normalized(m).contains_key(key));
    }
    let a = updated(m)["electron-saved-workspace-roots"@];
    let b = updated(m)["project-order"@];
    let c = updated(m)["active-workspace-roots"@];
    let d = updated(m)["electron-workspace-root-labels"@];
    let e = updated(m)["open-in-target-preferences"@];
}

/// The entries of a state are those of its object; a missing state and one of another kind
/// have none, and one that is no JSON cannot be read.
pub proof fn lemma_entries_of_a_state(content: Seq<char>)
    ensures
        state_entries(None) == Some(Map::<Seq<char>, JsonView>::empty()),
        json::parsed_json(content) is None ==> state_entries(Some(content)) is None,
        json::parsed_json(content) matches Some(v) ==> (v matches JsonView::Object(m)
            ==> state_entries(Some(content)) == Some(m)),
        json::parsed_json(content) matches Some(v) ==> !(v is Object) ==> state_entries(
            Some(content),
        ) == Some(Map::<Seq<char>, JsonView>::empty()),
{
}

/// A thread belongs to no project where the list of such threads names it; a blank name is
/// none, and what is no list names nobody.
pub proof fn lemma_threads_without_a_project(m: Map<Seq<char>, JsonView>, id: Seq<char>)
    ensures
        projectless_ids(m).contains(id) <==> m.contains_key("projectless-thread-ids"@) && (
        m["projectless-thread-ids"@] matches JsonView::Array(items) && items.contains(
            JsonView::Text(id),
        ) && !text::all_white(id)),
        projectless_ids(m).no_duplicates(),
{
    if m.contains_key("projectless-thread-ids"@) {
        if let JsonView::Array(items) = m["projectless-thread-ids"@] {
            lemma_paths_are_the_texts(items, id);
            text::lemma_with_texts(Seq::empty(), texts_among(items));
        }
    }
}

} // verus!
