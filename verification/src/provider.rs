//! Providers: which one the configuration names, which ones are known, and which
//! one a synchronisation is to make all sessions belong to.

use crate::text;
use vstd::prelude::*;

verus! {

pub const DEFAULT_PROVIDER: &'static str = "openai";

// ---------------------------------------------------------------------------
// Provider ids
// ---------------------------------------------------------------------------
/// Whether a text can be given as the id of a target provider.
pub open spec fn is_explicit_id(s: Seq<char>) -> bool {
    s.len() > 0 && forall|i: int|
        0 <= i < s.len() ==> text::is_alphanumeric(#[trigger] s[i]) || s[i] == '_' || s[i] == '-'
            || s[i] == '.'
}

/// Whether a text that was found can be the id of a provider.
pub open spec fn is_discoverable(s: Seq<char>) -> bool {
    !text::is_blank(s) && forall|i: int| 0 <= i < s.len() ==> !text::is_control(#[trigger] s[i])
}

/// Whether a provider may be asked for by this name.
pub fn is_valid_explicit_provider_id(value: &str) -> (r: bool)
    ensures
        r == is_explicit_id(value@),
{
    let x = text::to_chars(value);
    if x.len() == 0 {
        return false;
    }
    let mut i: usize = 0;
    while i < x.len()
        invariant
            i <= x.len(),
            x@ == value@,
            forall|k: int|
                0 <= k < i ==> text::is_alphanumeric(#[trigger] x@[k]) || x@[k] == '_' || x@[k]
                    == '-' || x@[k] == '.',
        decreases x.len() - i,
    {
        let c = x[i];
        if !(text::alphanumeric(c) || c == '_' || c == '-' || c == '.') {
            assert(!is_explicit_id(x@));
            return false;
        }
        i += 1;
    }
    true
}

/// Whether a name that was found is that of a provider.
pub fn is_valid_provider_id_for_discovery(value: &str) -> (r: bool)
    ensures
        r == is_discoverable(value@),
{
    if text::blank(value) {
        return false;
    }
    let x = text::to_chars(value);
    let mut i: usize = 0;
    while i < x.len()
        invariant
            i <= x.len(),
            x@ == value@,
            forall|k: int| 0 <= k < i ==> !text::is_control(#[trigger] x@[k]),
        decreases x.len() - i,
    {
        if text::control(x[i]) {
            assert(text::is_control(x@[i as int]));
            return false;
        }
        i += 1;
    }
    true
}

// ---------------------------------------------------------------------------
// The configuration file
// ---------------------------------------------------------------------------
/// What stands behind a key and an equals sign.
pub open spec fn raw_value(line: Seq<char>, key: Seq<char>) -> Option<Seq<char>> {
    if text::starts(line, key) {
        let rest = text::trim_start(line.skip(key.len() as int));
        if rest.len() > 0 && rest[0] == '=' {
            Some(text::trim_start(rest.skip(1)))
        } else {
            None
        }
    } else {
        None
    }
}

/// What stands before the closing quote. In double quotes a backslash takes the
/// next character as it is.
pub open spec fn quoted_value(s: Seq<char>, quote: char, escaping: bool) -> Option<Seq<char>>
    decreases s.len(),
{
    if s.len() == 0 {
        None
    } else if quote == '"' && escaping {
        match quoted_value(s.skip(1), quote, false) {
            Some(v) => Some(seq![s[0]] + v),
            None => None,
        }
    } else if quote == '"' && s[0] == '\\' {
        quoted_value(s.skip(1), quote, true)
    } else if s[0] == quote {
        Some(Seq::empty())
    } else {
        match quoted_value(s.skip(1), quote, escaping) {
            Some(v) => Some(seq![s[0]] + v),
            None => None,
        }
    }
}

/// The text that a quoted value holds.
pub open spec fn string_value(raw: Seq<char>) -> Option<Seq<char>> {
    if raw.len() > 0 && (raw[0] == '"' || raw[0] == '\'') {
        quoted_value(raw.skip(1), raw[0], false)
    } else {
        None
    }
}

/// The text under a key before the first table of a configuration.
pub open spec fn root_value(lines: Seq<Seq<char>>, key: Seq<char>) -> Option<Seq<char>>
    decreases lines.len(),
{
    if lines.len() == 0 {
        None
    } else {
        let line = text::trim(text::line_body(lines[0]));
        if text::starts(line, "["@) {
            None
        } else {
            match raw_value(line, key) {
                Some(raw) => string_value(raw),
                None => root_value(lines.skip(1), key),
            }
        }
    }
}

/// What stands behind a key and an equals sign.
pub fn toml_key_raw_value(line: &str, key: &str) -> (r: Option<String>)
    ensures
        text::text_of(r) == raw_value(line@, key@),
{
    match text::strip_prefix_text(line, key) {
        Some(rest) => {
            let rest = text::trim_start_text(rest.as_str());
            proof {
                reveal_strlit("=");
                if rest@.len() > 0 && rest@[0] == '=' {
                    assert(rest@.take(1) =~= "="@);
                }
                if text::starts(rest@, "="@) {
                    assert(rest@.take(1)[0] == "="@[0]);
                }
            }
            match text::strip_prefix_text(rest.as_str(), "=") {
                Some(raw) => Some(text::trim_start_text(raw.as_str())),
                None => None,
            }
        },
        None => None,
    }
}

/// The text in quotes that a raw value begins with.
pub fn toml_string_value(raw: &str) -> (r: Option<String>)
    ensures
        text::text_of(r) == string_value(raw@),
{
    let x = text::to_chars(raw);
    if x.len() == 0 {
        return None;
    }
    let quote = x[0];
    if quote != '"' && quote != '\'' {
        return None;
    }
    let mut value = String::new();
    let mut escaping = false;
    let mut i: usize = 1;
    proof {
        if let Some(v) = quoted_value(x@.skip(1), quote, false) {
            assert(value@ + v =~= v);
        }
    }
    while i < x.len()
        invariant
            1 <= i <= x.len(),
            x@ == raw@,
            quote == x@[0],
            quote == '"' || quote == '\'',
            string_value(raw@) == match quoted_value(x@.skip(i as int), quote, escaping) {
                Some(v) => Some(value@ + v),
                None => None,
            },
        decreases x.len() - i,
    {
        let c = x[i];
        let ghost rest = x@.skip(i as int);
        proof {
            assert(rest.skip(1) =~= x@.skip(i + 1));
            assert(rest[0] == c);
            assert forall|v: Seq<char>| #[trigger] (value@ + (seq![c] + v)) =~= value@.push(c)
                + v by {}
        }
        if quote == '"' && escaping {
            value.push(c);
            escaping = false;
        } else if quote == '"' && c == '\\' {
            escaping = true;
        } else if c == quote {
            assert(value@ + Seq::<char>::empty() =~= value@);
            return Some(value);
        } else {
            value.push(c);
        }
        i += 1;
    }
    None
}

/// The text under a key at the top of a configuration.
pub fn root_toml_string_value(config: &str, key: &str) -> (r: Option<String>)
    ensures
        text::text_of(r) == root_value(text::lines_of(config@, '\n'), key@),
{
    let lines = text::text_lines(config);
    let ghost all = text::texts(lines@);
    let mut i: usize = 0;
    assert(all.skip(0) =~= all);
    while i < lines.len()
        invariant
            i <= lines.len(),
            all == text::texts(lines@),
            all == text::lines_of(config@, '\n'),
            root_value(all, key@) == root_value(all.skip(i as int), key@),
        decreases lines.len() - i,
    {
        assert(all.skip(i as int).skip(1) =~= all.skip(i + 1));
        assert(all.skip(i as int)[0] == lines@[i as int]@);
        let line = text::trim_text(text::line_body_text(lines[i].as_str()).as_str());
        if text::starts_with_text(line.as_str(), "[") {
            return None;
        }
        if let Some(raw) = toml_key_raw_value(line.as_str(), key) {
            return toml_string_value(raw.as_str());
        }
        i += 1;
    }
    None
}

/// The provider that a configuration names; the default one where there is no
/// configuration or it names none.
pub open spec fn current_provider(config: Option<Seq<char>>) -> Seq<char> {
    match config {
        None => DEFAULT_PROVIDER@,
        Some(s) => match root_value(text::lines_of(s, '\n'), "model_provider"@) {
            Some(p) => if text::is_blank(p) {
                DEFAULT_PROVIDER@
            } else {
                p
            },
            None => DEFAULT_PROVIDER@,
        },
    }
}

/// The provider that is configured, or the usual one.
pub fn read_current_provider(config: Option<&str>) -> (r: String)
    ensures
        r@ == current_provider(text::str_of(config)),
{
    if let Some(s) = config {
        if let Some(p) = root_toml_string_value(s, "model_provider") {
            if !text::blank(p.as_str()) {
                return p;
            }
        }
    }
    text::copy_text(DEFAULT_PROVIDER)
}

/// What `std` prints of a text with `{:?}`.
pub uninterp spec fn debug_quoted(s: Seq<char>) -> Seq<char>;

/// `format!` with `{:?}` on a `str`: the text in quotes, with escapes. The result
/// depends on the text alone.
#[verifier::external_body]
fn debug_text(s: &str) -> (r: String)
    ensures
        r@ == debug_quoted(s@),
{
    format!("{:?}", s)
}

/// The provider that a synchronisation is to aim at, or what is wrong with the one
/// that was asked for.
pub open spec fn target_of(
    config: Option<Seq<char>>,
    explicit: Option<Seq<char>>,
) -> Result<Seq<char>, Seq<char>> {
    match explicit {
        None => Ok(current_provider(config)),
        Some(raw) => {
            let wanted = text::trim(raw);
            if wanted.len() == 0 {
                Ok(current_provider(config))
            } else if is_explicit_id(wanted) {
                Ok(wanted)
            } else {
                Err("Invalid provider sync target: "@ + debug_quoted(wanted))
            }
        },
    }
}

pub open spec fn result_view(r: Result<String, String>) -> Result<Seq<char>, Seq<char>> {
    match r {
        Ok(s) => Ok(s@),
        Err(s) => Err(s@),
    }
}

/// The provider that is aimed at: the one that is asked for, or the one that is
/// configured.
pub fn resolve_target_provider(config: Option<&str>, explicit_target_provider: Option<&str>) -> (r:
    Result<String, String>)
    ensures
        result_view(r) == target_of(text::str_of(config), text::str_of(explicit_target_provider)),
{
    match explicit_target_provider {
        None => Ok(read_current_provider(config)),
        Some(raw) => {
            let wanted = text::trim_text(raw);
            if text::empty_text(wanted.as_str()) {
                return Ok(read_current_provider(config));
            }
            if !is_valid_explicit_provider_id(wanted.as_str()) {
                return Err(
                    text::join_text(
                        "Invalid provider sync target: ",
                        debug_text(wanted.as_str()).as_str(),
                    ),
                );
            }
            Ok(wanted)
        },
    }
}

/// The provider that a line of a configuration begins a table for.
pub open spec fn section_provider(line: Seq<char>) -> Option<Seq<char>> {
    let s = text::trim(text::line_body(line));
    if text::starts(s, "[model_providers."@) && text::ends(s.skip(17), "]"@) {
        let id = text::trim(s.skip(17).take(s.len() - 18));
        if is_discoverable(id) {
            Some(id)
        } else {
            None
        }
    } else {
        None
    }
}

/// The providers that lines of a configuration begin tables for.
pub open spec fn section_providers(lines: Seq<Seq<char>>) -> Seq<Seq<char>>
    decreases lines.len(),
{
    if lines.len() == 0 {
        seq![DEFAULT_PROVIDER@]
    } else {
        let before = section_providers(lines.drop_last());
        match section_provider(lines.last()) {
            Some(id) => text::with_text(before, id),
            None => before,
        }
    }
}

/// The default provider and those that a configuration has tables for.
pub open spec fn configured(config: Option<Seq<char>>) -> Seq<Seq<char>> {
    match config {
        None => seq![DEFAULT_PROVIDER@],
        Some(s) => section_providers(text::lines_of(s, '\n')),
    }
}

/// Whether `v` lists what `ids` holds and is not blank, once each, in order.
pub open spec fn is_sorted_ids(v: Seq<Seq<char>>, ids: Seq<Seq<char>>) -> bool {
    text::ascending(v) && forall|s: Seq<char>| #[trigger]
        v.contains(s) <==> ids.contains(s) && !text::is_blank(s)
}

/// The ids that are not blank, each once, in order.
pub fn sorted_provider_ids(ids: &Vec<String>) -> (r: Vec<String>)
    ensures
        is_sorted_ids(text::texts(r@), text::texts(ids@)),
{
    let ghost all = text::texts(ids@);
    let mut out: Vec<String> = Vec::new();
    let mut i: usize = 0;
    while i < ids.len()
        invariant
            i <= ids.len(),
            all == text::texts(ids@),
            is_sorted_ids(text::texts(out@), all.take(i as int)),
        decreases ids.len() - i,
    {
        let ghost before = text::texts(out@);
        if !text::blank(ids[i].as_str()) {
            text::insert_ascending(&mut out, text::copy_text(ids[i].as_str()));
        }
        proof {
            let part = all.take(i as int);
            assert(all.take(i + 1) =~= part.push(all[i as int]));
            assert forall|s: Seq<char>| #[trigger]
                text::texts(out@).contains(s) <==> all.take(i + 1).contains(s) && !text::is_blank(
                    s,
                ) by {
                text::lemma_push_contains(part, all[i as int], s);
                assert(before.contains(s) <==> part.contains(s) && !text::is_blank(s));
            }
        }
        i += 1;
    }
    assert(all.take(i as int) =~= all);
    out
}

fn section_provider_text(line: &str) -> (r: Option<String>)
    ensures
        text::text_of(r) == section_provider(line@),
{
    proof {
        reveal_strlit("[model_providers.");
        reveal_strlit("]");
    }
    let s = text::trim_text(text::line_body_text(line).as_str());
    match text::strip_prefix_text(s.as_str(), "[model_providers.") {
        Some(rest) => match text::strip_suffix_text(rest.as_str(), "]") {
            Some(section) => {
                let id = text::trim_text(section.as_str());
                if is_valid_provider_id_for_discovery(id.as_str()) {
                    Some(id)
                } else {
                    None
                }
            },
            None => None,
        },
        None => None,
    }
}

/// The default provider and those that a configuration has tables for, in order.
pub fn list_configured_provider_ids(config: Option<&str>) -> (r: Vec<String>)
    ensures
        is_sorted_ids(text::texts(r@), configured(text::str_of(config))),
{
    let mut ids: Vec<String> = Vec::new();
    ids.push(text::copy_text(DEFAULT_PROVIDER));
    assert(text::texts(ids@) =~= seq![DEFAULT_PROVIDER@]);
    if let Some(s) = config {
        let lines = text::text_lines(s);
        let ghost all = text::texts(lines@);
        let mut i: usize = 0;
        while i < lines.len()
            invariant
                i <= lines.len(),
                all == text::texts(lines@),
                text::texts(ids@) == section_providers(all.take(i as int)),
            decreases lines.len() - i,
        {
            assert(all.take(i + 1).drop_last() =~= all.take(i as int));
            assert(all.take(i + 1).last() == lines@[i as int]@);
            if let Some(id) = section_provider_text(lines[i].as_str()) {
                text::insert_text(&mut ids, id);
            }
            i += 1;
        }
        assert(all.take(i as int) =~= all);
    }
    sorted_provider_ids(&ids)
}

/// The providers that rollout files name, which can be ids of providers.
pub fn rollout_provider_ids(found: &Vec<Vec<String>>) -> (r: Vec<String>)
    ensures
        text::ascending(text::texts(r@)),
        forall|s: Seq<char>| #[trigger]
            text::texts(r@).contains(s) <==> is_discoverable(s) && any_lists(found@, s),
{
    let mut ids: Vec<String> = Vec::new();
    collect_discoverable(found, &mut ids);
    let r = sorted_provider_ids(&ids);
    r
}

/// Whether one of the lists holds a text.
pub open spec fn any_lists(lists: Seq<Vec<String>>, s: Seq<char>) -> bool {
    exists|i: int| 0 <= i < lists.len() && text::texts((#[trigger] lists[i])@).contains(s)
}

fn collect_discoverable(lists: &Vec<Vec<String>>, ids: &mut Vec<String>)
    requires
        old(ids)@.len() == 0,
    ensures
        forall|s: Seq<char>| #[trigger]
            text::texts(final(ids)@).contains(s) <==> is_discoverable(s) && any_lists(lists@, s),
{
    let mut i: usize = 0;
    assert(text::texts(ids@) =~= Seq::<Seq<char>>::empty());
    while i < lists.len()
        invariant
            i <= lists.len(),
            forall|s: Seq<char>| #[trigger]
                text::texts(ids@).contains(s) <==> is_discoverable(s) && any_lists(
                    lists@.take(i as int),
                    s,
                ),
        decreases lists.len() - i,
    {
        let ghost before = text::texts(ids@);
        add_discoverable(&lists[i], ids);
        proof {
            let list = text::texts(lists@[i as int]@);
            assert forall|s: Seq<char>| #[trigger]
                text::texts(ids@).contains(s) <==> is_discoverable(s) && any_lists(
                    lists@.take(i + 1),
                    s,
                ) by {
                assert(before.contains(s) <==> is_discoverable(s) && any_lists(
                    lists@.take(i as int),
                    s,
                ));
                if any_lists(lists@.take(i as int), s) {
                    let k = choose|k: int|
                        0 <= k < lists@.take(i as int).len() && text::texts(
                            (#[trigger] lists@.take(i as int)[k])@,
                        ).contains(s);
                    assert(lists@.take(i + 1)[k] == lists@.take(i as int)[k]);
                }
                if list.contains(s) {
                    assert(lists@.take(i + 1)[i as int] == lists@[i as int]);
                }
                if any_lists(lists@.take(i + 1), s) {
                    let k = choose|k: int|
                        0 <= k < lists@.take(i + 1).len() && text::texts(
                            (#[trigger] lists@.take(i + 1)[k])@,
                        ).contains(s);
                    if k < i {
                        assert(lists@.take(i as int)[k] == lists@.take(i + 1)[k]);
                    }
                }
            }
        }
        i += 1;
    }
    assert(lists@.take(i as int) =~= lists@);
}

/// Adds those of `more` that can be ids of providers.
fn add_discoverable(more: &Vec<String>, ids: &mut Vec<String>)
    ensures
        forall|s: Seq<char>| #[trigger]
            text::texts(final(ids)@).contains(s) <==> text::texts(old(ids)@).contains(s) || (
            is_discoverable(s) && text::texts(more@).contains(s)),
{
    let ghost all = text::texts(more@);
    let ghost start = text::texts(ids@);
    let mut i: usize = 0;
    while i < more.len()
        invariant
            i <= more.len(),
            all == text::texts(more@),
            forall|s: Seq<char>| #[trigger]
                text::texts(ids@).contains(s) <==> start.contains(s) || (is_discoverable(s)
                    && all.take(i as int).contains(s)),
        decreases more.len() - i,
    {
        let ghost before = text::texts(ids@);
        if is_valid_provider_id_for_discovery(more[i].as_str()) {
            text::insert_text(ids, text::copy_text(more[i].as_str()));
        }
        proof {
            let part = all.take(i as int);
            assert(all.take(i + 1) =~= part.push(all[i as int]));
            assert forall|s: Seq<char>| #[trigger]
                text::texts(ids@).contains(s) <==> start.contains(s) || (is_discoverable(s)
                    && all.take(i + 1).contains(s)) by {
                text::lemma_push_contains(part, all[i as int], s);
                text::lemma_push_contains(before, all[i as int], s);
                assert(before.contains(s) <==> start.contains(s) || (is_discoverable(s)
                    && part.contains(s)));
            }
        }
        i += 1;
    }
    assert(all.take(i as int) =~= all);
}

// ---------------------------------------------------------------------------
// Targets
// ---------------------------------------------------------------------------
/// Where a target provider was found.
#[derive(Clone, Copy, PartialEq, Eq, PartialOrd, Ord, Hash, Structural, Debug)]
pub enum ProviderSyncTargetSource {
    Config,
    Rollout,
    Sqlite,
    Manual,
}

/// A provider that a synchronisation can aim at.
#[derive(Debug)]
pub struct ProviderSyncTargetOption {
    pub id: String,
    pub sources: Vec<ProviderSyncTargetSource>,
    pub is_current_provider: bool,
    pub is_manual: bool,
    pub is_saved: bool,
}

#[derive(Debug)]
pub struct ProviderSyncTargetList {
    pub current_provider: String,
    pub targets: Vec<ProviderSyncTargetOption>,
}

/// Where ids of providers were found.
pub struct FoundIds {
    pub config: Option<Seq<char>>,
    pub rollout: Seq<Seq<char>>,
    pub sqlite: Seq<Vec<String>>,
}

pub open spec fn found_in_config(f: FoundIds, id: Seq<char>) -> bool {
    (configured(f.config).contains(id) && !text::is_blank(id)) || id == current_provider(f.config)
}

/// Whether an id is one that a synchronisation can aim at.
pub open spec fn is_target(f: FoundIds, id: Seq<char>) -> bool {
    is_discoverable(id) && (found_in_config(f, id) || f.rollout.contains(id) || any_lists(
        f.sqlite,
        id,
    ))
}

/// Where an id was found, in the order of the sources.
pub open spec fn sources_of(f: FoundIds, id: Seq<char>) -> Seq<ProviderSyncTargetSource> {
    (if found_in_config(f, id) {
        seq![ProviderSyncTargetSource::Config]
    } else {
        Seq::empty()
    }) + (if f.rollout.contains(id) {
        seq![ProviderSyncTargetSource::Rollout]
    } else {
        Seq::empty()
    }) + (if any_lists(f.sqlite, id) {
        seq![ProviderSyncTargetSource::Sqlite]
    } else {
        Seq::empty()
    })
}

/// Whether a target stands before another: the current provider first, the others
/// in the order of their ids.
pub open spec fn stands_before(a: ProviderSyncTargetOption, b: ProviderSyncTargetOption) -> bool {
    (a.is_current_provider && !b.is_current_provider) || (a.is_current_provider
        == b.is_current_provider && text::text_less(a.id@, b.id@))
}

/// Whether a target is described as it was found.
pub open spec fn describes(t: ProviderSyncTargetOption, f: FoundIds) -> bool {
    &&& is_target(f, t.id@)
    &&& t.sources@ == sources_of(f, t.id@)
    &&& t.is_current_provider == (t.id@ == current_provider(f.config))
    &&& !t.is_manual
    &&& !t.is_saved
}

/// What the ids of targets are.
pub open spec fn target_ids(targets: Seq<ProviderSyncTargetOption>) -> Seq<Seq<char>> {
    targets.map_values(|t: ProviderSyncTargetOption| t.id@)
}

/// Whether a list of targets is complete, described and in order.
pub open spec fn lists_targets(targets: Seq<ProviderSyncTargetOption>, f: FoundIds) -> bool {
    &&& forall|i: int| 0 <= i < targets.len() ==> describes(#[trigger] targets[i], f)
    &&& forall|i: int, j: int| 0 <= i < j < targets.len() ==> stands_before(targets[i], targets[j])
    &&& forall|id: Seq<char>| #[trigger] is_target(f, id) ==> target_ids(targets).contains(id)
}

/// Whether a text is among the first `n` of a list.
spec fn among_first(v: Seq<Seq<char>>, n: int, s: Seq<char>) -> bool {
    exists|j: int| 0 <= j < n && v[j] == s
}

fn list_holds(lists: &Vec<Vec<String>>, id: &str) -> (r: bool)
    ensures
        r == any_lists(lists@, id@),
{
    let mut i: usize = 0;
    while i < lists.len()
        invariant
            i <= lists.len(),
            forall|k: int| 0 <= k < i ==> !text::texts((#[trigger] lists@[k])@).contains(id@),
        decreases lists.len() - i,
    {
        if text::contains_text(&lists[i], id) {
            assert(text::texts(lists@[i as int]@).contains(id@));
            return true;
        }
        i += 1;
    }
    false
}

/// The providers that a synchronisation can aim at, from the configuration and
/// from what was found in rollout files and databases.
pub fn load_provider_sync_targets(
    config: Option<&str>,
    rollout_ids: &Vec<String>,
    sqlite_ids: &Vec<Vec<String>>,
) -> (r: ProviderSyncTargetList)
    ensures
        r.current_provider@ == current_provider(text::str_of(config)),
        lists_targets(
            r.targets@,
            FoundIds {
                config: text::str_of(config),
                rollout: text::texts(rollout_ids@),
                sqlite: sqlite_ids@,
            },
        ),
{
    let ghost f = FoundIds {
        config: text::str_of(config),
        rollout: text::texts(rollout_ids@),
        sqlite: sqlite_ids@,
    };
    let current = read_current_provider(config);
    let configured_ids = list_configured_provider_ids(config);
    let mut own: Vec<String> = Vec::new();
    own.push(text::copy_text(current.as_str()));
    proof {
        assert(text::texts(own@) =~= seq![current@]);
        assert forall|s: Seq<char>| text::texts(own@).contains(s) <==> s == current@ by {
            if s == current@ {
                assert(text::texts(own@)[0] == s);
            }
        }
    }
    let mut found: Vec<String> = Vec::new();
    collect_discoverable(sqlite_ids, &mut found);
    let ghost f0 = text::texts(found@);
    add_discoverable(rollout_ids, &mut found);
    let ghost f1 = text::texts(found@);
    add_discoverable(&own, &mut found);
    let ghost f2 = text::texts(found@);
    add_discoverable(&configured_ids, &mut found);
    let ids = text::sorted_set(&found);
    proof {
        assert forall|s: Seq<char>| #[trigger] text::texts(ids@).contains(s) <==> is_target(f, s) by {
            assert(text::texts(found@).contains(s) <==> f2.contains(s) || (is_discoverable(s)
                && text::texts(configured_ids@).contains(s)));
            assert(f2.contains(s) <==> f1.contains(s) || (is_discoverable(s) && text::texts(
                own@,
            ).contains(s)));
            assert(f1.contains(s) <==> f0.contains(s) || (is_discoverable(s) && text::texts(
                rollout_ids@,
            ).contains(s)));
            assert(f0.contains(s) <==> is_discoverable(s) && any_lists(sqlite_ids@, s));
        }
    }
    let mut targets: Vec<ProviderSyncTargetOption> = Vec::new();
    let ghost listed = text::texts(ids@);
    let mut i: usize = 0;
    // The current provider comes first.
    if text::contains_text(&ids, current.as_str()) {
        assert(is_target(f, current@));
        let t = describe_target(
            current.as_str(),
            true,
            &configured_ids,
            rollout_ids,
            sqlite_ids,
            Ghost(f),
        );
        targets.push(t);
    }
    let ghost first = targets@;
    while i < ids.len()
        invariant
            i <= ids.len(),
            listed == text::texts(ids@),
            text::ascending(listed),
            forall|s: Seq<char>| #[trigger] listed.contains(s) <==> is_target(f, s),
            current@ == current_provider(f.config),
            is_sorted_ids(text::texts(configured_ids@), configured(f.config)),
            f.rollout == text::texts(rollout_ids@),
            f.sqlite == sqlite_ids@,
            first.len() <= 1,
            first.len() == 1 <==> listed.contains(current@),
            forall|k: int| 0 <= k < first.len() ==> (#[trigger] first[k]).id@ == current@,
            first.is_prefix_of(targets@),
            forall|k: int| 0 <= k < targets@.len() ==> describes(#[trigger] targets@[k], f),
            forall|a: int, b: int|
                0 <= a < b < targets@.len() ==> stands_before(targets@[a], targets@[b]),
            forall|k: int|
                first.len() <= k < targets@.len() ==> among_first(
                    listed,
                    i as int,
                    (#[trigger] targets@[k]).id@,
                ) && targets@[k].id@ != current@,
            forall|j: int|
                0 <= j < i ==> target_ids(targets@).contains(#[trigger] listed[j]) || listed[j]
                    == current@,
        decreases ids.len() - i,
    {
        let ghost before = targets@;
        let ghost id = listed[i as int];
        assert(listed.contains(id));
        if !text::same_text(ids[i].as_str(), current.as_str()) {
            let t = describe_target(
                ids[i].as_str(),
                false,
                &configured_ids,
                rollout_ids,
                sqlite_ids,
                Ghost(f),
            );
            targets.push(t);
            proof {
                let n = before.len() as int;
                assert(target_ids(targets@) =~= target_ids(before).push(id));
                assert forall|j: int| 0 <= j < i + 1 implies target_ids(targets@).contains(
                    #[trigger] listed[j],
                ) || listed[j] == current@ by {
                    text::lemma_push_contains(target_ids(before), id, listed[j]);
                }
                assert forall|a: int, b: int| 0 <= a < b < targets@.len() implies stands_before(
                    targets@[a],
                    targets@[b],
                ) by {
                    if b == n {
                        if a < first.len() {
                            assert(targets@[a] == first[a]);
                        } else {
                            assert(targets@[a] == before[a]);
                            let j = choose|j: int| 0 <= j < i && listed[j] == before[a].id@;
                            assert(text::text_less(listed[j], listed[i as int]));
                            assert(describes(before[a], f));
                        }
                    }
                }
                assert forall|k: int| first.len() <= k < targets@.len() implies among_first(
                    listed,
                    i + 1,
                    (#[trigger] targets@[k]).id@,
                ) && targets@[k].id@ != current@ by {
                    if k == n {
                        assert(listed[i as int] == targets@[k].id@);
                    } else {
                        assert(targets@[k] == before[k]);
                    }
                }
            }
        }
        i += 1;
    }
    proof {
        assert forall|id: Seq<char>| #[trigger] is_target(f, id) implies target_ids(
            targets@,
        ).contains(id) by {
            assert(listed.contains(id));
            let j = choose|j: int| 0 <= j < listed.len() && listed[j] == id;
            if id == current@ {
                assert(first.len() == 1);
                assert(targets@[0] == first[0]);
                assert(target_ids(targets@)[0] == id);
            } else {
                assert(target_ids(targets@).contains(listed[j]) || listed[j] == current@);
            }
        }
    }
    ProviderSyncTargetList { current_provider: current, targets }
}

fn describe_target(
    id: &str,
    is_current: bool,
    configured_ids: &Vec<String>,
    rollout_ids: &Vec<String>,
    sqlite_ids: &Vec<Vec<String>>,
    Ghost(f): Ghost<FoundIds>,
) -> (r: ProviderSyncTargetOption)
    requires
        is_target(f, id@),
        is_current == (id@ == current_provider(f.config)),
        is_sorted_ids(text::texts(configured_ids@), configured(f.config)),
        f.rollout == text::texts(rollout_ids@),
        f.sqlite == sqlite_ids@,
    ensures
        r.id@ == id@,
        describes(r, f),
{
    let mut sources: Vec<ProviderSyncTargetSource> = Vec::new();
    if is_current || text::contains_text(configured_ids, id) {
        sources.push(ProviderSyncTargetSource::Config);
    }
    if text::contains_text(rollout_ids, id) {
        sources.push(ProviderSyncTargetSource::Rollout);
    }
    if list_holds(sqlite_ids, id) {
        sources.push(ProviderSyncTargetSource::Sqlite);
    }
    assert(sources@ =~= sources_of(f, id@));
    ProviderSyncTargetOption {
        id: text::copy_text(id),
        sources,
        is_current_provider: is_current,
        is_manual: false,
        is_saved: false,
    }
}

/// No provider is listed twice, and the current one is never behind another.
pub proof fn lemma_targets_are_distinct(targets: Seq<ProviderSyncTargetOption>, f: FoundIds)
    requires
        lists_targets(targets, f),
    ensures
        target_ids(targets).no_duplicates(),
        forall|i: int|
            0 < i < targets.len() ==> (#[trigger] targets[i]).id@ != current_provider(f.config),
        is_discoverable(current_provider(f.config)) ==> targets.len() > 0 && targets[0].id@
            == current_provider(f.config),
{
    assert forall|i: int, j: int|
        0 <= i < j < target_ids(targets).len() implies target_ids(targets)[i] != target_ids(
        targets,
    )[j] by {
        assert(stands_before(targets[i], targets[j]));
        assert(describes(targets[i], f) && describes(targets[j], f));
        text::lemma_text_less_total(targets[i].id@, targets[j].id@);
    }
    assert forall|i: int| 0 < i < targets.len() implies (#[trigger] targets[i]).id@
        != current_provider(f.config) by {
        assert(stands_before(targets[0], targets[i]));
        assert(describes(targets[0], f) && describes(targets[i], f));
        text::lemma_text_less_total(targets[0].id@, targets[i].id@);
    }
    if is_discoverable(current_provider(f.config)) {
        assert(is_target(f, current_provider(f.config)));
        let k = choose|k: int|
            0 <= k < target_ids(targets).len() && target_ids(targets)[k] == current_provider(
                f.config,
            );
        assert(targets[k].id@ == current_provider(f.config));
    }
}

// ---------------------------------------------------------------------------
// Laws of the configuration
// ---------------------------------------------------------------------------
/// White space may stand on either side of the equals sign, or none: what stands behind it
/// is the value of the key.
pub proof fn lemma_value_stands_behind_the_key(
    key: Seq<char>,
    w1: Seq<char>,
    w2: Seq<char>,
    v: Seq<char>,
)
    requires
        text::all_white(w1),
        text::all_white(w2),
        v.len() > 0 ==> !text::is_white_space(v[0]),
    ensures
        raw_value(key + w1 + seq!['='] + w2 + v, key) == Some(v),
{
    let line = key + w1 + seq!['='] + w2 + v;
    let behind = seq!['='] + (w2 + v);
    assert(line.take(key.len() as int) =~= key);
    assert(line.skip(key.len() as int) =~= w1 + behind);
    assert(behind[0] == '=');
    text::lemma_trim_start_takes_white_space_off(w1, behind);
    assert(behind.skip(1) =~= w2 + v);
    text::lemma_trim_start_takes_white_space_off(w2, v);
}

/// A line without the key at its front, or without an equals sign as the first thing
/// behind it, gives the key no value.
pub proof fn lemma_no_value_without_key_and_equals_sign(line: Seq<char>, key: Seq<char>)
    requires
        raw_value(line, key) is Some,
    ensures
        exists|w1: Seq<char>, w2: Seq<char>|
            text::all_white(w1) && text::all_white(w2) && line == #[trigger] (key + w1 + seq!['=']
                + w2 + raw_value(line, key)->0),
{
    let behind = line.skip(key.len() as int);
    let rest = text::trim_start(behind);
    let v = text::trim_start(rest.skip(1));
    text::lemma_trim_start_splits(behind);
    text::lemma_trim_start_splits(rest.skip(1));
    let w1 = behind.take(behind.len() - rest.len());
    let w2 = rest.skip(1).take(rest.len() - 1 - v.len());
    assert(behind =~= w1 + rest);
    assert(rest =~= seq!['='] + w2 + v);
    assert(line.take(key.len() as int) == key);
    assert(line =~= key + behind);
    assert(raw_value(line, key)->0 == v);
    assert(line =~= key + w1 + seq!['='] + w2 + raw_value(line, key)->0);
    assert(text::all_white(w1) && text::all_white(w2));
}

/// Whether a text can stand between these quotes as it is.
pub open spec fn plain_between(p: Seq<char>, quote: char) -> bool {
    forall|i: int| 0 <= i < p.len() ==> #[trigger] p[i] != quote && (quote == '"' ==> p[i] != '\\')
}

proof fn lemma_quoted_plain(p: Seq<char>, s: Seq<char>, quote: char)
    requires
        plain_between(p, quote),
    ensures
        quoted_value(p + s, quote, false) == match quoted_value(s, quote, false) {
            Some(v) => Some(p + v),
            None => None,
        },
    decreases p.len(),
{
    if p.len() == 0 {
        assert(p + s =~= s);
        if let Some(v) = quoted_value(s, quote, false) {
            assert(p + v =~= v);
        }
    } else {
        let q = p.skip(1);
        assert((p + s).skip(1) =~= q + s);
        assert((p + s)[0] == p[0]);
        assert(p[0] != quote && (quote == '"' ==> p[0] != '\\'));
        assert forall|i: int| 0 <= i < q.len() implies #[trigger] q[i] != quote && (quote == '"'
            ==> q[i] != '\\') by {
            assert(p[i + 1] != quote);
        }
        lemma_quoted_plain(q, s, quote);
        if let Some(v) = quoted_value(s, quote, false) {
            assert(seq![p[0]] + (q + v) =~= p + v);
        }
    }
}

/// A text in quotes, single or double, is given back without them, whatever stands behind
/// the closing quote.
pub proof fn lemma_quoted_text_is_given_back(p: Seq<char>, quote: char, rest: Seq<char>)
    requires
        quote == '"' || quote == '\'',
        plain_between(p, quote),
    ensures
        string_value(seq![quote] + p + seq![quote] + rest) == Some(p),
{
    let raw = seq![quote] + p + seq![quote] + rest;
    let s = seq![quote] + rest;
    assert(raw.skip(1) =~= p + s);
    lemma_quoted_plain(p, s, quote);
    assert(s[0] == quote);
    assert(p + Seq::<char>::empty() =~= p);
}

/// In double quotes a backslash takes the next character as it is, be it a quote or a
/// backslash; in single quotes it stands for itself.
pub proof fn lemma_backslash_takes_the_next_character(
    p: Seq<char>,
    c: char,
    q: Seq<char>,
    rest: Seq<char>,
)
    requires
        plain_between(p, '"'),
        plain_between(q, '"'),
    ensures
        string_value(seq!['"'] + p + seq!['\\', c] + q + seq!['"'] + rest) == Some(p.push(c) + q),
{
    let raw = seq!['"'] + p + seq!['\\', c] + q + seq!['"'] + rest;
    let tail = seq!['"'] + rest;
    let s = q + tail;
    let u = seq![c] + s;
    let t = seq!['\\'] + u;
    assert(raw.skip(1) =~= p + t);
    lemma_quoted_plain(p, t, '"');
    lemma_quoted_plain(q, tail, '"');
    assert(tail[0] == '"');
    assert(q + Seq::<char>::empty() =~= q);
    assert(t[0] == '\\');
    assert(t.skip(1) =~= u);
    assert(u[0] == c);
    assert(u.skip(1) =~= s);
    assert(quoted_value(u, '"', true) == Some(seq![c] + q));
    assert(p + (seq![c] + q) =~= p.push(c) + q);
}

/// A value without a quote at its front, or without a closing one, is no text.
pub proof fn lemma_text_needs_both_quotes(raw: Seq<char>)
    ensures
        raw.len() == 0 || (raw[0] != '"' && raw[0] != '\'') ==> string_value(raw) is None,
        raw.len() > 0 && plain_between(raw.skip(1), raw[0]) ==> string_value(raw) is None,
{
    if raw.len() > 0 && plain_between(raw.skip(1), raw[0]) {
        let p = raw.skip(1);
        lemma_quoted_plain(p, Seq::empty(), raw[0]);
        assert(p + Seq::<char>::empty() =~= p);
    }
}

proof fn lemma_assignment_line(
    w0: Seq<char>,
    key: Seq<char>,
    w1: Seq<char>,
    w2: Seq<char>,
    quote: char,
    p: Seq<char>,
    tail: Seq<char>,
)
    requires
        text::all_white(w0),
        text::all_white(w1),
        text::all_white(w2),
        key.len() > 0,
        !text::is_white_space(key[0]),
        key[0] != '[',
        quote == '"' || quote == '\'',
        plain_between(p, quote),
    ensures
        ({
            let line = text::trim(
                w0 + (key + w1 + seq!['='] + w2 + seq![quote] + p + seq![quote]) + tail,
            );
            &&& !text::starts(line, "["@)
            &&& raw_value(line, key) matches Some(raw) && string_value(raw) == Some(p)
        }),
{
    let x = key + w1 + seq!['='] + w2 + seq![quote] + p + seq![quote];
    assert(x[0] == key[0]);
    assert(x.last() == quote);
    let whole = w0 + x + tail;
    assert(whole =~= w0 + (x + tail));
    assert((x + tail)[0] == key[0]);
    text::lemma_trim_start_takes_white_space_off(w0, x + tail);
    text::lemma_trim_end_behind(x, tail);
    let t = text::trim_end(tail);
    let line = text::trim(whole);
    assert(line == x + t);
    let v = seq![quote] + p + seq![quote] + t;
    assert(line =~= key + w1 + seq!['='] + w2 + v);
    assert(v[0] == quote);
    lemma_value_stands_behind_the_key(key, w1, w2, v);
    lemma_quoted_text_is_given_back(p, quote, t);
    reveal_strlit("[");
    if text::starts(line, "["@) {
        assert(line.take(1)[0] == '[');
    }
}

/// The provider that a configuration names is the text that is assigned to
/// `model_provider` in its first line, whatever white space stands around the key and the
/// equals sign, whatever follows the closing quote, and whatever lines follow.
pub proof fn lemma_configured_provider_is_current(
    w0: Seq<char>,
    w1: Seq<char>,
    w2: Seq<char>,
    quote: char,
    p: Seq<char>,
    tail: Seq<char>,
    more: Seq<char>,
)
    requires
        text::all_white(w0),
        text::all_white(w1),
        text::all_white(w2),
        !w0.contains('\n'),
        !w1.contains('\n'),
        !w2.contains('\n'),
        quote == '"' || quote == '\'',
        plain_between(p, quote),
        !p.contains('\n'),
        !text::is_blank(p),
        !tail.contains('\n'),
    ensures
        ({
            let line = w0 + ("model_provider"@ + w1 + seq!['='] + w2 + seq![quote] + p
                + seq![quote]) + tail;
            &&& current_provider(Some(line)) == p
            &&& current_provider(Some(line.push('\n') + more)) == p
        }),
{
    reveal_strlit("model_provider");
    let key = "model_provider"@;
    let x = key + w1 + seq!['='] + w2 + seq![quote] + p + seq![quote];
    let line = w0 + x + tail;
    assert(x[0] == 'm');
    assert(x.last() == quote);
    assert(!line.contains('\n')) by {
        if line.contains('\n') {
            let i = choose|i: int| 0 <= i < line.len() && line[i] == '\n';
            let a = w0.len();
            let b = a + key.len();
            let c = b + w1.len();
            let d = c + 1 + w2.len();
            let e = d + 1 + p.len();
            if i < a {
                assert(w0[i] == '\n');
            } else if i < b {
                assert(key[i - a] == '\n');
            } else if i < c {
                assert(w1[i - b] == '\n');
            } else if i == c {
                assert(line[i] == '=');
            } else if i < d {
                assert(w2[i - c - 1] == '\n');
            } else if i == d {
                assert(line[i] == quote);
            } else if i < e {
                assert(p[i - d - 1] == '\n');
            } else if i == e {
                assert(line[i] == quote);
            } else {
                assert(tail[i - e - 1] == '\n');
            }
        }
    }
    text::lemma_first_line(line, more, '\n');
    let whole = seq![line.push('\n')] + text::lines_of(more, '\n');
    assert(whole[0] == line.push('\n'));
    assert(text::line_body(line) == line) by {
        text::lemma_line_body(line);
    }
    lemma_assignment_line(w0, key, w1, w2, quote, p, tail);
    if line.last() == '\r' {
        assert(tail.len() > 0) by {
            if tail.len() == 0 {
                assert(line.last() == quote);
            }
        }
        let short = tail.drop_last();
        let body = w0 + x + short;
        assert(line =~= body.push('\r'));
        text::lemma_line_body(body);
        lemma_assignment_line(w0, key, w1, w2, quote, p, short);
    } else {
        text::lemma_line_body(line);
    }
}

/// Lines that give the key no value and begin no table are passed over; the first table
/// ends the search.
pub proof fn lemma_search_ends_at_the_first_table(
    line: Seq<char>,
    lines: Seq<Seq<char>>,
    key: Seq<char>,
)
    requires
        raw_value(text::trim(text::line_body(line)), key) is None,
    ensures
        ({
            let s = text::trim(text::line_body(line));
            &&& s.len() > 0 && s[0] == '[' ==> root_value(seq![line] + lines, key) is None
            &&& !(s.len() > 0 && s[0] == '[') ==> root_value(seq![line] + lines, key)
                == root_value(lines, key)
        }),
{
    let s = text::trim(text::line_body(line));
    assert((seq![line] + lines).skip(1) =~= lines);
    assert((seq![line] + lines)[0] == line);
    reveal_strlit("[");
    if s.len() > 0 && s[0] == '[' {
        assert(s.take(1) =~= "["@);
    }
    if text::starts(s, "["@) {
        assert(s.take(1)[0] == '[');
    }
}

/// Without a configuration, without a value in it and with a blank one, the provider is
/// the default one.
pub proof fn lemma_default_provider(config: Seq<char>)
    ensures
        current_provider(None) == "openai"@,
        root_value(text::lines_of(config, '\n'), "model_provider"@) is None ==> current_provider(
            Some(config),
        ) == "openai"@,
        root_value(text::lines_of(config, '\n'), "model_provider"@) matches Some(p) ==> (
        text::is_blank(p) ==> current_provider(Some(config)) == "openai"@) && (!text::is_blank(p)
            ==> current_provider(Some(config)) == p),
{
}

/// A provider that is asked for comes before the one that is configured, without the white
/// space around it. It can only consist of letters, digits, underscores, hyphens and dots;
/// any other is refused. A blank one is as good as none.
pub proof fn lemma_target_is_the_one_asked_for(
    config: Option<Seq<char>>,
    before: Seq<char>,
    id: Seq<char>,
    after: Seq<char>,
)
    requires
        text::all_white(before),
        text::all_white(after),
        id.len() > 0 ==> !text::is_white_space(id[0]) && !text::is_white_space(id.last()),
    ensures
        target_of(config, None) == Ok::<Seq<char>, Seq<char>>(current_provider(config)),
        ({
            let r = target_of(config, Some(before + id + after));
            let allowed = forall|i: int|
                0 <= i < id.len() ==> ('0' <= #[trigger] id[i] <= '9' || 'a' <= id[i] <= 'z' || 'A'
                    <= id[i] <= 'Z' || id[i] == '_' || id[i] == '-' || id[i] == '.');
            &&& id.len() == 0 ==> r == Ok::<Seq<char>, Seq<char>>(current_provider(config))
            &&& id.len() > 0 && allowed ==> r == Ok::<Seq<char>, Seq<char>>(id)
            &&& id.len() > 0 && !allowed ==> r == Err::<Seq<char>, Seq<char>>(
                "Invalid provider sync target: "@ + debug_quoted(id),
            )
        }),
{
    text::lemma_trim_takes_white_space_off(before, id, after);
    if id.len() > 0 && forall|i: int|
        0 <= i < id.len() ==> ('0' <= #[trigger] id[i] <= '9' || 'a' <= id[i] <= 'z' || 'A'
            <= id[i] <= 'Z' || id[i] == '_' || id[i] == '-' || id[i] == '.') {
        assert(is_explicit_id(id));
    }
    if is_explicit_id(id) {
        assert forall|i: int| 0 <= i < id.len() implies ('0' <= #[trigger] id[i] <= '9' || 'a'
            <= id[i] <= 'z' || 'A' <= id[i] <= 'Z' || id[i] == '_' || id[i] == '-' || id[i]
            == '.') by {
            assert(text::is_alphanumeric(id[i]) || id[i] == '_' || id[i] == '-' || id[i] == '.');
        }
    }
}

/// A line that begins a table for a provider makes the provider known: white space around
/// the line and around the name is of no matter. A name that is blank or holds a control
/// character is passed over.
pub proof fn lemma_table_makes_a_provider_known(
    before: Seq<char>,
    w1: Seq<char>,
    id: Seq<char>,
    w2: Seq<char>,
    after: Seq<char>,
)
    requires
        text::all_white(before),
        text::all_white(w1),
        text::all_white(w2),
        text::all_white(after),
        !before.contains('\n'),
        !after.contains('\n'),
        !w1.contains('\n'),
        !w2.contains('\n'),
        !id.contains('\n'),
        id.len() > 0 ==> !text::is_white_space(id[0]) && !text::is_white_space(id.last()),
    ensures
        ({
            let line = before + ("[model_providers."@ + w1 + id + w2 + seq![']']) + after;
            section_provider(line) == if id.len() > 0 && forall|i: int|
                0 <= i < id.len() ==> (#[trigger] id[i] as u32) >= 0x20 && !(0x7f <= id[i] as u32
                    <= 0x9f) {
                Some(id)
            } else {
                None
            }
        }),
{
    reveal_strlit("[model_providers.");
    reveal_strlit("]");
    let head = "[model_providers."@;
    let s = head + w1 + id + w2 + seq![']'];
    let line = before + s + after;
    assert(s[0] == '[');
    assert(s.last() == ']');
    assert(!line.contains('\n')) by {
        if line.contains('\n') {
            let i = choose|i: int| 0 <= i < line.len() && line[i] == '\n';
            let a = before.len();
            let b = a + head.len();
            let c = b + w1.len();
            let d = c + id.len();
            let e = d + w2.len();
            if i < a {
                assert(before[i] == '\n');
            } else if i < b {
                assert(head[i - a] == '\n');
            } else if i < c {
                assert(w1[i - b] == '\n');
            } else if i < d {
                assert(id[i - c] == '\n');
            } else if i < e {
                assert(w2[i - d] == '\n');
            } else if i == e {
                assert(line[i] == ']');
            } else {
                assert(after[i - e - 1] == '\n');
            }
        }
    }
    text::lemma_line_body(line);
    text::lemma_trim_takes_white_space_off(before, s, after);
    assert(s.take(17) =~= head);
    let behind = s.skip(17);
    assert(behind.skip(behind.len() - 1) =~= "]"@);
    assert(behind.take(s.len() - 18) =~= w1 + id + w2);
    text::lemma_trim_takes_white_space_off(w1, id, w2);
    text::lemma_blank_is_white_space(id);
    if id.len() > 0 {
        assert(!text::is_blank(id));
        if is_discoverable(id) {
            assert forall|i: int| 0 <= i < id.len() implies (#[trigger] id[i] as u32) >= 0x20
                && !(0x7f <= id[i] as u32 <= 0x9f) by {
                assert(!text::is_control(id[i]));
            }
        } else {
            let i = choose|i: int| 0 <= i < id.len() && text::is_control(#[trigger] id[i]);
            assert(!((id[i] as u32) >= 0x20 && !(0x7f <= id[i] as u32 <= 0x9f)));
        }
    }
}

/// The default provider is always known, and so is every provider that a line begins a
/// table for; no other is.
pub proof fn lemma_known_providers(config: Seq<char>, id: Seq<char>)
    ensures
        configured(None).contains(id) <==> id == "openai"@,
        configured(Some(config)).contains(id) <==> id == "openai"@ || exists|i: int|
            0 <= i < text::lines_of(config, '\n').len() && section_provider(
                #[trigger] text::lines_of(config, '\n')[i],
            ) == Some(id),
{
    assert(seq![DEFAULT_PROVIDER@][0] == "openai"@);
    lemma_section_providers(text::lines_of(config, '\n'), id);
}

proof fn lemma_section_providers(lines: Seq<Seq<char>>, id: Seq<char>)
    ensures
        section_providers(lines).contains(id) <==> id == DEFAULT_PROVIDER@ || exists|i: int|
            0 <= i < lines.len() && section_provider(#[trigger] lines[i]) == Some(id),
    decreases lines.len(),
{
    if lines.len() == 0 {
        assert(seq![DEFAULT_PROVIDER@][0] == DEFAULT_PROVIDER@);
    } else {
        let init = lines.drop_last();
        let n = lines.len() - 1;
        lemma_section_providers(init, id);
        if let Some(p) = section_provider(lines.last()) {
            text::lemma_push_contains(section_providers(init), p, id);
        }
        if exists|i: int| 0 <= i < init.len() && section_provider(#[trigger] init[i]) == Some(id) {
            let i = choose|i: int|
                0 <= i < init.len() && section_provider(#[trigger] init[i]) == Some(id);
            assert(lines[i] == init[i]);
        }
        if exists|i: int| 0 <= i < lines.len() && section_provider(#[trigger] lines[i]) == Some(
            id,
        ) {
            let i = choose|i: int|
                0 <= i < lines.len() && section_provider(#[trigger] lines[i]) == Some(id);
            if i < n {
                assert(init[i] == lines[i]);
            }
        }
        if section_provider(lines.last()) == Some(id) {
            assert(section_provider(lines[n]) == Some(id));
        }
    }
}

/// A target says of itself where it was found: in the configuration where the configuration
/// has a table for it, where it is the default provider and where it is the current one; in
/// rollout files and in databases where one of them names it. One that was found nowhere is
/// not listed, and every other is listed that is neither blank nor holds a control
/// character.
pub proof fn lemma_target_tells_where_it_was_found(
    targets: Seq<ProviderSyncTargetOption>,
    f: FoundIds,
    i: int,
)
    requires
        lists_targets(targets, f),
        0 <= i < targets.len(),
    ensures
        ({
            let t = targets[i];
            let in_config = configured(f.config).contains(t.id@) || t.id@ == current_provider(
                f.config,
            );
            let in_databases = exists|k: int|
                0 <= k < f.sqlite.len() && text::texts((#[trigger] f.sqlite[k])@).contains(t.id@);
            &&& t.sources@.contains(ProviderSyncTargetSource::Config) <==> in_config
            &&& t.sources@.contains(ProviderSyncTargetSource::Rollout) <==> f.rollout.contains(
                t.id@,
            )
            &&& t.sources@.contains(ProviderSyncTargetSource::Sqlite) <==> in_databases
            &&& !t.sources@.contains(ProviderSyncTargetSource::Manual)
            &&& t.sources@.no_duplicates()
            &&& t.sources@.len() > 0
            &&& t.is_current_provider <==> t.id@ == current_provider(f.config)
            &&& !text::all_white(t.id@)
            &&& !t.is_manual && !t.is_saved
            &&& forall|j: int|
                0 < i < j < targets.len() ==> text::text_less(t.id@, (#[trigger] targets[j]).id@)
        }),
{
    let t = targets[i];
    assert(describes(t, f));
    text::lemma_blank_is_white_space(t.id@);
    let a = found_in_config(f, t.id@);
    let b = f.rollout.contains(t.id@);
    let c = any_lists(f.sqlite, t.id@);
    let s = t.sources@;
    if a {
        assert(s[0] == ProviderSyncTargetSource::Config);
    }
    if b {
        assert(s[if a {
            1int
        } else {
            0
        }] == ProviderSyncTargetSource::Rollout);
    }
    if c {
        assert(s[s.len() - 1] == ProviderSyncTargetSource::Sqlite);
    }
    assert forall|j: int| 0 < i < j < targets.len() implies text::text_less(
        t.id@,
        (#[trigger] targets[j]).id@,
    ) by {
        assert(stands_before(targets[i], targets[j]));
        lemma_targets_are_distinct(targets, f);
    }
}

/// A text can be found as the id of a provider where it is not blank and holds no control
/// character; white space at its ends is of no matter.
pub proof fn lemma_which_ids_can_be_found(s: Seq<char>)
    ensures
        is_discoverable(s) <==> !text::all_white(s) && forall|i: int|
            0 <= i < s.len() ==> (#[trigger] s[i] as u32) >= 0x20 && !(0x7f <= s[i] as u32
                <= 0x9f),
{
    text::lemma_blank_is_white_space(s);
    if is_discoverable(s) {
        assert forall|i: int| 0 <= i < s.len() implies (#[trigger] s[i] as u32) >= 0x20 && !(0x7f
            <= s[i] as u32 <= 0x9f) by {
            assert(!text::is_control(s[i]));
        }
    }
}

/// A sorted list of ids holds those that are not blank, each once, in order.
pub proof fn lemma_sorted_ids(v: Seq<Seq<char>>, ids: Seq<Seq<char>>)
    requires
        is_sorted_ids(v, ids),
    ensures
        forall|s: Seq<char>| #[trigger] v.contains(s) <==> ids.contains(s) && !text::all_white(s),
        forall|i: int, j: int| 0 <= i < j < v.len() ==> text::text_less(v[i], v[j]),
{
    assert forall|s: Seq<char>| #[trigger] v.contains(s) <==> ids.contains(s)
        && !text::all_white(s) by {
        text::lemma_blank_is_white_space(s);
    }
}

/// Every id that was found and can be one is a target, wherever it was found.
pub proof fn lemma_every_id_found_is_a_target(
    targets: Seq<ProviderSyncTargetOption>,
    f: FoundIds,
    id: Seq<char>,
)
    requires
        lists_targets(targets, f),
        is_discoverable(id),
        configured(f.config).contains(id) || id == current_provider(f.config)
            || f.rollout.contains(id) || exists|k: int|
            0 <= k < f.sqlite.len() && text::texts((#[trigger] f.sqlite[k])@).contains(id),
    ensures
        exists|i: int| 0 <= i < targets.len() && (#[trigger] targets[i]).id@ == id,
{
    assert(is_target(f, id));
    let i = choose|i: int| 0 <= i < target_ids(targets).len() && target_ids(targets)[i] == id;
    assert(targets[i].id@ == id);
}

/// A text with a backslash before each of its characters.
pub open spec fn all_escaped(v: Seq<char>) -> Seq<char>
    decreases v.len(),
{
    if v.len() == 0 {
        Seq::empty()
    } else {
        seq!['\\', v[0]] + all_escaped(v.skip(1))
    }
}

/// Any text can stand in double quotes, with a backslash before each of its characters.
pub proof fn lemma_every_character_can_be_escaped(v: Seq<char>, rest: Seq<char>)
    ensures
        string_value(seq!['"'] + all_escaped(v) + seq!['"'] + rest) == Some(v),
{
    let raw = seq!['"'] + all_escaped(v) + seq!['"'] + rest;
    lemma_quoted_escaped(v, seq!['"'] + rest);
    assert(raw.skip(1) =~= all_escaped(v) + (seq!['"'] + rest));
    assert((seq!['"'] + rest)[0] == '"');
    assert(v + Seq::<char>::empty() =~= v);
}

proof fn lemma_quoted_escaped(v: Seq<char>, s: Seq<char>)
    ensures
        quoted_value(all_escaped(v) + s, '"', false) == match quoted_value(s, '"', false) {
            Some(w) => Some(v + w),
            None => None,
        },
    decreases v.len(),
{
    if v.len() == 0 {
        assert(all_escaped(v) + s =~= s);
        if let Some(w) = quoted_value(s, '"', false) {
            assert(v + w =~= w);
        }
    } else {
        let r = v.skip(1);
        lemma_quoted_escaped(r, s);
        let t = all_escaped(r) + s;
        let u = seq![v[0]] + t;
        let whole = all_escaped(v) + s;
        assert(whole =~= seq!['\\'] + u);
        assert(whole[0] == '\\');
        assert(whole.skip(1) =~= u);
        assert(u[0] == v[0]);
        assert(u.skip(1) =~= t);
        assert(quoted_value(u, '"', true) == match quoted_value(t, '"', false) {
            Some(w) => Some(seq![u[0]] + w),
            None => None,
        });
        if let Some(w) = quoted_value(s, '"', false) {
            assert(seq![v[0]] + (r + w) =~= v + w);
        }
    }
}

/// A line makes a provider known only where it begins a table for it and holds nothing
/// else.
pub proof fn lemma_only_tables_make_a_provider_known(line: Seq<char>)
    requires
        section_provider(line) is Some,
    ensures
        ({
            let id = section_provider(line)->0;
            &&& is_discoverable(id)
            &&& text::trim(id) == id
            &&& exists|w1: Seq<char>, w2: Seq<char>|
                text::all_white(w1) && text::all_white(w2) && text::trim(text::line_body(line))
                    == #[trigger] ("[model_providers."@ + (w1 + id + w2) + seq![']'])
        }),
{
    reveal_strlit("[model_providers.");
    reveal_strlit("]");
    let s = text::trim(text::line_body(line));
    let behind = s.skip(17);
    let inner = behind.take(s.len() - 18);
    let id = section_provider(line)->0;
    text::lemma_trim_splits(inner);
    text::lemma_trimmed_is_kept(id);
    let (w1, w2) = choose|w1: Seq<char>, w2: Seq<char>|
        text::all_white(w1) && text::all_white(w2) && inner == #[trigger] (w1 + text::trim(inner)
            + w2);
    assert(s.take(17) == "[model_providers."@);
    assert(behind.skip(behind.len() - 1) == "]"@);
    assert(behind.skip(behind.len() - 1) =~= seq![']']);
    assert(behind =~= inner + behind.skip(behind.len() - 1));
    assert(s =~= s.take(17) + behind);
    assert(s =~= "[model_providers."@ + (w1 + id + w2) + seq![']']);
}

/// The sources of a target stand in their order: the configuration first, databases last.
pub proof fn lemma_order_of_sources(
    targets: Seq<ProviderSyncTargetOption>,
    f: FoundIds,
    i: int,
)
    requires
        lists_targets(targets, f),
        0 <= i < targets.len(),
    ensures
        ({
            let s = targets[i].sources@;
            &&& s.contains(ProviderSyncTargetSource::Config) ==> s[0]
                == ProviderSyncTargetSource::Config
            &&& s.contains(ProviderSyncTargetSource::Sqlite) ==> s.last()
                == ProviderSyncTargetSource::Sqlite
        }),
{
    let t = targets[i];
    assert(describes(t, f));
    lemma_target_tells_where_it_was_found(targets, f, i);
    let c = any_lists(f.sqlite, t.id@);
    if c {
        assert(t.sources@.last() == ProviderSyncTargetSource::Sqlite);
    }
}

} // verus!
