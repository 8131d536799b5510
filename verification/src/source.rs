//! How a thread tells where it came from: started by the user, or by another
//! thread on the user's behalf.

use crate::json;
use crate::json::{Json, JsonView};
use crate::text;
use vstd::prelude::*;

verus! {

/// Whether a recorded thread source names the user.
pub open spec fn names_user(thread_source: Option<Seq<char>>) -> bool {
    match thread_source {
        Some(s) => text::lower(text::trim(s)) == "user"@,
        None => false,
    }
}

/// Whether a recorded thread source names something other than a root thread.
pub open spec fn names_non_root(thread_source: Option<Seq<char>>) -> bool {
    match thread_source {
        Some(s) => text::lower(text::trim(s)) == "subagent"@ || text::lower(text::trim(s))
            == "memory_consolidation"@,
        None => false,
    }
}

/// Whether a plain source text marks a thread that is not a root thread.
pub open spec fn text_marks_non_root(s: Seq<char>) -> bool {
    let t = text::lower(text::trim(s));
    ||| t == "subagent"@
    ||| t == "internal"@
    ||| text::starts(t, "subagent_"@)
    ||| text::starts(t, "internal_"@)
}

/// Whether an object holds anything.
pub open spec fn holds_some_key(m: Map<Seq<char>, JsonView>) -> bool {
    exists|k: Seq<char>| m.contains_key(k)
}

/// Whether the value of a marker says that the mark holds. A placeholder (`null`,
/// `false`, something empty) does not.
pub open spec fn asserts_non_root(v: JsonView) -> bool {
    match v {
        JsonView::Null => false,
        JsonView::Bool(b) => b,
        JsonView::Object(m) => holds_some_key(m),
        JsonView::Array(s) => s.len() > 0,
        JsonView::Text(s) => !text::is_blank(s),
        _ => true,
    }
}

/// Whether a marker under `key` holds.
pub open spec fn marker_holds(v: JsonView, key: Seq<char>) -> bool {
    match json::field(v, key) {
        Some(value) => asserts_non_root(value),
        None => false,
    }
}

/// Whether a source value marks a thread that is not a root thread.
pub open spec fn value_marks_non_root(v: JsonView) -> bool {
    match v {
        JsonView::Object(_) => marker_holds(v, "sub_agent"@) || marker_holds(v, "subagent"@)
            || marker_holds(v, "internal"@),
        JsonView::Text(s) => text_marks_non_root(s),
        _ => false,
    }
}

/// Whether a source text, read as JSON, marks a thread that is not a root thread.
pub open spec fn structured_marks_non_root(s: Seq<char>) -> bool {
    match json::parsed_json(text::trim(s)) {
        Some(v) => value_marks_non_root(v),
        None => false,
    }
}

/// Whether a source text, plain or JSON, marks a thread that is not a root thread.
pub open spec fn marks_non_root(s: Seq<char>) -> bool {
    text_marks_non_root(text::trim(s)) || structured_marks_non_root(text::trim(s))
}

/// Whether a thread is marked as made by a user.
pub fn thread_source_is_user(thread_source: Option<&str>) -> (r: bool)
    ensures
        r == names_user(text::str_of(thread_source)),
{
    match thread_source {
        Some(s) => text::same_text(
            text::lower_text(text::trim_text(s).as_str()).as_str(),
            "user",
        ),
        None => false,
    }
}

/// Whether a thread is marked as that of a subagent.
pub fn thread_source_marks_non_root(thread_source: Option<&str>) -> (r: bool)
    ensures
        r == names_non_root(text::str_of(thread_source)),
{
    match thread_source {
        Some(s) => {
            let t = text::lower_text(text::trim_text(s).as_str());
            text::same_text(t.as_str(), "subagent") || text::same_text(
                t.as_str(),
                "memory_consolidation",
            )
        },
        None => false,
    }
}

/// Whether a source is written as that of a subagent.
pub fn source_text_marks_non_root_agent(source: &str) -> (r: bool)
    ensures
        r == text_marks_non_root(source@),
{
    let t = text::lower_text(text::trim_text(source).as_str());
    text::same_text(t.as_str(), "subagent") || text::same_text(t.as_str(), "internal")
        || text::starts_with_text(t.as_str(), "subagent_") || text::starts_with_text(
        t.as_str(),
        "internal_",
    )
}

/// Whether a marker says yes.
pub fn value_asserts_non_root_agent(value: &Json) -> (r: bool)
    ensures
        r == asserts_non_root(value@),
{
    match value {
        Json::Null => false,
        Json::Bool(b) => *b,
        Json::Object(fields) => {
            proof {
                let m = json::fields_view(fields@);
                if fields@.len() > 0 {
                    json::lemma_fields_view(fields@, fields@[0].0@);
                    assert(m.contains_key(fields@[0].0@));
                }
                if holds_some_key(m) {
                    json::lemma_fields_view(fields@, choose|k: Seq<char>| m.contains_key(k));
                }
            }
            fields.len() > 0
        },
        Json::Array(items) => {
            proof {
                json::lemma_items_view(items@);
            }
            items.len() > 0
        },
        Json::Text(s) => !text::blank(s.as_str()),
        _ => true,
    }
}

fn marker_under(value: &Json, key: &str) -> (r: bool)
    ensures
        r == marker_holds(value@, key@),
{
    match json::get(value, key) {
        Some(v) => value_asserts_non_root_agent(v),
        None => false,
    }
}

/// Whether a source in JSON is that of a subagent.
pub fn source_value_marks_non_root_agent(source: &Json) -> (r: bool)
    ensures
        r == value_marks_non_root(source@),
{
    match source {
        Json::Object(_) => marker_under(source, "sub_agent") || marker_under(source, "subagent")
            || marker_under(source, "internal"),
        Json::Text(s) => source_text_marks_non_root_agent(s.as_str()),
        _ => false,
    }
}

/// Whether a source is JSON that is that of a subagent.
pub fn source_structured_marks_non_root_agent(source: &str) -> (r: bool)
    ensures
        r == structured_marks_non_root(source@),
{
    match json::parse(text::trim_text(source).as_str()) {
        Some(v) => source_value_marks_non_root_agent(&v),
        None => false,
    }
}

/// Whether a source is that of a subagent, in whatever form.
pub fn source_marks_non_root_agent(source: &str) -> (r: bool)
    ensures
        r == marks_non_root(source@),
{
    let t = text::trim_text(source);
    source_text_marks_non_root_agent(t.as_str()) || source_structured_marks_non_root_agent(
        t.as_str(),
    )
}

/// A marker that denies itself never counts: an object whose markers are all
/// absent, `null`, `false`, blank or empty marks nothing.
pub proof fn lemma_denied_markers_do_not_count(v: JsonView)
    requires
        v is Object,
        forall|key: Seq<char>|
            (match #[trigger] json::field(v, key) {
                None => true,
                Some(JsonView::Null) => true,
                Some(JsonView::Bool(b)) => !b,
                Some(JsonView::Text(s)) => text::is_blank(s),
                Some(JsonView::Array(s)) => s.len() == 0,
                Some(JsonView::Object(m)) => m == Map::<Seq<char>, JsonView>::empty(),
                Some(_) => false,
            }),
    ensures
        !value_marks_non_root(v),
{
}

/// Who made a thread is told by one word, in any case and with white space around it: the
/// user by `user`, somebody else by `subagent` and `memory_consolidation`. Without a word
/// nobody is named.
pub proof fn lemma_one_word_names_the_source(before: Seq<char>, s: Seq<char>, after: Seq<char>)
    requires
        text::all_white(before),
        text::all_white(after),
        s.len() > 0 ==> !text::is_white_space(s[0]) && !text::is_white_space(s.last()),
    ensures
        names_user(Some(before + s + after)) <==> text::lower(s) == "user"@,
        names_non_root(Some(before + s + after)) <==> text::lower(s) == "subagent"@ || text::lower(
            s,
        ) == "memory_consolidation"@,
        !names_user(None),
        !names_non_root(None),
{
    text::lemma_trim_takes_white_space_off(before, s, after);
}

/// A plain text marks a thread that is not a root thread where it is `subagent` or
/// `internal`, or begins with one of them and an underscore, in any case.
pub proof fn lemma_plain_marks(before: Seq<char>, s: Seq<char>, after: Seq<char>)
    requires
        text::all_white(before),
        text::all_white(after),
        s.len() > 0 ==> !text::is_white_space(s[0]) && !text::is_white_space(s.last()),
    ensures
        text_marks_non_root(before + s + after) <==> text::lower(s) == "subagent"@ || text::lower(s)
            == "internal"@ || (exists|rest: Seq<char>|
            text::lower(s) == #[trigger] ("subagent_"@ + rest)) || (exists|rest: Seq<char>|
            text::lower(s) == #[trigger] ("internal_"@ + rest)),
        value_marks_non_root(JsonView::Text(before + s + after)) == text_marks_non_root(s),
{
    text::lemma_trim_takes_white_space_off(before, s, after);
    text::lemma_trimmed_is_kept(s);
    text::lemma_starts_and_ends(text::lower(s), "subagent_"@);
    text::lemma_starts_and_ends(text::lower(s), "internal_"@);
}

/// An object marks a thread that is not a root thread by what it holds under `sub_agent`,
/// `subagent` or `internal`: anything but `null`, `false`, a blank text, and a list or an
/// object without anything in it. Numbers, lists and the like mark nothing by themselves.
pub proof fn lemma_structured_marks(m: Map<Seq<char>, JsonView>)
    ensures
        ({
            let says = |key: Seq<char>|
                m.contains_key(key) && (match m[key] {
                    JsonView::Null => false,
                    JsonView::Bool(b) => b,
                    JsonView::Text(s) => !text::all_white(s),
                    JsonView::Array(items) => items.len() > 0,
                    JsonView::Object(o) => exists|k: Seq<char>| o.contains_key(k),
                    _ => true,
                });
            value_marks_non_root(JsonView::Object(m)) <==> says("sub_agent"@) || says("subagent"@)
                || says("internal"@)
        }),
        forall|v: JsonView|
            !(v is Object) && !(v is Text) ==> !#[trigger] value_marks_non_root(v),
{
    assert forall|s: Seq<char>| #[trigger] text::is_blank(s) == text::all_white(s) by {
        text::lemma_blank_is_white_space(s);
    }
}

/// The source of a thread is read as JSON where it is JSON, and as plain text in any case;
/// either may mark the thread. White space around it is of no matter.
pub proof fn lemma_source_is_read_both_ways(before: Seq<char>, s: Seq<char>, after: Seq<char>)
    requires
        text::all_white(before),
        text::all_white(after),
        s.len() > 0 ==> !text::is_white_space(s[0]) && !text::is_white_space(s.last()),
    ensures
        structured_marks_non_root(before + s + after) <==> (json::parsed_json(s) matches Some(v)
            && value_marks_non_root(v)),
        marks_non_root(before + s + after) <==> text_marks_non_root(s) || (json::parsed_json(
            s,
        ) matches Some(v) && value_marks_non_root(v)),
{
    text::lemma_trim_takes_white_space_off(before, s, after);
    text::lemma_trimmed_is_kept(s);
}

} // verus!
