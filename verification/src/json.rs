//! JSON values: a type of the library's own, read from and written to text with
//! `serde_json`.

use crate::text;
use vstd::prelude::*;
use vstd::utf8::{decode_utf8, encode_utf8, valid_utf8};

verus! {

// ---------------------------------------------------------------------------
// Values
// ---------------------------------------------------------------------------
/// A number that is neither a `u64` nor a negative `i64`. It is only ever taken
/// out of a value that `serde_json` read.
pub struct Fraction {
    number: serde_json::Number,
}

/// A JSON value. Where an object lists a key twice, the first entry counts.
pub enum Json {
    Null,
    Bool(bool),
    Unsigned(u64),
    Negative(i64),
    Float(Fraction),
    Text(String),
    Array(Vec<Json>),
    Object(Vec<(String, Json)>),
}

/// What a JSON value is.
#[verifier::ext_equal]
pub enum JsonView {
    Null,
    Bool(bool),
    Unsigned(u64),
    Negative(i64),
    Float(Fraction),
    Text(Seq<char>),
    Array(Seq<JsonView>),
    Object(Map<Seq<char>, JsonView>),
}

impl View for Json {
    type V = JsonView;

    open spec fn view(&self) -> JsonView {
        json_view(*self)
    }
}

pub open spec fn json_view(j: Json) -> JsonView
    decreases j,
{
    match j {
        Json::Null => JsonView::Null,
        Json::Bool(b) => JsonView::Bool(b),
        Json::Unsigned(n) => JsonView::Unsigned(n),
        Json::Negative(n) => if n < 0 {
            JsonView::Negative(n)
        } else {
            JsonView::Unsigned(n as u64)
        },
        Json::Float(n) => JsonView::Float(n),
        Json::Text(s) => JsonView::Text(s@),
        Json::Array(items) => JsonView::Array(items_view(items@)),
        Json::Object(fields) => JsonView::Object(fields_view(fields@)),
    }
}

/// What a list of JSON values is.
pub open spec fn items_view(items: Seq<Json>) -> Seq<JsonView>
    decreases items,
{
    if items.len() == 0 {
        Seq::empty()
    } else {
        items_view(items.drop_last()).push(json_view(items.last()))
    }
}

/// What the entries of an object are.
pub open spec fn fields_view(fields: Seq<(String, Json)>) -> Map<Seq<char>, JsonView>
    decreases fields,
{
    if fields.len() == 0 {
        Map::empty()
    } else {
        let before = fields_view(fields.drop_last());
        if before.contains_key(fields.last().0@) {
            before
        } else {
            before.insert(fields.last().0@, json_view(fields.last().1))
        }
    }
}

/// The value under `key`, where `v` is an object that holds the key.
pub open spec fn field(v: JsonView, key: Seq<char>) -> Option<JsonView> {
    match v {
        JsonView::Object(m) => if m.contains_key(key) {
            Some(m[key])
        } else {
            None
        },
        _ => None,
    }
}

/// The text under `key`, where `v` is an object that holds a text there.
pub open spec fn text_field(v: JsonView, key: Seq<char>) -> Option<Seq<char>> {
    match field(v, key) {
        Some(JsonView::Text(s)) => Some(s),
        _ => None,
    }
}

/// Whether arrays and objects are nested at most `n` deep in `v`.
pub open spec fn nested_within(v: JsonView, n: nat) -> bool
    decreases n, 1nat,
{
    match v {
        JsonView::Array(s) => n > 0 && items_nested_within(s, (n - 1) as nat),
        JsonView::Object(m) => n > 0 && fields_nested_within(m, (n - 1) as nat),
        _ => true,
    }
}

pub open spec fn items_nested_within(s: Seq<JsonView>, n: nat) -> bool
    decreases n, 2nat,
{
    forall|i: int| 0 <= i < s.len() ==> nested_within(#[trigger] s[i], n)
}

pub open spec fn fields_nested_within(m: Map<Seq<char>, JsonView>, n: nat) -> bool
    decreases n, 2nat,
{
    forall|k: Seq<char>| #[trigger] m.contains_key(k) ==> nested_within(m[k], n)
}

/// Whether no `Float` stands in `v`, up to `n` levels deep.
pub open spec fn float_free(v: JsonView, n: nat) -> bool
    decreases n, 1nat,
{
    match v {
        JsonView::Float(_) => false,
        JsonView::Array(s) => n > 0 ==> items_float_free(s, (n - 1) as nat),
        JsonView::Object(m) => n > 0 ==> fields_float_free(m, (n - 1) as nat),
        _ => true,
    }
}

pub open spec fn items_float_free(s: Seq<JsonView>, n: nat) -> bool
    decreases n, 2nat,
{
    forall|i: int| 0 <= i < s.len() ==> float_free(#[trigger] s[i], n)
}

pub open spec fn fields_float_free(m: Map<Seq<char>, JsonView>, n: nat) -> bool
    decreases n, 2nat,
{
    forall|k: Seq<char>| #[trigger] m.contains_key(k) ==> float_free(m[k], n)
}

/// Whether two values are the same apart from the `Float`s that stand in them, up to
/// `n` levels deep.
pub open spec fn same_but_floats(a: JsonView, b: JsonView, n: nat) -> bool
    decreases n, 1nat,
{
    match (a, b) {
        (JsonView::Float(_), JsonView::Float(_)) => true,
        (JsonView::Array(s), JsonView::Array(t)) => s.len() == t.len() && (n > 0
            ==> same_items_but_floats(s, t, (n - 1) as nat)),
        (JsonView::Object(m), JsonView::Object(k)) => m.dom() == k.dom() && (n > 0
            ==> same_fields_but_floats(m, k, (n - 1) as nat)),
        _ => a == b,
    }
}

pub open spec fn same_items_but_floats(s: Seq<JsonView>, t: Seq<JsonView>, n: nat) -> bool
    decreases n, 2nat,
{
    forall|i: int| 0 <= i < s.len() ==> same_but_floats(#[trigger] s[i], t[i], n)
}

pub open spec fn same_fields_but_floats(
    m: Map<Seq<char>, JsonView>,
    k: Map<Seq<char>, JsonView>,
    n: nat,
) -> bool
    decreases n, 2nat,
{
    forall|key: Seq<char>| #[trigger] m.contains_key(key) ==> same_but_floats(m[key], k[key], n)
}

/// How deep `serde_json` lets arrays and objects be nested in a text.
pub open spec fn nesting_limit() -> nat {
    127
}

/// Whether writing `v` and reading it again gives `v` back for certain.
pub open spec fn survives_text(v: JsonView) -> bool {
    nested_within(v, nesting_limit()) && float_free(v, nesting_limit())
}

/// Whether `t` is written as it stands between quotes.
pub open spec fn needs_no_escape(t: Seq<char>) -> bool {
    forall|i: int| 0 <= i < t.len() ==> t[i] as u32 >= 0x20 && t[i] != '"' && t[i] != '\\'
}

pub open spec fn quoted(t: Seq<char>) -> Seq<char> {
    seq!['"'] + t + seq!['"']
}

// ---------------------------------------------------------------------------
// What is taken from serde_json
// ---------------------------------------------------------------------------
/// `serde_json::Number`, carried but never looked into.
#[verifier::external_type_specification]
#[verifier::external_body]
pub struct ExNumber(serde_json::Number);

/// `serde_json::Value`, carried but never looked into.
#[verifier::external_type_specification]
#[verifier::external_body]
pub struct ExValue(serde_json::Value);

/// One level of a `serde_json::Value`.
enum Layer {
    Null,
    Bool(bool),
    Unsigned(u64),
    Negative(i64),
    Float(Fraction),
    Text(String),
    Array(Vec<serde_json::Value>),
    Object(Vec<(String, serde_json::Value)>),
}

/// What a `serde_json::Value` holds.
pub uninterp spec fn value_view(v: serde_json::Value) -> JsonView;

/// What `serde_json` reads from a text, where it accepts the text.
pub uninterp spec fn parsed_json(text: Seq<char>) -> Option<JsonView>;

/// What `serde_json` writes for a value in its compact form.
pub uninterp spec fn compact_json(v: JsonView) -> Seq<char>;

/// What `serde_json` writes for a value in its indented form.
pub uninterp spec fn pretty_json(v: JsonView) -> Seq<char>;

/// Whether `serde_json` takes two values for equal.
pub uninterp spec fn values_equal(a: JsonView, b: JsonView) -> bool;

spec fn value_items(items: Seq<serde_json::Value>) -> Seq<JsonView> {
    items.map_values(|v: serde_json::Value| value_view(v))
}

spec fn value_fields(fields: Seq<(String, serde_json::Value)>) -> Map<Seq<char>, JsonView>
    decreases fields.len(),
{
    if fields.len() == 0 {
        Map::empty()
    } else {
        value_fields(fields.drop_last()).insert(fields.last().0@, value_view(fields.last().1))
    }
}

spec fn distinct_keys(fields: Seq<(String, serde_json::Value)>) -> bool {
    forall|i: int, j: int| 0 <= i < j < fields.len() ==> fields[i].0@ != fields[j].0@
}

/// Whether `l` is the outermost level of `v`.
spec fn is_layer_of(l: Layer, v: JsonView) -> bool {
    match l {
        Layer::Null => v == JsonView::Null,
        Layer::Bool(b) => v == JsonView::Bool(b),
        Layer::Unsigned(n) => v == JsonView::Unsigned(n),
        Layer::Negative(n) => v == (if n < 0 {
            JsonView::Negative(n)
        } else {
            JsonView::Unsigned(n as u64)
        }),
        Layer::Float(n) => v == JsonView::Float(n),
        Layer::Text(s) => v == JsonView::Text(s@),
        Layer::Array(items) => v == JsonView::Array(value_items(items@)),
        Layer::Object(fields) => v == JsonView::Object(value_fields(fields@)) && distinct_keys(
            fields@,
        ),
    }
}

/// `serde_json::from_str`, asked for a `Value`. What it reads depends on the text
/// alone, and arrays and objects are nested no deeper than its limit allows.
#[verifier::external_body]
fn parse_value(s: &str) -> (r: Option<serde_json::Value>)
    ensures
        match r {
            Some(v) => parsed_json(s@) == Some(value_view(v)) && nested_within(
                value_view(v),
                nesting_limit(),
            ),
            None => parsed_json(s@) is None,
        },
{
    serde_json::from_str::<serde_json::Value>(s).ok()
}

/// Takes one level off a `serde_json::Value`: which variant it is and what stands
/// in it. The keys of a `serde_json::Map` are distinct.
#[verifier::external_body]
fn value_layer(v: serde_json::Value) -> (r: Layer)
    ensures
        is_layer_of(r, value_view(v)),
{
    match v {
        serde_json::Value::Null => Layer::Null,
        serde_json::Value::Bool(b) => Layer::Bool(b),
        serde_json::Value::Number(n) => match (n.as_u64(), n.as_i64()) {
            (Some(u), _) => Layer::Unsigned(u),
            (None, Some(i)) => Layer::Negative(i),
            (None, None) => Layer::Float(Fraction { number: n }),
        },
        serde_json::Value::String(s) => Layer::Text(s),
        serde_json::Value::Array(items) => Layer::Array(items),
        serde_json::Value::Object(fields) => Layer::Object(fields.into_iter().collect()),
    }
}

/// Puts one level around `serde_json::Value`s. `serde_json::Number::from` keeps
/// the integer that it is given, and a `serde_json::Map` collected from entries
/// with distinct keys holds those entries.
#[verifier::external_body]
fn value_from_layer(l: Layer) -> (r: serde_json::Value)
    requires
        l matches Layer::Object(fields) ==> distinct_keys(fields@),
    ensures
        is_layer_of(l, value_view(r)),
{
    match l {
        Layer::Null => serde_json::Value::Null,
        Layer::Bool(b) => serde_json::Value::Bool(b),
        Layer::Unsigned(n) => serde_json::Value::Number(serde_json::Number::from(n)),
        Layer::Negative(n) => serde_json::Value::Number(serde_json::Number::from(n)),
        Layer::Float(n) => serde_json::Value::Number(n.number),
        Layer::Text(s) => serde_json::Value::String(s),
        Layer::Array(items) => serde_json::Value::Array(items),
        Layer::Object(fields) => serde_json::Value::Object(fields.into_iter().collect()),
    }
}

/// `serde_json::to_vec` on a `Value`, which cannot fail: the UTF-8 form of a text
/// that depends on the value alone. The text is not empty and holds no control
/// character below U+0020, since those are escaped in strings and stand nowhere
/// else. A text member whose characters need no escape stands in it in quotes.
/// Reading the text gives the value back where no `Float` is in it and it is
/// nested no deeper than the reader's limit. Where a `Float` is in it, the reader may
/// refuse the number as too large; what it accepts is the value again, apart from the
/// last digits of a `Float`, which stays one since it is written with a fraction or an
/// exponent.
#[verifier::external_body]
fn compact_bytes(v: &serde_json::Value) -> (r: Vec<u8>)
    ensures
        r@ == encode_utf8(compact_json(value_view(*v))),
        r@.len() > 0,
        forall|i: int| 0 <= i < r@.len() ==> r@[i] >= 0x20,
        forall|key: Seq<char>|
            match #[trigger] text_field(value_view(*v), key) {
                Some(t) => needs_no_escape(t) ==> text::holds(r@, encode_utf8(quoted(t))),
                None => true,
            },
        survives_text(value_view(*v)) ==> parsed_json(decode_utf8(r@)) == Some(value_view(*v)),
        parsed_json(decode_utf8(r@)) matches Some(w) ==> same_but_floats(
            value_view(*v),
            w,
            nesting_limit(),
        ),
{
    serde_json::to_vec(v).expect("a JSON value can be written")
}

/// `serde_json::to_string_pretty` on a `Value`, which cannot fail: a text that
/// depends on the value alone. It differs from the compact form by white space
/// between tokens, so that reading it gives the value back where that holds of the
/// compact form.
#[verifier::external_body]
fn pretty_string(v: &serde_json::Value) -> (r: String)
    ensures
        r@ == pretty_json(value_view(*v)),
        survives_text(value_view(*v)) ==> parsed_json(r@) == Some(value_view(*v)),
{
    serde_json::to_string_pretty(v).expect("a JSON value can be written")
}

/// `==` on `serde_json::Value`s, which depends on what they hold alone. Equal
/// contents are equal, and without a `Float` nothing else is.
#[verifier::external_body]
fn equal_values(a: &serde_json::Value, b: &serde_json::Value) -> (r: bool)
    ensures
        r == values_equal(value_view(*a), value_view(*b)),
        value_view(*a) == value_view(*b) ==> r,
        r && survives_text(value_view(*a)) ==> value_view(*a) == value_view(*b),
{
    a == b
}

/// `serde_json::Number::clone`: the same number.
#[verifier::external_body]
fn copy_fraction(n: &Fraction) -> (r: Fraction)
    ensures
        r == *n,
{
    Fraction { number: n.number.clone() }
}

// ---------------------------------------------------------------------------
// Reading and writing
// ---------------------------------------------------------------------------
/// The bytes as text, where they are UTF-8 (`std::str::from_utf8`).
#[verifier::external_body]
fn checked_utf8(bytes: &[u8]) -> (r: Option<&str>)
    ensures
        match r {
            Some(s) => valid_utf8(bytes@) && s@ == decode_utf8(bytes@),
            None => !valid_utf8(bytes@),
        },
{
    std::str::from_utf8(bytes).ok()
}

/// The bytes as text, where they are UTF-8.
pub open spec fn utf8_text(bytes: Seq<u8>) -> Option<Seq<char>> {
    if valid_utf8(bytes) {
        Some(decode_utf8(bytes))
    } else {
        None
    }
}

/// The bytes as text, where they are UTF-8.
pub fn text_from_utf8(bytes: &[u8]) -> (r: Option<String>)
    ensures
        text::text_of(r) == utf8_text(bytes@),
{
    match checked_utf8(bytes) {
        Some(s) => Some(text::copy_text(s)),
        None => None,
    }
}

/// The UTF-8 form of a text.
pub fn text_to_utf8(s: &str) -> (r: Vec<u8>)
    ensures
        r@ == encode_utf8(s@),
{
    let bytes = s.as_bytes();
    vstd::slice::slice_to_vec(bytes)
}

/// The outcome of reading a JSON text.
pub open spec fn json_of(o: Option<Json>) -> Option<JsonView> {
    match o {
        Some(j) => Some(j@),
        None => None,
    }
}

proof fn lemma_value_field(fields: Seq<(String, serde_json::Value)>, i: int)
    requires
        distinct_keys(fields),
        0 <= i < fields.len(),
    ensures
        value_fields(fields).contains_key(fields[i].0@),
        value_fields(fields)[fields[i].0@] == value_view(fields[i].1),
    decreases fields.len(),
{
    if i < fields.len() - 1 {
        let init = fields.drop_last();
        assert(distinct_keys(init));
        lemma_value_field(init, i);
        assert(init[i] == fields[i]);
    }
}

proof fn lemma_value_fields_finite(fields: Seq<(String, serde_json::Value)>)
    ensures
        value_fields(fields).dom().finite(),
    decreases fields.len(),
{
    if fields.len() > 0 {
        lemma_value_fields_finite(fields.drop_last());
    }
}

proof fn lemma_value_keys(fields: Seq<(String, serde_json::Value)>, key: Seq<char>)
    requires
        value_fields(fields).contains_key(key),
    ensures
        exists|i: int| 0 <= i < fields.len() && (#[trigger] fields[i]).0@ == key,
    decreases fields.len(),
{
    if fields.len() > 0 {
        if fields.last().0@ == key {
            assert(fields[fields.len() - 1].0@ == key);
        } else {
            lemma_value_keys(fields.drop_last(), key);
            let i = choose|i: int|
                0 <= i < fields.drop_last().len() && (#[trigger] fields.drop_last()[i]).0@ == key;
            assert(fields[i].0@ == key);
        }
    }
}

/// Entries that agree one by one are the same object.
proof fn lemma_same_fields(a: Seq<(String, Json)>, b: Seq<(String, serde_json::Value)>)
    requires
        a.len() == b.len(),
        distinct_keys(b),
        forall|i: int|
            0 <= i < a.len() ==> (#[trigger] a[i]).0@ == b[i].0@ && a[i].1@ == value_view(b[i].1),
    ensures
        fields_view(a) == value_fields(b),
    decreases a.len(),
{
    if a.len() > 0 {
        let a1 = a.drop_last();
        let b1 = b.drop_last();
        assert(distinct_keys(b1));
        assert forall|i: int| 0 <= i < a1.len() implies (#[trigger] a1[i]).0@ == b1[i].0@
            && a1[i].1@ == value_view(b1[i].1) by {
            assert(a1[i] == a[i]);
        }
        lemma_same_fields(a1, b1);
        assert(a[a.len() - 1].0@ == b[b.len() - 1].0@);
        if value_fields(b1).contains_key(b.last().0@) {
            lemma_value_keys(b1, b.last().0@);
            let i = choose|i: int| 0 <= i < b1.len() && (#[trigger] b1[i]).0@ == b.last().0@;
            assert(b[i].0@ == b[b.len() - 1].0@);
        }
    }
}

/// The entries of a list of values, one by one.
pub proof fn lemma_items_view(items: Seq<Json>)
    ensures
        items_view(items).len() == items.len(),
        forall|i: int| 0 <= i < items.len() ==> #[trigger] items_view(items)[i] == items[i]@,
    decreases items.len(),
{
    if items.len() > 0 {
        lemma_items_view(items.drop_last());
    }
}

fn json_from_value(v: serde_json::Value) -> (r: Json)
    ensures
        r@ == value_view(v),
    decreases value_view(v),
{
    let ghost whole = value_view(v);
    match value_layer(v) {
        Layer::Null => Json::Null,
        Layer::Bool(b) => Json::Bool(b),
        Layer::Unsigned(n) => Json::Unsigned(n),
        Layer::Negative(n) => Json::Negative(n),
        Layer::Float(n) => Json::Float(n),
        Layer::Text(s) => Json::Text(s),
        Layer::Array(items) => {
            let ghost all = items@;
            let ghost views = value_items(all);
            let mut rest = items;
            let mut reversed: Vec<Json> = Vec::new();
            while rest.len() > 0
                invariant
                    whole == value_view(v),
                    whole == JsonView::Array(views),
                    views == value_items(all),
                    rest@.len() + reversed@.len() == all.len(),
                    rest@ == all.take(rest@.len() as int),
                    forall|i: int|
                        0 <= i < reversed@.len() ==> (#[trigger] reversed@[i])@
                            == views[all.len() - 1 - i],
                decreases rest.len(),
            {
                let ghost n = rest@.len();
                let item = rest.pop().unwrap();
                assert(value_view(item) == views[n - 1]);
                assert(rest@ =~= all.take(n - 1));
                assert(decreases_to!(whole => whole->Array_0));
                assert(decreases_to!(whole->Array_0 => whole->Array_0[n - 1]));
                reversed.push(json_from_value(item));
            }
            let ghost turned = reversed@;
            let mut out: Vec<Json> = Vec::new();
            while reversed.len() > 0
                invariant
                    turned.len() == all.len(),
                    views == value_items(all),
                    reversed@.len() + out@.len() == all.len(),
                    reversed@ == turned.take(reversed@.len() as int),
                    forall|i: int|
                        0 <= i < turned.len() ==> (#[trigger] turned[i])@ == views[all.len() - 1
                            - i],
                    forall|i: int| 0 <= i < out@.len() ==> (#[trigger] out@[i])@ == views[i],
                decreases reversed.len(),
            {
                let ghost n = reversed@.len();
                let item = reversed.pop().unwrap();
                assert(item == turned[n - 1]);
                assert(reversed@ =~= turned.take(n - 1));
                out.push(item);
            }
            proof {
                lemma_items_view(out@);
                assert(items_view(out@) =~= views);
            }
            Json::Array(out)
        },
        Layer::Object(fields) => {
            let ghost all = fields@;
            let ghost views = value_fields(all);
            let mut rest = fields;
            let mut reversed: Vec<(String, Json)> = Vec::new();
            while rest.len() > 0
                invariant
                    whole == value_view(v),
                    whole == JsonView::Object(views),
                    views == value_fields(all),
                    distinct_keys(all),
                    rest@.len() + reversed@.len() == all.len(),
                    rest@ == all.take(rest@.len() as int),
                    forall|i: int|
                        0 <= i < reversed@.len() ==> (#[trigger] reversed@[i]).0@ == all[all.len()
                            - 1 - i].0@ && reversed@[i].1@ == value_view(all[all.len() - 1 - i].1),
                decreases rest.len(),
            {
                let ghost n = rest@.len();
                let item = rest.pop().unwrap();
                assert(item == all[n - 1]);
                assert(rest@ =~= all.take(n - 1));
                proof {
                    lemma_value_field(all, n - 1);
                    lemma_value_fields_finite(all);
                    vstd::map::axiom_map_index_decreases_finite(views, all[n - 1].0@);
                }
                assert(decreases_to!(whole => whole->Object_0));
                let (key, value) = item;
                reversed.push((key, json_from_value(value)));
            }
            let ghost turned = reversed@;
            let mut out: Vec<(String, Json)> = Vec::new();
            while reversed.len() > 0
                invariant
                    turned.len() == all.len(),
                    reversed@.len() + out@.len() == all.len(),
                    reversed@ == turned.take(reversed@.len() as int),
                    forall|i: int|
                        0 <= i < turned.len() ==> (#[trigger] turned[i]).0@ == all[all.len() - 1
                            - i].0@ && turned[i].1@ == value_view(all[all.len() - 1 - i].1),
                    forall|i: int|
                        0 <= i < out@.len() ==> (#[trigger] out@[i]).0@ == all[i].0@
                            && out@[i].1@ == value_view(all[i].1),
                decreases reversed.len(),
            {
                let ghost n = reversed@.len();
                let item = reversed.pop().unwrap();
                assert(item == turned[n - 1]);
                assert(reversed@ =~= turned.take(n - 1));
                out.push(item);
            }
            proof {
                lemma_same_fields(out@, all);
            }
            Json::Object(out)
        },
    }
}

/// The first entry under `key`.
pub open spec fn first_entry(fields: Seq<(String, Json)>, key: Seq<char>, i: int) -> bool {
    &&& 0 <= i < fields.len()
    &&& fields[i].0@ == key
    &&& forall|j: int| 0 <= j < i ==> (#[trigger] fields[j]).0@ != key
}

/// An object holds a key where an entry has it, with the value of the first one.
pub proof fn lemma_fields_view(fields: Seq<(String, Json)>, key: Seq<char>)
    ensures
        fields_view(fields).contains_key(key) <==> exists|i: int|
            0 <= i < fields.len() && (#[trigger] fields[i]).0@ == key,
        forall|i: int| #[trigger]
            first_entry(fields, key, i) ==> fields_view(fields)[key] == fields[i].1@,
        fields_view(fields).dom().finite(),
    decreases fields.len(),
{
    if fields.len() > 0 {
        let init = fields.drop_last();
        let n = fields.len() - 1;
        lemma_fields_view(init, key);
        lemma_fields_view(init, fields.last().0@);
        if fields_view(init).contains_key(key) {
            let i = choose|i: int| 0 <= i < init.len() && (#[trigger] init[i]).0@ == key;
            assert(fields[i].0@ == key);
        }
        assert(fields[n].0@ == fields.last().0@);
        assert forall|i: int| #[trigger] first_entry(fields, key, i) implies fields_view(
            fields,
        )[key] == fields[i].1@ by {
            if i < n {
                assert(init[i] == fields[i]);
                assert(first_entry(init, key, i)) by {
                    assert forall|j: int| 0 <= j < i implies (#[trigger] init[j]).0@ != key by {
                        assert(init[j] == fields[j]);
                    }
                }
            } else {
                assert forall|j: int| 0 <= j < init.len() implies (#[trigger] init[j]).0@
                    != key by {
                    assert(init[j] == fields[j]);
                }
            }
        }
        assert(fields_view(fields).contains_key(key) ==> exists|i: int|
            0 <= i < fields.len() && (#[trigger] fields[i]).0@ == key);
        if exists|i: int| 0 <= i < fields.len() && (#[trigger] fields[i]).0@ == key {
            let i = choose|i: int| 0 <= i < fields.len() && (#[trigger] fields[i]).0@ == key;
            if i < n {
                assert(init[i].0@ == key);
            }
        }
    }
}

fn find_entry(fields: &Vec<(String, Json)>, key: &str) -> (r: Option<usize>)
    ensures
        match r {
            Some(i) => first_entry(fields@, key@, i as int) && fields_view(
                fields@,
            ).contains_key(key@) && fields_view(fields@)[key@] == fields@[i as int].1@,
            None => !fields_view(fields@).contains_key(key@),
        },
{
    proof {
        lemma_fields_view(fields@, key@);
    }
    let mut i: usize = 0;
    while i < fields.len()
        invariant
            i <= fields.len(),
            forall|j: int| 0 <= j < i ==> (#[trigger] fields@[j]).0@ != key@,
        decreases fields.len() - i,
    {
        if text::same_text(fields[i].0.as_str(), key) {
            proof {
                lemma_fields_view(fields@, key@);
                assert(first_entry(fields@, key@, i as int));
            }
            return Some(i);
        }
        i += 1;
    }
    None
}

fn json_to_value(j: &Json) -> (r: serde_json::Value)
    ensures
        value_view(r) == j@,
    decreases j,
{
    match j {
        Json::Null => value_from_layer(Layer::Null),
        Json::Bool(b) => value_from_layer(Layer::Bool(*b)),
        Json::Unsigned(n) => value_from_layer(Layer::Unsigned(*n)),
        Json::Negative(n) => value_from_layer(Layer::Negative(*n)),
        Json::Float(n) => value_from_layer(Layer::Float(copy_fraction(n))),
        Json::Text(s) => value_from_layer(Layer::Text(text::copy_text(s.as_str()))),
        Json::Array(items) => {
            let mut out: Vec<serde_json::Value> = Vec::new();
            let mut i: usize = 0;
            while i < items.len()
                invariant
                    i <= items.len(),
                    out@.len() == i,
                    *j == Json::Array(*items),
                    forall|k: int| 0 <= k < i ==> value_view(#[trigger] out@[k]) == items@[k]@,
                decreases items.len() - i,
            {
                assert(decreases_to!(*j => j->Array_0));
                assert(decreases_to!(items@ => items@[i as int]));
                let v = json_to_value(&items[i]);
                out.push(v);
                i += 1;
            }
            proof {
                lemma_items_view(items@);
                assert(value_items(out@) =~= items_view(items@));
            }
            value_from_layer(Layer::Array(out))
        },
        Json::Object(fields) => {
            let mut out: Vec<(String, serde_json::Value)> = Vec::new();
            let mut i: usize = 0;
            while i < fields.len()
                invariant
                    i <= fields.len(),
                    *j == Json::Object(*fields),
                    distinct_keys(out@),
                    value_fields(out@) == fields_view(fields@.take(i as int)),
                decreases fields.len() - i,
            {
                let ghost before = out@;
                let ghost part = fields@.take(i as int);
                proof {
                    assert(fields@.take(i + 1).drop_last() =~= part);
                    assert(fields@.take(i + 1).last() == fields@[i as int]);
                    lemma_fields_view(part, fields@[i as int].0@);
                }
                let mut seen = false;
                let mut k: usize = 0;
                while k < i && !seen
                    invariant
                        k <= i < fields.len(),
                        part == fields@.take(i as int),
                        seen == exists|m: int|
                            0 <= m < k && (#[trigger] part[m]).0@ == fields@[i as int].0@,
                    decreases i - k,
                {
                    assert(part[k as int] == fields@[k as int]);
                    seen = text::same_text(fields[k].0.as_str(), fields[i].0.as_str());
                    k += 1;
                }
                if !seen {
                    assert(decreases_to!(*j => j->Object_0));
                    assert(decreases_to!(fields@ => fields@[i as int]));
                    assert(decreases_to!(fields@[i as int] => fields@[i as int].1));
                    let v = json_to_value(&fields[i].1);
                    out.push((text::copy_text(fields[i].0.as_str()), v));
                    assert(out@.drop_last() =~= before);
                    assert(distinct_keys(out@)) by {
                        assert forall|a: int, b: int| 0 <= a < b < out@.len() implies out@[a].0@
                            != out@[b].0@ by {
                            if b == before.len() {
                                lemma_value_field(before, a);
                            }
                        }
                    }
                }
                i += 1;
            }
            assert(fields@.take(i as int) =~= fields@);
            value_from_layer(Layer::Object(out))
        },
    }
}

/// Reads a JSON text.
pub fn parse(s: &str) -> (r: Option<Json>)
    ensures
        json_of(r) == parsed_json(s@),
        r matches Some(j) ==> nested_within(j@, nesting_limit()),
{
    match parse_value(s) {
        Some(v) => Some(json_from_value(v)),
        None => None,
    }
}

/// Writes a JSON value in compact form.
pub fn to_compact(j: &Json) -> (r: Vec<u8>)
    ensures
        r@ == encode_utf8(compact_json(j@)),
        r@.len() > 0,
        forall|i: int| 0 <= i < r@.len() ==> r@[i] >= 0x20,
        forall|key: Seq<char>|
            match #[trigger] text_field(j@, key) {
                Some(t) => needs_no_escape(t) ==> text::holds(r@, encode_utf8(quoted(t))),
                None => true,
            },
        survives_text(j@) ==> parsed_json(compact_json(j@)) == Some(j@),
        parsed_json(compact_json(j@)) matches Some(w) ==> same_but_floats(
            j@,
            w,
            nesting_limit(),
        ),
{
    proof {
        vstd::utf8::encode_utf8_decode_utf8(compact_json(j@));
    }
    compact_bytes(&json_to_value(j))
}

/// Writes a JSON value in indented form.
pub fn to_pretty(j: &Json) -> (r: String)
    ensures
        r@ == pretty_json(j@),
        survives_text(j@) ==> parsed_json(r@) == Some(j@),
{
    pretty_string(&json_to_value(j))
}

/// Whether two JSON values are equal.
pub fn equal(a: &Json, b: &Json) -> (r: bool)
    ensures
        r == values_equal(a@, b@),
        a@ == b@ ==> r,
        r && survives_text(a@) ==> a@ == b@,
{
    equal_values(&json_to_value(a), &json_to_value(b))
}

/// A copy of a JSON value.
pub fn copy(j: &Json) -> (r: Json)
    ensures
        r@ == j@,
{
    json_from_value(json_to_value(j))
}

// ---------------------------------------------------------------------------
// Looking into values
// ---------------------------------------------------------------------------
pub open spec fn json_ref_of(o: Option<&Json>) -> Option<JsonView> {
    match o {
        Some(j) => Some(j@),
        None => None,
    }
}

/// The value under `key`, where `j` is an object that holds the key.
pub fn get<'a>(j: &'a Json, key: &str) -> (r: Option<&'a Json>)
    ensures
        json_ref_of(r) == field(j@, key@),
{
    match j {
        Json::Object(fields) => match find_entry(fields, key) {
            Some(i) => Some(&fields[i].1),
            None => None,
        },
        _ => None,
    }
}

/// The text under `key`, where `j` is an object that holds a text there.
pub fn get_text(j: &Json, key: &str) -> (r: Option<String>)
    ensures
        text::text_of(r) == text_field(j@, key@),
{
    match get(j, key) {
        Some(Json::Text(s)) => Some(text::copy_text(s.as_str())),
        _ => None,
    }
}

/// Puts `value` under `key`, in place of what stood there.
pub fn set_entry(fields: &mut Vec<(String, Json)>, key: &str, value: Json)
    ensures
        fields_view(final(fields)@) == fields_view(old(fields)@).insert(key@, value@),
{
    let ghost before = fields@;
    match find_entry(fields, key) {
        Some(i) => {
            let entry = (text::copy_text(key), value);
            fields.set(i, entry);
            proof {
                let after = fields@;
                let expected = fields_view(before).insert(key@, value@);
                assert forall|k: Seq<char>|
                    #![trigger fields_view(after).dom().contains(k)]
                    #![trigger expected.dom().contains(k)]
                    fields_view(after).dom().contains(k) == expected.dom().contains(k) && (
                    expected.dom().contains(k) ==> fields_view(after)[k] == expected[k]) by {
                    lemma_set_entry(before, after, key@, value@, i as int, k);
                }
                assert(fields_view(after) =~= fields_view(before).insert(key@, value@));
            }
        },
        None => {
            fields.push((text::copy_text(key), value));
            assert(fields@.drop_last() =~= before);
        },
    }
}

proof fn lemma_set_entry(
    before: Seq<(String, Json)>,
    after: Seq<(String, Json)>,
    key: Seq<char>,
    value: JsonView,
    i: int,
    k: Seq<char>,
)
    requires
        first_entry(before, key, i),
        after.len() == before.len(),
        after[i].0@ == key,
        after[i].1@ == value,
        forall|m: int| 0 <= m < before.len() && m != i ==> after[m] == before[m],
    ensures
        fields_view(after).contains_key(k) == fields_view(before).insert(
            key,
            value,
        ).contains_key(k),
        fields_view(after).contains_key(k) ==> fields_view(after)[k] == fields_view(before).insert(
            key,
            value,
        )[k],
{
    lemma_fields_view(before, k);
    lemma_fields_view(after, k);
    lemma_fields_view(before, key);
    if k == key {
        assert(first_entry(after, key, i)) by {
            assert forall|m: int| 0 <= m < i implies (#[trigger] after[m]).0@ != key by {
                assert(after[m] == before[m]);
            }
        }
        assert(after[i].0@ == k);
    } else {
        if exists|m: int| 0 <= m < before.len() && (#[trigger] before[m]).0@ == k {
            let m = lemma_first_entry(before, k);
            assert(m != i);
            assert(after[m].0@ == k);
            assert(first_entry(after, k, m)) by {
                assert forall|n: int| 0 <= n < m implies (#[trigger] after[n]).0@ != k by {
                    if n != i {
                        assert(after[n] == before[n]);
                    }
                }
            }
        }
        if exists|m: int| 0 <= m < after.len() && (#[trigger] after[m]).0@ == k {
            let m = choose|m: int| 0 <= m < after.len() && (#[trigger] after[m]).0@ == k;
            assert(m != i);
            assert(before[m].0@ == k);
        }
    }
}

/// Where some entry has the key, there is a first one.
proof fn lemma_first_entry(fields: Seq<(String, Json)>, key: Seq<char>) -> (m: int)
    requires
        exists|i: int| 0 <= i < fields.len() && (#[trigger] fields[i]).0@ == key,
    ensures
        first_entry(fields, key, m),
    decreases fields.len(),
{
    let n = fields.len() - 1;
    let init = fields.drop_last();
    if exists|i: int| 0 <= i < init.len() && (#[trigger] init[i]).0@ == key {
        let m = lemma_first_entry(init, key);
        assert forall|j: int| 0 <= j < m implies (#[trigger] fields[j]).0@ != key by {
            assert(init[j] == fields[j]);
        }
        m
    } else {
        assert forall|j: int| 0 <= j < n implies (#[trigger] fields[j]).0@ != key by {
            assert(init[j] == fields[j]);
        }
        n
    }
}

/// What stands under a key of an object, and what no other value has.
pub proof fn lemma_fields_of_a_value(v: JsonView, key: Seq<char>)
    ensures
        v matches JsonView::Object(m) ==> (m.contains_key(key) ==> field(v, key) == Some(m[key])),
        v matches JsonView::Object(m) ==> (!m.contains_key(key) ==> field(v, key) is None),
        !(v is Object) ==> field(v, key) is None,
        text_field(v, key) is Some <==> (field(v, key) matches Some(f) && f is Text),
        field(v, key) matches Some(f) ==> (f matches JsonView::Text(s) ==> text_field(v, key)
            == Some(s)),
{
}

/// Bytes are a text where they are UTF-8, and the text is what they stand for.
pub proof fn lemma_text_of_bytes(bytes: Seq<u8>)
    ensures
        valid_utf8(bytes) ==> utf8_text(bytes) == Some(decode_utf8(bytes)),
        !valid_utf8(bytes) ==> utf8_text(bytes) is None,
{
}

/// What the value of a JSON value is, part for part.
pub proof fn lemma_values_of_json(j: Json)
    ensures
        j is Null ==> j@ is Null,
        j matches Json::Bool(b) ==> j@ == JsonView::Bool(b),
        j matches Json::Unsigned(n) ==> j@ == JsonView::Unsigned(n),
        j matches Json::Negative(n) ==> j@ == if n < 0 {
            JsonView::Negative(n)
        } else {
            JsonView::Unsigned(n as u64)
        },
        j matches Json::Text(s) ==> j@ == JsonView::Text(s@),
        j matches Json::Array(items) ==> (j@ matches JsonView::Array(v) && v.len() == items@.len()
            && forall|i: int| 0 <= i < items@.len() ==> #[trigger] v[i] == items@[i]@),
        j matches Json::Object(fields) ==> j@ == JsonView::Object(fields_view(fields@)),
{
    if let Json::Array(items) = j {
        lemma_items_view(items@);
    }
}

} // verus!
