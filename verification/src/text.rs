//! Text as sequences of characters: character classes, trimming, searching,
//! splitting into lines, ordering and decimal numbers.

use vstd::prelude::*;

verus! {

/// Appending one character to a `String` (`String::push`) adds it at the end and
/// changes nothing else.
pub assume_specification[ String::push ](s: &mut String, ch: char)
    ensures
        final(s)@ == old(s)@.push(ch),
;

// ---------------------------------------------------------------------------
// Character classes
// ---------------------------------------------------------------------------
/// The characters with the Unicode property `White_Space`.
pub open spec fn is_white_space(c: char) -> bool {
    let n = c as u32;
    ||| 0x09 <= n <= 0x0d
    ||| n == 0x20
    ||| n == 0x85
    ||| n == 0xa0
    ||| n == 0x1680
    ||| 0x2000 <= n <= 0x200a
    ||| n == 0x2028
    ||| n == 0x2029
    ||| n == 0x202f
    ||| n == 0x205f
    ||| n == 0x3000
}

pub fn white_space(c: char) -> (r: bool)
    ensures
        r == is_white_space(c),
{
    let n: u32 = c as u32;
    (0x09 <= n && n <= 0x0d) || n == 0x20 || n == 0x85 || n == 0xa0 || n == 0x1680 || (0x2000 <= n
        && n <= 0x200a) || n == 0x2028 || n == 0x2029 || n == 0x202f || n == 0x205f || n == 0x3000
}

/// The control characters (general category `Cc`).
pub open spec fn is_control(c: char) -> bool {
    c as u32 <= 0x1f || 0x7f <= c as u32 <= 0x9f
}

pub fn control(c: char) -> (r: bool)
    ensures
        r == is_control(c),
{
    let n: u32 = c as u32;
    n <= 0x1f || (0x7f <= n && n <= 0x9f)
}

pub open spec fn is_digit(c: char) -> bool {
    '0' <= c <= '9'
}

pub open spec fn is_hex_digit(c: char) -> bool {
    is_digit(c) || 'a' <= c <= 'f' || 'A' <= c <= 'F'
}

pub open spec fn is_alphanumeric(c: char) -> bool {
    is_digit(c) || 'a' <= c <= 'z' || 'A' <= c <= 'Z'
}

pub fn digit(c: char) -> (r: bool)
    ensures
        r == is_digit(c),
{
    '0' <= c && c <= '9'
}

pub fn hex_digit(c: char) -> (r: bool)
    ensures
        r == is_hex_digit(c),
{
    digit(c) || ('a' <= c && c <= 'f') || ('A' <= c && c <= 'F')
}

pub fn alphanumeric(c: char) -> (r: bool)
    ensures
        r == is_alphanumeric(c),
{
    digit(c) || ('a' <= c && c <= 'z') || ('A' <= c && c <= 'Z')
}

/// A character with the letters `A` to `Z` mapped to lower case.
pub open spec fn lower_of(c: char) -> char {
    if 'A' <= c <= 'Z' {
        (c as u8 + 32) as char
    } else {
        c
    }
}

/// A text with the letters `A` to `Z` mapped to lower case.
pub open spec fn lower(s: Seq<char>) -> Seq<char> {
    s.map_values(|c: char| lower_of(c))
}

/// `s` with every `from` replaced by `to`.
pub open spec fn replaced(s: Seq<char>, from: char, to: char) -> Seq<char> {
    s.map_values(
        |c: char|
            if c == from {
                to
            } else {
                c
            },
    )
}

// ---------------------------------------------------------------------------
// Views
// ---------------------------------------------------------------------------
/// What a list of strings holds.
pub open spec fn texts(v: Seq<String>) -> Seq<Seq<char>> {
    v.map_values(|s: String| s@)
}

/// What an optional string holds.
pub open spec fn text_of(o: Option<String>) -> Option<Seq<char>> {
    match o {
        Some(s) => Some(s@),
        None => None,
    }
}

/// What an optional borrowed string holds.
pub open spec fn str_of(o: Option<&str>) -> Option<Seq<char>> {
    match o {
        Some(s) => Some(s@),
        None => None,
    }
}

pub fn to_chars(s: &str) -> (r: Vec<char>)
    ensures
        r@ == s@,
{
    let mut out: Vec<char> = Vec::new();
    for c in it: s.chars()
        invariant
            out@ == it.seq().take(it.index()),
            it.seq() == s@,
    {
        out.push(c);
    }
    out
}

pub fn to_text(chars: &[char]) -> (r: String)
    ensures
        r@ == chars@,
{
    let mut out = String::new();
    let mut i: usize = 0;
    while i < chars.len()
        invariant
            i <= chars.len(),
            out@ == chars@.take(i as int),
        decreases chars.len() - i,
    {
        out.push(chars[i]);
        i += 1;
    }
    assert(chars@.take(i as int) =~= chars@);
    out
}

/// The characters from `from` up to `to`, as a string.
pub fn slice_text(chars: &[char], from: usize, to: usize) -> (r: String)
    requires
        from <= to <= chars@.len(),
    ensures
        r@ == chars@.subrange(from as int, to as int),
{
    let mut out = String::new();
    let mut i: usize = from;
    while i < to
        invariant
            from <= i <= to <= chars@.len(),
            out@ == chars@.subrange(from as int, i as int),
        decreases to - i,
    {
        out.push(chars[i]);
        i += 1;
    }
    out
}

pub fn copy_text(s: &str) -> (r: String)
    ensures
        r@ == s@,
{
    s.to_owned()
}

pub fn copy_option(o: &Option<String>) -> (r: Option<String>)
    ensures
        text_of(r) == text_of(*o),
{
    match o {
        Some(s) => Some(copy_text(s.as_str())),
        None => None,
    }
}

pub fn copy_texts(v: &Vec<String>) -> (r: Vec<String>)
    ensures
        texts(r@) == texts(v@),
{
    let mut out: Vec<String> = Vec::new();
    let mut i: usize = 0;
    while i < v.len()
        invariant
            i <= v.len(),
            texts(out@) == texts(v@).take(i as int),
        decreases v.len() - i,
    {
        let ghost before = texts(out@);
        let s = copy_text(v[i].as_str());
        out.push(s);
        assert(texts(out@) =~= before.push(texts(v@)[i as int]));
        i += 1;
    }
    assert(texts(v@).take(i as int) =~= texts(v@));
    out
}

// ---------------------------------------------------------------------------
// Equality and order
// ---------------------------------------------------------------------------
pub fn same_chars(a: &[char], b: &[char]) -> (r: bool)
    ensures
        r == (a@ == b@),
{
    if a.len() != b.len() {
        return false;
    }
    let mut i: usize = 0;
    while i < a.len()
        invariant
            i <= a.len(),
            a.len() == b.len(),
            forall|k: int| 0 <= k < i ==> a@[k] == b@[k],
        decreases a.len() - i,
    {
        if a[i] != b[i] {
            return false;
        }
        i += 1;
    }
    assert(a@ =~= b@);
    true
}

pub fn same_text(a: &str, b: &str) -> (r: bool)
    ensures
        r == (a@ == b@),
{
    same_chars(to_chars(a).as_slice(), to_chars(b).as_slice())
}

pub fn same_option(a: &Option<String>, b: &Option<String>) -> (r: bool)
    ensures
        r == (text_of(*a) == text_of(*b)),
{
    match (a, b) {
        (Some(x), Some(y)) => same_text(x.as_str(), y.as_str()),
        (None, None) => true,
        _ => false,
    }
}

/// Lexicographic order by code point, which is also the order of the UTF-8
/// encodings byte by byte.
pub open spec fn text_less(a: Seq<char>, b: Seq<char>) -> bool
    decreases a.len(),
{
    if b.len() == 0 {
        false
    } else if a.len() == 0 {
        true
    } else if a[0] == b[0] {
        text_less(a.skip(1), b.skip(1))
    } else {
        a[0] < b[0]
    }
}

pub proof fn lemma_text_less_total(a: Seq<char>, b: Seq<char>)
    ensures
        !text_less(a, a),
        text_less(a, b) ==> !text_less(b, a),
        text_less(a, b) || text_less(b, a) || a == b,
    decreases a.len(),
{
    if a.len() > 0 && b.len() > 0 {
        lemma_text_less_total(a.skip(1), b.skip(1));
        if a[0] == b[0] && a.skip(1) == b.skip(1) {
            assert(a =~= seq![a[0]] + a.skip(1));
            assert(b =~= seq![b[0]] + b.skip(1));
        }
    } else if a.len() > 0 {
        lemma_text_less_total(a.skip(1), a.skip(1));
    } else if b.len() == 0 {
        assert(a =~= b);
    }
}

pub proof fn lemma_text_less_transitive(a: Seq<char>, b: Seq<char>, c: Seq<char>)
    requires
        text_less(a, b),
        text_less(b, c),
    ensures
        text_less(a, c),
    decreases a.len(),
{
    if a.len() > 0 && b.len() > 0 && c.len() > 0 && a[0] == b[0] && b[0] == c[0] {
        lemma_text_less_transitive(a.skip(1), b.skip(1), c.skip(1));
    }
}

pub fn less_text(a: &str, b: &str) -> (r: bool)
    ensures
        r == text_less(a@, b@),
{
    let x = to_chars(a);
    let y = to_chars(b);
    let mut i: usize = 0;
    assert(x@.skip(0) =~= x@);
    assert(y@.skip(0) =~= y@);
    while i < x.len() && i < y.len() && x[i] == y[i]
        invariant
            i <= x.len(),
            i <= y.len(),
            x@ == a@,
            y@ == b@,
            text_less(a@, b@) == text_less(x@.skip(i as int), y@.skip(i as int)),
        decreases x.len() - i,
    {
        assert(x@.skip(i as int).skip(1) =~= x@.skip(i + 1));
        assert(y@.skip(i as int).skip(1) =~= y@.skip(i + 1));
        i += 1;
    }
    if i >= y.len() {
        false
    } else if i >= x.len() {
        true
    } else {
        x[i] < y[i]
    }
}

// ---------------------------------------------------------------------------
// Trimming, prefixes and suffixes
// ---------------------------------------------------------------------------
/// `s` without its leading white space.
pub open spec fn trim_start(s: Seq<char>) -> Seq<char>
    decreases s.len(),
{
    if s.len() > 0 && is_white_space(s[0]) {
        trim_start(s.skip(1))
    } else {
        s
    }
}

/// `s` without its trailing white space.
pub open spec fn trim_end(s: Seq<char>) -> Seq<char>
    decreases s.len(),
{
    if s.len() > 0 && is_white_space(s.last()) {
        trim_end(s.drop_last())
    } else {
        s
    }
}

/// `s` without leading and trailing white space.
pub open spec fn trim(s: Seq<char>) -> Seq<char> {
    trim_end(trim_start(s))
}

/// Whether `s` holds nothing but white space.
pub open spec fn is_blank(s: Seq<char>) -> bool {
    trim(s).len() == 0
}

pub open spec fn starts(s: Seq<char>, p: Seq<char>) -> bool {
    p.len() <= s.len() && s.take(p.len() as int) == p
}

pub open spec fn ends(s: Seq<char>, p: Seq<char>) -> bool {
    p.len() <= s.len() && s.skip(s.len() - p.len()) == p
}

pub fn trim_start_text(s: &str) -> (r: String)
    ensures
        r@ == trim_start(s@),
{
    let x = to_chars(s);
    let mut i: usize = 0;
    assert(x@.skip(0) =~= x@);
    while i < x.len() && white_space(x[i])
        invariant
            i <= x.len(),
            x@ == s@,
            trim_start(s@) == trim_start(x@.skip(i as int)),
        decreases x.len() - i,
    {
        assert(x@.skip(i as int).skip(1) =~= x@.skip(i + 1));
        i += 1;
    }
    assert(x@.skip(i as int) =~= x@.subrange(i as int, x@.len() as int));
    slice_text(x.as_slice(), i, x.len())
}

pub fn trim_text(s: &str) -> (r: String)
    ensures
        r@ == trim(s@),
{
    let t = trim_start_text(s);
    let x = to_chars(t.as_str());
    let mut n: usize = x.len();
    assert(x@.take(n as int) =~= x@);
    while n > 0 && white_space(x[n - 1])
        invariant
            n <= x.len(),
            trim(s@) == trim_end(x@.take(n as int)),
        decreases n,
    {
        assert(x@.take(n as int).drop_last() =~= x@.take(n - 1));
        n -= 1;
    }
    assert(x@.take(n as int) =~= x@.subrange(0, n as int));
    slice_text(x.as_slice(), 0, n)
}

pub fn blank(s: &str) -> (r: bool)
    ensures
        r == is_blank(s@),
{
    let t = trim_text(s);
    to_chars(t.as_str()).len() == 0
}

pub fn empty_text(s: &str) -> (r: bool)
    ensures
        r == (s@.len() == 0),
{
    to_chars(s).len() == 0
}

pub fn strip_prefix_text(s: &str, p: &str) -> (r: Option<String>)
    ensures
        match r {
            Some(rest) => starts(s@, p@) && rest@ == s@.skip(p@.len() as int),
            None => !starts(s@, p@),
        },
{
    let x = to_chars(s);
    let y = to_chars(p);
    if x.len() < y.len() {
        return None;
    }
    let mut i: usize = 0;
    while i < y.len()
        invariant
            i <= y.len() <= x.len(),
            x@ == s@,
            y@ == p@,
            forall|k: int| 0 <= k < i ==> x@[k] == y@[k],
        decreases y.len() - i,
    {
        if x[i] != y[i] {
            assert(s@.take(p@.len() as int)[i as int] != p@[i as int]);
            return None;
        }
        i += 1;
    }
    assert(s@.take(p@.len() as int) =~= p@);
    assert(s@.skip(p@.len() as int) =~= s@.subrange(p@.len() as int, s@.len() as int));
    Some(slice_text(x.as_slice(), y.len(), x.len()))
}

pub fn strip_suffix_text(s: &str, p: &str) -> (r: Option<String>)
    ensures
        match r {
            Some(rest) => ends(s@, p@) && rest@ == s@.take(s@.len() - p@.len()),
            None => !ends(s@, p@),
        },
{
    let x = to_chars(s);
    let y = to_chars(p);
    if x.len() < y.len() {
        return None;
    }
    let d: usize = x.len() - y.len();
    let mut i: usize = 0;
    while i < y.len()
        invariant
            i <= y.len() <= x.len(),
            d == x.len() - y.len(),
            x@ == s@,
            y@ == p@,
            forall|k: int| 0 <= k < i ==> x@[d + k] == y@[k],
        decreases y.len() - i,
    {
        if x[d + i] != y[i] {
            assert(s@.skip(d as int)[i as int] != p@[i as int]);
            return None;
        }
        i += 1;
    }
    assert(s@.skip(d as int) =~= p@);
    assert(s@.take(d as int) =~= s@.subrange(0, d as int));
    Some(slice_text(x.as_slice(), 0, d))
}

pub fn starts_with_text(s: &str, p: &str) -> (r: bool)
    ensures
        r == starts(s@, p@),
{
    strip_prefix_text(s, p).is_some()
}

pub fn ends_with_text(s: &str, p: &str) -> (r: bool)
    ensures
        r == ends(s@, p@),
{
    strip_suffix_text(s, p).is_some()
}

pub fn lower_text(s: &str) -> (r: String)
    ensures
        r@ == lower(s@),
{
    let x = to_chars(s);
    let mut out = String::new();
    let mut i: usize = 0;
    while i < x.len()
        invariant
            i <= x.len(),
            x@ == s@,
            out@ == lower(s@).take(i as int),
        decreases x.len() - i,
    {
        let c = x[i];
        let l = if 'A' <= c && c <= 'Z' {
            (c as u8 + 32) as char
        } else {
            c
        };
        out.push(l);
        i += 1;
    }
    assert(lower(s@).take(i as int) =~= lower(s@));
    out
}

pub fn replace_text(s: &str, from: char, to: char) -> (r: String)
    ensures
        r@ == replaced(s@, from, to),
{
    let x = to_chars(s);
    let mut out = String::new();
    let mut i: usize = 0;
    while i < x.len()
        invariant
            i <= x.len(),
            x@ == s@,
            out@ == replaced(s@, from, to).take(i as int),
        decreases x.len() - i,
    {
        if x[i] == from {
            out.push(to);
        } else {
            out.push(x[i]);
        }
        i += 1;
    }
    assert(replaced(s@, from, to).take(i as int) =~= replaced(s@, from, to));
    out
}

/// `a` followed by `b`.
pub fn join_text(a: &str, b: &str) -> (r: String)
    ensures
        r@ == a@ + b@,
{
    let mut out = a.to_owned();
    let y = to_chars(b);
    let mut i: usize = 0;
    while i < y.len()
        invariant
            i <= y.len(),
            y@ == b@,
            out@ == a@ + y@.take(i as int),
        decreases y.len() - i,
    {
        out.push(y[i]);
        i += 1;
    }
    assert(y@.take(i as int) =~= y@);
    out
}

// ---------------------------------------------------------------------------
// Searching
// ---------------------------------------------------------------------------
/// Whether `needle` stands in `s` at position `i`.
pub open spec fn stands_at<T>(s: Seq<T>, needle: Seq<T>, i: int) -> bool {
    0 <= i && i + needle.len() <= s.len() && s.subrange(i, i + needle.len()) == needle
}

/// Whether `needle` stands somewhere in `s`.
pub open spec fn holds<T>(s: Seq<T>, needle: Seq<T>) -> bool {
    exists|i: int| stands_at(s, needle, i)
}

pub fn chars_at(s: &[char], needle: &[char], i: usize) -> (r: bool)
    ensures
        r == stands_at(s@, needle@, i as int),
{
    if needle.len() > s.len() || i > s.len() - needle.len() {
        return false;
    }
    let mut k: usize = 0;
    while k < needle.len()
        invariant
            k <= needle.len(),
            i + needle.len() <= s.len(),
            forall|j: int| 0 <= j < k ==> s@[i + j] == needle@[j],
        decreases needle.len() - k,
    {
        if s[i + k] != needle[k] {
            assert(s@.subrange(i as int, i + needle@.len())[k as int] != needle@[k as int]);
            return false;
        }
        k += 1;
    }
    assert(s@.subrange(i as int, i + needle@.len()) =~= needle@);
    true
}

/// The last position at which `needle` stands in `s`.
pub open spec fn is_last_position(s: Seq<char>, needle: Seq<char>, i: int) -> bool {
    stands_at(s, needle, i) && forall|k: int| k > i ==> !stands_at(s, needle, k)
}

pub fn last_position(s: &[char], needle: &[char]) -> (r: Option<usize>)
    ensures
        match r {
            Some(i) => is_last_position(s@, needle@, i as int),
            None => !holds(s@, needle@),
        },
{
    let mut i: usize = s.len();
    loop
        invariant
            i <= s.len(),
            forall|k: int| k > i ==> !stands_at(s@, needle@, k),
        decreases i,
    {
        if chars_at(s, needle, i) {
            return Some(i);
        }
        if i == 0 {
            return None;
        }
        i -= 1;
    }
}

/// Whether `needle` is not empty and stands somewhere in the bytes `s`.
pub fn contains_bytes(s: &[u8], needle: &[u8]) -> (r: bool)
    ensures
        r == (needle@.len() > 0 && holds(s@, needle@)),
{
    if needle.len() == 0 {
        return false;
    }
    let mut i: usize = 0;
    loop
        invariant
            i <= s.len(),
            needle.len() > 0,
            forall|k: int| 0 <= k < i ==> !stands_at(s@, needle@, k),
        decreases s.len() - i,
    {
        if needle.len() > s.len() || i > s.len() - needle.len() {
            return false;
        }
        let mut k: usize = 0;
        while k < needle.len() && s[i + k] == needle[k]
            invariant
                k <= needle.len(),
                i + needle.len() <= s.len(),
                forall|j: int| 0 <= j < k ==> s@[i + j] == needle@[j],
            decreases needle.len() - k,
        {
            k += 1;
        }
        if k >= needle.len() {
            assert(s@.subrange(i as int, i + needle@.len()) =~= needle@);
            assert(stands_at(s@, needle@, i as int));
            return true;
        }
        assert(s@.subrange(i as int, i + needle@.len())[k as int] != needle@[k as int]);
        if i == s.len() {
            return false;
        }
        i += 1;
    }
}

// ---------------------------------------------------------------------------
// Lists of texts
// ---------------------------------------------------------------------------
pub fn contains_text(v: &Vec<String>, s: &str) -> (r: bool)
    ensures
        r == texts(v@).contains(s@),
{
    let mut i: usize = 0;
    while i < v.len()
        invariant
            i <= v.len(),
            forall|k: int| 0 <= k < i ==> texts(v@)[k] != s@,
        decreases v.len() - i,
    {
        if same_text(v[i].as_str(), s) {
            assert(texts(v@)[i as int] == s@);
            return true;
        }
        i += 1;
    }
    false
}

/// A list with `s` added at its end, unless the list holds it already.
pub open spec fn with_text(v: Seq<Seq<char>>, s: Seq<char>) -> Seq<Seq<char>> {
    if v.contains(s) {
        v
    } else {
        v.push(s)
    }
}

/// A list with each of `more` added at its end, unless it is held already.
pub open spec fn with_texts(v: Seq<Seq<char>>, more: Seq<Seq<char>>) -> Seq<Seq<char>>
    decreases more.len(),
{
    if more.len() == 0 {
        v
    } else {
        with_text(with_texts(v, more.drop_last()), more.last())
    }
}

pub fn insert_text(v: &mut Vec<String>, s: String) -> (added: bool)
    ensures
        texts(final(v)@) == with_text(texts(old(v)@), s@),
        added == !texts(old(v)@).contains(s@),
{
    if contains_text(v, s.as_str()) {
        false
    } else {
        v.push(s);
        assert(texts(v@) =~= texts(old(v)@).push(s@));
        true
    }
}

pub fn insert_texts(v: &mut Vec<String>, more: &Vec<String>)
    ensures
        texts(final(v)@) == with_texts(texts(old(v)@), texts(more@)),
{
    let mut i: usize = 0;
    while i < more.len()
        invariant
            i <= more.len(),
            texts(v@) == with_texts(texts(old(v)@), texts(more@).take(i as int)),
        decreases more.len() - i,
    {
        assert(texts(more@).take(i + 1).drop_last() =~= texts(more@).take(i as int));
        let s = copy_text(more[i].as_str());
        insert_text(v, s);
        i += 1;
    }
    assert(texts(more@).take(i as int) =~= texts(more@));
}

/// A list built with `with_texts` holds what both lists hold, and nothing twice
/// where the first list held nothing twice.
pub proof fn lemma_with_texts(v: Seq<Seq<char>>, more: Seq<Seq<char>>)
    ensures
        forall|s: Seq<char>|
            #[trigger] with_texts(v, more).contains(s) <==> v.contains(s) || more.contains(s),
        v.no_duplicates() ==> with_texts(v, more).no_duplicates(),
        v.is_prefix_of(with_texts(v, more)),
    decreases more.len(),
{
    if more.len() > 0 {
        let init = more.drop_last();
        lemma_with_texts(v, init);
        let w = with_texts(v, init);
        assert(more =~= init.push(more.last()));
        assert forall|s: Seq<char>| #[trigger]
            with_texts(v, more).contains(s) <==> v.contains(s) || more.contains(s) by {
            lemma_push_contains(w, more.last(), s);
            lemma_push_contains(init, more.last(), s);
        }
        if v.no_duplicates() && !w.contains(more.last()) {
            assert(w.push(more.last()).no_duplicates());
        }
    }
}

pub proof fn lemma_push_contains<T>(v: Seq<T>, x: T, y: T)
    ensures
        v.push(x).contains(y) <==> v.contains(y) || x == y,
{
    if v.contains(y) {
        let i = choose|i: int| 0 <= i < v.len() && v[i] == y;
        assert(v.push(x)[i] == y);
    }
    if x == y {
        assert(v.push(x)[v.len() as int] == y);
    }
    if v.push(x).contains(y) {
        let i = choose|i: int| 0 <= i < v.push(x).len() && v.push(x)[i] == y;
        if i < v.len() {
            assert(v[i] == y);
        }
    }
}

/// Strictly ascending order, which leaves no room for two equal texts.
pub open spec fn ascending(v: Seq<Seq<char>>) -> bool {
    forall|i: int, j: int| 0 <= i < j < v.len() ==> text_less(v[i], v[j])
}

/// Whether `v` lists exactly what `u` holds, each text once, in ascending order.
pub open spec fn is_sorted_set(v: Seq<Seq<char>>, u: Seq<Seq<char>>) -> bool {
    ascending(v) && forall|s: Seq<char>| #[trigger] v.contains(s) <==> u.contains(s)
}

/// Adds `s` to an ascending list, which stays ascending.
pub fn insert_ascending(v: &mut Vec<String>, s: String)
    requires
        ascending(texts(old(v)@)),
    ensures
        ascending(texts(final(v)@)),
        forall|t: Seq<char>| #[trigger]
            texts(final(v)@).contains(t) <==> texts(old(v)@).contains(t) || t == s@,
{
    let mut i: usize = 0;
    while i < v.len() && less_text(v[i].as_str(), s.as_str())
        invariant
            i <= v.len(),
            ascending(texts(v@)),
            forall|k: int| 0 <= k < i ==> text_less(texts(v@)[k], s@),
        decreases v.len() - i,
    {
        i += 1;
    }
    let ghost before = texts(v@);
    if i < v.len() && same_text(v[i].as_str(), s.as_str()) {
        assert(before[i as int] == s@);
        return;
    }
    let ghost t = s@;
    v.insert(i, s);
    let ghost after = texts(v@);
    proof {
        assert(after =~= before.insert(i as int, t));
        assert forall|a: int, b: int| 0 <= a < b < after.len() implies text_less(
            after[a],
            after[b],
        ) by {
            if i < before.len() {
                lemma_text_less_total(before[i as int], t);
            }
            if a == i && b > i + 1 {
                lemma_text_less_transitive(t, before[i as int], before[b - 1]);
            }
        }
        assert forall|u: Seq<char>| #[trigger] after.contains(u) <==> before.contains(u) || u
            == t by {
            if before.contains(u) {
                let k = choose|k: int| 0 <= k < before.len() && before[k] == u;
                assert(after[if k < i { k } else { k + 1 }] == u);
            }
            if u == t {
                assert(after[i as int] == u);
            }
            if after.contains(u) {
                let k = choose|k: int| 0 <= k < after.len() && after[k] == u;
                if k < i {
                    assert(before[k] == u);
                } else if k > i {
                    assert(before[k - 1] == u);
                }
            }
        }
    }
}

/// The distinct texts of `v` in ascending order.
pub fn sorted_set(v: &Vec<String>) -> (r: Vec<String>)
    ensures
        is_sorted_set(texts(r@), texts(v@)),
{
    let mut out: Vec<String> = Vec::new();
    let mut i: usize = 0;
    while i < v.len()
        invariant
            i <= v.len(),
            ascending(texts(out@)),
            forall|t: Seq<char>| #[trigger]
                texts(out@).contains(t) <==> texts(v@).take(i as int).contains(t),
        decreases v.len() - i,
    {
        let ghost before = texts(out@);
        let s = copy_text(v[i].as_str());
        insert_ascending(&mut out, s);
        proof {
            let whole = texts(v@);
            assert(whole.take(i + 1) =~= whole.take(i as int).push(whole[i as int]));
            assert forall|t: Seq<char>| #[trigger]
                texts(out@).contains(t) <==> whole.take(i + 1).contains(t) by {
                lemma_push_contains(whole.take(i as int), whole[i as int], t);
            }
        }
        i += 1;
    }
    assert(texts(v@).take(i as int) =~= texts(v@));
    out
}

/// An ascending list is determined by what it holds.
pub proof fn lemma_ascending_unique(a: Seq<Seq<char>>, b: Seq<Seq<char>>)
    requires
        ascending(a),
        ascending(b),
        forall|s: Seq<char>| #[trigger] a.contains(s) <==> b.contains(s),
    ensures
        a == b,
    decreases a.len() + b.len(),
{
    if a.len() == 0 {
        if b.len() > 0 {
            assert(b.contains(b[0]));
            assert(a.contains(b[0]));
        }
        assert(a =~= b);
    } else if b.len() == 0 {
        assert(a.contains(a[0]));
        assert(b.contains(a[0]));
    } else {
        let x = a.last();
        let y = b.last();
        assert(a.contains(x) && b.contains(y));
        assert(b.contains(x) && a.contains(y));
        let i = choose|i: int| 0 <= i < b.len() && b[i] == x;
        let j = choose|j: int| 0 <= j < a.len() && a[j] == y;
        lemma_text_less_total(x, y);
        assert(x == y) by {
            if i < b.len() - 1 && j < a.len() - 1 {
                assert(text_less(b[i], b[b.len() - 1]));
                assert(text_less(a[j], a[a.len() - 1]));
            }
        }
        let a1 = a.drop_last();
        let b1 = b.drop_last();
        assert forall|s: Seq<char>| #[trigger] a1.contains(s) <==> b1.contains(s) by {
            lemma_text_less_total(x, x);
            if a1.contains(s) {
                let k = choose|k: int| 0 <= k < a1.len() && a1[k] == s;
                assert(a[k] == s && text_less(a[k], a[a.len() - 1]));
                assert(a.contains(s));
                assert(b.contains(s));
                let m = choose|m: int| 0 <= m < b.len() && b[m] == s;
                assert(b1[m] == s);
            }
            if b1.contains(s) {
                let k = choose|k: int| 0 <= k < b1.len() && b1[k] == s;
                assert(b[k] == s && text_less(b[k], b[b.len() - 1]));
                assert(b.contains(s));
                assert(a.contains(s));
                let m = choose|m: int| 0 <= m < a.len() && a[m] == s;
                assert(a1[m] == s);
            }
        }
        lemma_ascending_unique(a1, b1);
        assert(a =~= a1.push(x));
        assert(b =~= b1.push(y));
    }
}

// ---------------------------------------------------------------------------
// Lines
// ---------------------------------------------------------------------------
/// The lines of `s`, each with the `end` that closes it; the last line may lack it.
pub open spec fn lines_of<T>(s: Seq<T>, end: T) -> Seq<Seq<T>>
    decreases s.len(),
{
    if s.len() == 0 {
        Seq::empty()
    } else {
        let before = lines_of(s.drop_last(), end);
        if before.len() > 0 && before.last().len() > 0 && before.last().last() != end {
            before.drop_last().push(before.last().push(s.last()))
        } else {
            before.push(seq![s.last()])
        }
    }
}

/// A line: not empty, and `end` stands nowhere but at its end.
pub open spec fn is_line<T>(l: Seq<T>, end: T) -> bool {
    l.len() > 0 && forall|i: int| 0 <= i < l.len() - 1 ==> l[i] != end
}

/// Lines that follow each other: only the last one may lack its `end`.
pub open spec fn are_lines<T>(ls: Seq<Seq<T>>, end: T) -> bool {
    &&& forall|i: int| 0 <= i < ls.len() ==> is_line(#[trigger] ls[i], end)
    &&& forall|i: int| 0 <= i < ls.len() - 1 ==> (#[trigger] ls[i]).last() == end
}

/// All of `ls` in one piece.
pub open spec fn joined<T>(ls: Seq<Seq<T>>) -> Seq<T>
    decreases ls.len(),
{
    if ls.len() == 0 {
        Seq::empty()
    } else {
        joined(ls.drop_last()) + ls.last()
    }
}

/// Splitting into lines loses nothing.
pub proof fn lemma_lines_join<T>(s: Seq<T>, end: T)
    ensures
        joined(lines_of(s, end)) == s,
        are_lines(lines_of(s, end), end),
        s.len() > 0 ==> lines_of(s, end).len() > 0,
        s.len() > 0 ==> lines_of(s, end).last().last() == s.last(),
    decreases s.len(),
{
    if s.len() == 0 {
        assert(joined(lines_of(s, end)) =~= s);
    } else {
        let init = s.drop_last();
        lemma_lines_join(init, end);
        let before = lines_of(init, end);
        let after = lines_of(s, end);
        assert(s =~= init.push(s.last()));
        if before.len() > 0 && before.last().len() > 0 && before.last().last() != end {
            assert(after.drop_last() =~= before.drop_last());
            assert(joined(after) == joined(before.drop_last()) + before.last().push(s.last()));
            assert(joined(before) == joined(before.drop_last()) + before.last());
            assert(joined(after) =~= s);
        } else {
            assert(after.drop_last() =~= before);
            assert(joined(after) =~= s);
        }
    }
}

proof fn lemma_lines_append<T>(x: Seq<T>, l: Seq<T>, end: T)
    requires
        is_line(l, end),
        x.len() > 0 ==> x.last() == end,
    ensures
        lines_of(x + l, end) == lines_of(x, end).push(l),
    decreases l.len(),
{
    lemma_lines_join(x, end);
    let whole = x + l;
    assert(whole.last() == l.last());
    assert(whole.drop_last() =~= x + l.drop_last());
    if l.len() == 1 {
        assert(x + l.drop_last() =~= x);
        assert(l =~= seq![l.last()]);
    } else {
        let short = l.drop_last();
        assert(is_line(short, end));
        lemma_lines_append(x, short, end);
        assert(short.last() == l[l.len() - 2]);
        assert(l =~= short.push(l.last()));
        let before = lines_of(x, end).push(short);
        assert(before.drop_last() =~= lines_of(x, end));
    }
}

/// Lines put together split into the same lines again.
pub proof fn lemma_lines_split<T>(ls: Seq<Seq<T>>, end: T)
    requires
        are_lines(ls, end),
    ensures
        lines_of(joined(ls), end) == ls,
        ls.len() > 0 ==> joined(ls).len() > 0 && joined(ls).last() == ls.last().last(),
    decreases ls.len(),
{
    if ls.len() == 0 {
        assert(lines_of(joined(ls), end) =~= ls);
    } else {
        let init = ls.drop_last();
        assert(are_lines(init, end)) by {
            assert forall|i: int| 0 <= i < init.len() - 1 implies (#[trigger] init[i]).last()
                == end by {
                assert(init[i] == ls[i]);
            }
            assert forall|i: int| 0 <= i < init.len() implies is_line(#[trigger] init[i], end) by {
                assert(init[i] == ls[i]);
            }
        }
        lemma_lines_split(init, end);
        assert(is_line(ls[ls.len() - 1], end));
        if init.len() > 0 {
            assert(ls[ls.len() - 2].last() == end);
        }
        lemma_lines_append(joined(init), ls.last(), end);
        assert(ls =~= init.push(ls.last()));
    }
}

/// What a list of byte strings holds.
pub open spec fn byte_texts(v: Seq<Vec<u8>>) -> Seq<Seq<u8>> {
    v.map_values(|b: Vec<u8>| b@)
}

/// The lines of a byte string.
pub fn byte_lines(s: &[u8]) -> (r: Vec<Vec<u8>>)
    ensures
        byte_texts(r@) == lines_of(s@, 10u8),
{
    let mut out: Vec<Vec<u8>> = Vec::new();
    let mut line: Vec<u8> = Vec::new();
    let mut i: usize = 0;
    while i < s.len()
        invariant
            i <= s.len(),
            line@.len() > 0 ==> line@.last() != 10u8,
            lines_of(s@.take(i as int), 10u8) == if line@.len() > 0 {
                byte_texts(out@).push(line@)
            } else {
                byte_texts(out@)
            },
            out@.len() > 0 ==> byte_texts(out@).last().len() > 0 && byte_texts(out@).last().last()
                == 10u8,
        decreases s.len() - i,
    {
        let ghost before = byte_texts(out@);
        let ghost part = line@;
        assert(s@.take(i + 1).drop_last() =~= s@.take(i as int));
        line.push(s[i]);
        assert(before.push(part).drop_last() =~= before);
        assert(part.len() == 0 ==> line@ =~= seq![s@[i as int]]);
        if s[i] == 10 {
            let full = line;
            let ghost full_view = full@;
            out.push(full);
            assert(byte_texts(out@) =~= before.push(full_view));
            line = Vec::new();
        }
        i += 1;
    }
    assert(s@.take(i as int) =~= s@);
    if line.len() > 0 {
        let ghost before = byte_texts(out@);
        let ghost rest = line@;
        out.push(line);
        assert(byte_texts(out@) =~= before.push(rest));
    }
    out
}

/// The lines of a text.
pub fn text_lines(s: &str) -> (r: Vec<String>)
    ensures
        texts(r@) == lines_of(s@, '\n'),
{
    let x = to_chars(s);
    let mut out: Vec<String> = Vec::new();
    let mut line: Vec<char> = Vec::new();
    let mut i: usize = 0;
    while i < x.len()
        invariant
            i <= x.len(),
            x@ == s@,
            line@.len() > 0 ==> line@.last() != '\n',
            lines_of(s@.take(i as int), '\n') == if line@.len() > 0 {
                texts(out@).push(line@)
            } else {
                texts(out@)
            },
            out@.len() > 0 ==> texts(out@).last().len() > 0 && texts(out@).last().last() == '\n',
        decreases x.len() - i,
    {
        let ghost before = texts(out@);
        let ghost part = line@;
        assert(s@.take(i + 1).drop_last() =~= s@.take(i as int));
        line.push(x[i]);
        assert(before.push(part).drop_last() =~= before);
        assert(part.len() == 0 ==> line@ =~= seq![s@[i as int]]);
        if x[i] == '\n' {
            let full = to_text(line.as_slice());
            let ghost full_view = full@;
            out.push(full);
            assert(texts(out@) =~= before.push(full_view));
            line = Vec::new();
        }
        i += 1;
    }
    assert(s@.take(i as int) =~= s@);
    if line.len() > 0 {
        let ghost before = texts(out@);
        let rest = to_text(line.as_slice());
        let ghost rest_view = rest@;
        out.push(rest);
        assert(texts(out@) =~= before.push(rest_view));
    }
    out
}

/// A line without its line ending, which is a line feed or a carriage return and
/// a line feed.
pub open spec fn line_body(l: Seq<char>) -> Seq<char> {
    if l.len() > 0 && l.last() == '\n' {
        if l.len() > 1 && l[l.len() - 2] == '\r' {
            l.take(l.len() - 2)
        } else {
            l.drop_last()
        }
    } else {
        l
    }
}

pub fn line_body_text(l: &str) -> (r: String)
    ensures
        r@ == line_body(l@),
{
    let x = to_chars(l);
    let mut n: usize = x.len();
    if n > 0 && x[n - 1] == '\n' {
        n -= 1;
        if n > 0 && x[n - 1] == '\r' {
            n -= 1;
        }
    }
    let r = slice_text(x.as_slice(), 0, n);
    assert(r@ =~= line_body(l@));
    r
}

// ---------------------------------------------------------------------------
// Texts put together
// ---------------------------------------------------------------------------
/// Puts `s` at the end of `out`.
pub fn append_text(out: &mut String, s: &str)
    ensures
        final(out)@ == old(out)@ + s@,
{
    let ghost before = out@;
    let x = to_chars(s);
    let mut i: usize = 0;
    assert(before + x@.take(0) =~= before);
    while i < x.len()
        invariant
            i <= x.len(),
            x@ == s@,
            out@ == before + x@.take(i as int),
        decreases x.len() - i,
    {
        out.push(x[i]);
        assert(before + x@.take(i + 1) =~= (before + x@.take(i as int)).push(x@[i as int]));
        i += 1;
    }
    assert(x@.take(i as int) =~= x@);
}

/// Texts with `sep` between them.
pub open spec fn separated(v: Seq<Seq<char>>, sep: Seq<char>) -> Seq<char>
    decreases v.len(),
{
    if v.len() == 0 {
        Seq::empty()
    } else if v.len() == 1 {
        v[0]
    } else {
        separated(v.drop_last(), sep) + sep + v.last()
    }
}

/// Texts with `sep` between them.
pub fn separate_texts(v: &Vec<String>, sep: &str) -> (r: String)
    ensures
        r@ == separated(texts(v@), sep@),
{
    let ghost all = texts(v@);
    let mut out = copy_text("");
    proof {
        reveal_strlit("");
        assert(out@ =~= Seq::<char>::empty());
    }
    let mut i: usize = 0;
    while i < v.len()
        invariant
            i <= v.len(),
            all == texts(v@),
            out@ == separated(all.take(i as int), sep@),
        decreases v.len() - i,
    {
        let ghost now = all.take(i + 1);
        assert(now.drop_last() =~= all.take(i as int));
        assert(now.last() == v@[i as int]@);
        if i > 0 {
            append_text(&mut out, sep);
        }
        append_text(&mut out, v[i].as_str());
        assert(out@ =~= separated(now, sep@));
        i += 1;
    }
    assert(all.take(i as int) =~= all);
    out
}

// ---------------------------------------------------------------------------
// Decimal numbers
// ---------------------------------------------------------------------------
/// The decimal digits of `n`.
pub open spec fn decimal(n: nat) -> Seq<char>
    decreases n,
{
    if n < 10 {
        seq![(48 + n) as char]
    } else {
        decimal(n / 10).push((48 + n % 10) as char)
    }
}

pub fn decimal_text(n: u64) -> (r: String)
    ensures
        r@ == decimal(n as nat),
    decreases n,
{
    let last = (48 + (n % 10) as u8) as char;
    if n < 10 {
        let mut out = String::new();
        out.push(last);
        assert(out@ =~= decimal(n as nat));
        out
    } else {
        let mut out = decimal_text(n / 10);
        out.push(last);
        out
    }
}

/// The digits of a number are decimal digits, and there is at least one.
pub proof fn lemma_decimal_digits(n: nat)
    ensures
        decimal(n).len() > 0,
        forall|i: int| 0 <= i < decimal(n).len() ==> is_digit(#[trigger] decimal(n)[i]),
    decreases n,
{
    if n >= 10 {
        lemma_decimal_digits(n / 10);
    }
}

// ---------------------------------------------------------------------------
// Laws
// ---------------------------------------------------------------------------
/// Whether a text holds nothing but white space.
pub open spec fn all_white(s: Seq<char>) -> bool {
    forall|i: int| 0 <= i < s.len() ==> is_white_space(#[trigger] s[i])
}

/// Of the characters below 128, white space is what separates words and lines: tab, line
/// feed, vertical tab, form feed, carriage return and space. No letter, digit, quote,
/// bracket or separator of a path is white space.
pub proof fn lemma_ascii_white_space(c: char)
    requires
        (c as u32) < 128,
    ensures
        is_white_space(c) <==> c == '\t' || c == '\n' || c as u32 == 11 || c as u32 == 12 || c
            == '\r' || c == ' ',
{
}

/// Taking white space off the front of a text takes off all of it, and nothing else.
pub proof fn lemma_trim_start_takes_white_space_off(w: Seq<char>, s: Seq<char>)
    requires
        all_white(w),
        s.len() > 0 ==> !is_white_space(s[0]),
    ensures
        trim_start(w + s) == s,
    decreases w.len(),
{
    if w.len() == 0 {
        assert(w + s =~= s);
    } else {
        assert((w + s).skip(1) =~= w.skip(1) + s);
        assert(is_white_space(w[0]));
        assert forall|i: int| 0 <= i < w.skip(1).len() implies is_white_space(
            #[trigger] w.skip(1)[i],
        ) by {
            assert(is_white_space(w[i + 1]));
        }
        lemma_trim_start_takes_white_space_off(w.skip(1), s);
    }
}

/// Taking white space off the end of a text takes off all of it, and nothing else.
pub proof fn lemma_trim_end_takes_white_space_off(s: Seq<char>, w: Seq<char>)
    requires
        all_white(w),
        s.len() > 0 ==> !is_white_space(s.last()),
    ensures
        trim_end(s + w) == s,
    decreases w.len(),
{
    if w.len() == 0 {
        assert(s + w =~= s);
    } else {
        assert((s + w).drop_last() =~= s + w.drop_last());
        assert(is_white_space(w[w.len() - 1]));
        assert forall|i: int| 0 <= i < w.drop_last().len() implies is_white_space(
            #[trigger] w.drop_last()[i],
        ) by {
            assert(is_white_space(w[i]));
        }
        lemma_trim_end_takes_white_space_off(s, w.drop_last());
    }
}

/// Trimming gives back what stands between white space.
pub proof fn lemma_trim_takes_white_space_off(before: Seq<char>, s: Seq<char>, after: Seq<char>)
    requires
        all_white(before),
        all_white(after),
        s.len() > 0 ==> !is_white_space(s[0]) && !is_white_space(s.last()),
    ensures
        trim(before + s + after) == s,
{
    if s.len() == 0 {
        let w = before + after;
        assert forall|i: int| 0 <= i < w.len() implies is_white_space(#[trigger] w[i]) by {
            if i < before.len() {
                assert(is_white_space(before[i]));
            } else {
                assert(is_white_space(after[i - before.len()]));
            }
        }
        assert(before + s + after =~= w + Seq::<char>::empty());
        lemma_trim_start_takes_white_space_off(w, Seq::empty());
        assert(trim_end(Seq::<char>::empty()) =~= s);
    } else {
        assert(before + s + after =~= before + (s + after));
        assert((s + after)[0] == s[0]);
        lemma_trim_start_takes_white_space_off(before, s + after);
        lemma_trim_end_takes_white_space_off(s, after);
    }
}

/// Every text is white space, what trimming leaves, and white space again. What is left
/// neither begins nor ends with white space.
pub proof fn lemma_trim_splits(s: Seq<char>)
    ensures
        exists|before: Seq<char>, after: Seq<char>|
            all_white(before) && all_white(after) && s == #[trigger] (before + trim(s) + after),
        trim(s).len() > 0 ==> !is_white_space(trim(s)[0]) && !is_white_space(trim(s).last()),
{
    let t = trim_start(s);
    lemma_trim_start_splits(s);
    lemma_trim_end_splits(t);
    let before = s.take(s.len() - t.len());
    let after = t.skip(trim_end(t).len() as int);
    assert(s =~= before + trim(s) + after);
}

/// Taking white space off the front splits a text in white space and what does not begin
/// with any.
pub proof fn lemma_trim_start_splits(s: Seq<char>)
    ensures
        trim_start(s).len() <= s.len(),
        trim_start(s) == s.skip(s.len() - trim_start(s).len()),
        all_white(s.take(s.len() - trim_start(s).len())),
        trim_start(s).len() > 0 ==> !is_white_space(trim_start(s)[0]),
    decreases s.len(),
{
    if s.len() > 0 && is_white_space(s[0]) {
        let r = s.skip(1);
        lemma_trim_start_splits(r);
        let n = s.len() - trim_start(s).len();
        assert(s.skip(n) =~= r.skip(n - 1));
        assert forall|i: int| 0 <= i < n implies is_white_space(#[trigger] s.take(n)[i]) by {
            if i > 0 {
                assert(is_white_space(r.take(n - 1)[i - 1]));
            }
        }
    } else {
        assert(s.skip(0) =~= s);
    }
}

proof fn lemma_trim_end_splits(s: Seq<char>)
    ensures
        trim_end(s).len() <= s.len(),
        trim_end(s) == s.take(trim_end(s).len() as int),
        all_white(s.skip(trim_end(s).len() as int)),
        trim_end(s).len() > 0 ==> !is_white_space(trim_end(s).last()),
        trim_end(s).len() > 0 ==> trim_end(s)[0] == s[0],
    decreases s.len(),
{
    if s.len() > 0 && is_white_space(s.last()) {
        let r = s.drop_last();
        lemma_trim_end_splits(r);
        let n = trim_end(s).len() as int;
        assert(s.take(n) =~= r.take(n));
        assert forall|i: int| 0 <= i < s.skip(n).len() implies is_white_space(
            #[trigger] s.skip(n)[i],
        ) by {
            if n + i < s.len() - 1 {
                assert(is_white_space(r.skip(n)[i]));
            }
        }
    } else {
        assert(s.take(s.len() as int) =~= s);
    }
}

/// A text is blank where it holds nothing but white space, and only there.
pub proof fn lemma_blank_is_white_space(s: Seq<char>)
    ensures
        is_blank(s) <==> all_white(s),
{
    lemma_trim_splits(s);
    if is_blank(s) {
        let (before, after) = choose|before: Seq<char>, after: Seq<char>|
            all_white(before) && all_white(after) && s == #[trigger] (before + trim(s) + after);
        assert forall|i: int| 0 <= i < s.len() implies is_white_space(#[trigger] s[i]) by {
            if i < before.len() {
                assert(s[i] == before[i]);
            } else {
                assert(s[i] == after[i - before.len()]);
            }
        }
    }
    if all_white(s) {
        assert(s + Seq::<char>::empty() + Seq::<char>::empty() =~= s);
        lemma_trim_takes_white_space_off(s, Seq::empty(), Seq::empty());
    }
}

/// A text that neither begins nor ends with white space is left as it is.
pub proof fn lemma_trimmed_is_kept(s: Seq<char>)
    requires
        s.len() > 0 ==> !is_white_space(s[0]) && !is_white_space(s.last()),
    ensures
        trim(s) == s,
        trim_start(s) == s,
{
    assert(Seq::<char>::empty() + s + Seq::<char>::empty() =~= s);
    assert(Seq::<char>::empty() + s =~= s);
    lemma_trim_takes_white_space_off(Seq::empty(), s, Seq::empty());
    lemma_trim_start_takes_white_space_off(Seq::empty(), s);
}

/// Lower case keeps every character but the letters from `A` to `Z`, which become those
/// from `a` to `z` in the same order.
pub proof fn lemma_lower_case(s: Seq<char>)
    ensures
        lower(s).len() == s.len(),
        forall|i: int|
            0 <= i < s.len() ==> {
                &&& 'A' <= s[i] <= 'Z' ==> #[trigger] lower(s)[i] as u32 - 'a' as u32 == s[i] as u32
                    - 'A' as u32
                &&& !('A' <= s[i] <= 'Z') ==> lower(s)[i] == s[i]
            },
{
}

/// A text begins with another where it is that text and something behind it, and ends
/// with another where it is something and that text behind it.
pub proof fn lemma_starts_and_ends(s: Seq<char>, p: Seq<char>)
    ensures
        starts(s, p) <==> exists|rest: Seq<char>| s == #[trigger] (p + rest),
        ends(s, p) <==> exists|front: Seq<char>| s == #[trigger] (front + p),
{
    if starts(s, p) {
        assert(s =~= p + s.skip(p.len() as int));
    }
    if exists|rest: Seq<char>| s == #[trigger] (p + rest) {
        assert(s.take(p.len() as int) =~= p);
    }
    if ends(s, p) {
        assert(s =~= s.take(s.len() - p.len()) + p);
    }
    if exists|front: Seq<char>| s == #[trigger] (front + p) {
        assert(s.skip(s.len() - p.len()) =~= p);
    }
}

/// A sequence holds another where it is something, the other one, and something again.
pub proof fn lemma_holds<T>(s: Seq<T>, needle: Seq<T>)
    ensures
        holds(s, needle) <==> exists|a: Seq<T>, b: Seq<T>| s == #[trigger] (a + needle + b),
{
    if holds(s, needle) {
        let i = choose|i: int| stands_at(s, needle, i);
        assert(s =~= s.take(i) + needle + s.skip(i + needle.len()));
    }
    if exists|a: Seq<T>, b: Seq<T>| s == #[trigger] (a + needle + b) {
        let (a, b) = choose|a: Seq<T>, b: Seq<T>| s == #[trigger] (a + needle + b);
        assert(s.subrange(a.len() as int, (a.len() + needle.len()) as int) =~= needle);
        assert(stands_at(s, needle, a.len() as int));
    }
}

/// Replacing a character by another changes that character alone, wherever it stands.
pub proof fn lemma_replaced(s: Seq<char>, from: char, to: char)
    ensures
        replaced(s, from, to).len() == s.len(),
        forall|i: int|
            0 <= i < s.len() ==> #[trigger] replaced(s, from, to)[i] == if s[i] == from {
                to
            } else {
                s[i]
            },
{
}

/// The body of a line is the line without its line feed and the carriage return before
/// it.
pub proof fn lemma_line_body(s: Seq<char>)
    ensures
        !s.contains('\n') ==> line_body(s) == s,
        s.len() == 0 || s.last() != '\r' ==> line_body(s.push('\n')) == s,
        line_body(s.push('\r').push('\n')) == s,
{
    if s.len() > 0 && s.last() == '\n' {
        assert(s[s.len() - 1] == '\n');
    }
    assert(s.push('\n').drop_last() =~= s);
    assert(s.push('\r').push('\n').take(s.len() as int) =~= s);
}

/// Texts are ordered by the first character in which they differ; a text stands before
/// the longer ones that begin with it.
pub proof fn lemma_text_less_by_first_difference(
    common: Seq<char>,
    a: char,
    a_rest: Seq<char>,
    b: char,
    b_rest: Seq<char>,
)
    ensures
        text_less(common, common.push(b) + b_rest),
        text_less(common.push(a) + a_rest, common.push(b) + b_rest) <==> a < b || (a == b
            && text_less(a_rest, b_rest)),
    decreases common.len(),
{
    let x = common.push(a) + a_rest;
    let y = common.push(b) + b_rest;
    if common.len() == 0 {
        assert(x.skip(1) =~= a_rest);
        assert(y.skip(1) =~= b_rest);
        assert(x[0] == a && y[0] == b);
    } else {
        let c = common.skip(1);
        assert(x.skip(1) =~= c.push(a) + a_rest);
        assert(y.skip(1) =~= c.push(b) + b_rest);
        assert(x[0] == common[0] && y[0] == common[0]);
        lemma_text_less_by_first_difference(c, a, a_rest, b, b_rest);
    }
}

/// Adding texts to a list keeps what the list had, in its order, and puts each new text
/// once behind it, in the order the new texts first come up.
pub proof fn lemma_with_text_keeps_order(v: Seq<Seq<char>>, s: Seq<char>)
    ensures
        v.contains(s) ==> with_text(v, s) == v,
        !v.contains(s) ==> with_text(v, s) == v.push(s),
        with_text(v, s).contains(s),
{
    if !v.contains(s) {
        assert(v.push(s)[v.len() as int] == s);
    }
}

/// The value that decimal digits stand for.
pub open spec fn digits_value(s: Seq<char>) -> nat
    decreases s.len(),
{
    if s.len() == 0 {
        0
    } else {
        10 * digits_value(s.drop_last()) + (s.last() as u32 - '0' as u32) as nat
    }
}

/// The digits of a number stand for that number, without a zero in front.
pub proof fn lemma_decimal_value(n: nat)
    ensures
        digits_value(decimal(n)) == n,
        n > 0 ==> decimal(n)[0] != '0',
    decreases n,
{
    reveal_with_fuel(digits_value, 2);
    if n < 10 {
        assert(decimal(n).drop_last() =~= Seq::<char>::empty());
    } else {
        lemma_decimal_value(n / 10);
        lemma_decimal_digits(n / 10);
        assert(decimal(n).drop_last() =~= decimal(n / 10));
    }
}

/// Texts that are joined with a separator: nothing for no text, a text as it is, and the
/// separator between any two.
pub proof fn lemma_separated(v: Seq<Seq<char>>, sep: Seq<char>, s: Seq<char>)
    ensures
        separated(Seq::empty(), sep) == Seq::<char>::empty(),
        separated(seq![s], sep) == s,
        v.len() > 0 ==> separated(v.push(s), sep) == separated(v, sep) + sep + s,
{
    if v.len() > 0 {
        assert(v.push(s).drop_last() =~= v);
    }
}

proof fn lemma_joined_front<T>(l: Seq<T>, ls: Seq<Seq<T>>)
    ensures
        joined(seq![l] + ls) == l + joined(ls),
    decreases ls.len(),
{
    let all = seq![l] + ls;
    if ls.len() == 0 {
        assert(all.drop_last() =~= Seq::<Seq<T>>::empty());
        assert(joined(Seq::<Seq<T>>::empty()) == Seq::<T>::empty());
        assert(joined(all) =~= l + joined(ls));
    } else {
        assert(all.drop_last() =~= seq![l] + ls.drop_last());
        lemma_joined_front(l, ls.drop_last());
        assert(joined(all) =~= l + joined(ls));
    }
}

/// The first line is what stands up to the first `end`, with it; the other lines are those
/// of what follows. Without an `end` all is one line.
pub proof fn lemma_first_line<T>(line: Seq<T>, rest: Seq<T>, end: T)
    requires
        !line.contains(end),
    ensures
        lines_of(line.push(end) + rest, end) == seq![line.push(end)] + lines_of(rest, end),
        line.len() > 0 ==> lines_of(line, end) == seq![line],
{
    let first = line.push(end);
    let more = lines_of(rest, end);
    lemma_lines_join(rest, end);
    lemma_joined_front(first, more);
    let all = seq![first] + more;
    assert(is_line(first, end)) by {
        assert forall|i: int| 0 <= i < first.len() - 1 implies first[i] != end by {
            assert(first[i] == line[i]);
        }
    }
    assert forall|i: int| 0 <= i < all.len() implies is_line(#[trigger] all[i], end) by {
        if i > 0 {
            assert(all[i] == more[i - 1]);
        }
    }
    assert forall|i: int| 0 <= i < all.len() - 1 implies (#[trigger] all[i]).last() == end by {
        if i > 0 {
            assert(all[i] == more[i - 1]);
        }
    }
    lemma_lines_split(all, end);
    if line.len() > 0 {
        let one = seq![line];
        assert(is_line(line, end)) by {
            assert forall|i: int| 0 <= i < line.len() - 1 implies line[i] != end by {
                assert(line.contains(line[i]));
            }
        }
        assert(one.drop_last() =~= Seq::<Seq<T>>::empty());
        assert(joined(Seq::<Seq<T>>::empty()) == Seq::<T>::empty());
        assert(joined(one) =~= line);
        lemma_lines_split(one, end);
    }
}

/// White space at the end is taken off what stands behind a character that is none.
pub proof fn lemma_trim_end_behind(s: Seq<char>, tail: Seq<char>)
    requires
        s.len() > 0,
        !is_white_space(s.last()),
    ensures
        trim_end(s + tail) == s + trim_end(tail),
    decreases tail.len(),
{
    if tail.len() == 0 {
        assert(s + tail =~= s);
        assert(s + trim_end(tail) =~= s);
    } else if is_white_space(tail.last()) {
        assert((s + tail).drop_last() =~= s + tail.drop_last());
        lemma_trim_end_behind(s, tail.drop_last());
    }
}

/// White space is what Unicode calls so: besides the blanks and line breaks of ASCII the
/// next-line character, the no-break spaces, the spaces of typography, the separators of
/// lines and paragraphs and the ideographic space.
pub proof fn lemma_white_space_beyond_ascii(c: char)
    requires
        (c as u32) >= 128,
    ensures
        is_white_space(c) <==> c == '\u{85}' || c == '\u{a0}' || c == '\u{1680}' || '\u{2000}' <= c
            <= '\u{200a}' || c == '\u{2028}' || c == '\u{2029}' || c == '\u{202f}' || c
            == '\u{205f}' || c == '\u{3000}',
{
}

/// What digits, letters and control characters are.
pub proof fn lemma_kinds_of_characters(c: char)
    ensures
        is_digit(c) <==> '0' <= c <= '9',
        is_hex_digit(c) <==> '0' <= c <= '9' || 'a' <= c <= 'f' || 'A' <= c <= 'F',
        is_alphanumeric(c) <==> '0' <= c <= '9' || 'a' <= c <= 'z' || 'A' <= c <= 'Z',
        is_control(c) <==> (c as u32) < 0x20 || 0x7f <= c as u32 <= 0x9f,
{
}

/// A sorted set holds what the list that it was made of holds, each once, in order.
pub proof fn lemma_sorted_set(v: Seq<Seq<char>>, u: Seq<Seq<char>>)
    requires
        is_sorted_set(v, u),
    ensures
        forall|s: Seq<char>| #[trigger] v.contains(s) <==> u.contains(s),
        forall|i: int, j: int| 0 <= i < j < v.len() ==> text_less(v[i], v[j]),
        v.no_duplicates(),
{
    assert forall|i: int, j: int| 0 <= i < j < v.len() implies v[i] != v[j] by {
        assert(text_less(v[i], v[j]));
        lemma_text_less_total(v[i], v[j]);
    }
}

/// What is known of texts as values.
pub proof fn lemma_texts_as_values(v: Seq<String>, o: Option<String>)
    ensures
        texts(v).len() == v.len(),
        forall|i: int| 0 <= i < v.len() ==> #[trigger] texts(v)[i] == v[i]@,
        o matches Some(s) ==> text_of(o) == Some(s@),
        o is None ==> text_of(o) is None,
{
}

/// Putting pieces together loses nothing and adds nothing.
pub proof fn lemma_pieces_put_together<T>(ls: Seq<Seq<T>>, l: Seq<T>)
    ensures
        joined(Seq::<Seq<T>>::empty()) == Seq::<T>::empty(),
        joined(ls.push(l)) == joined(ls) + l,
{
    assert(ls.push(l).drop_last() =~= ls);
}

/// Texts are added one after the other.
pub proof fn lemma_texts_are_added_in_order(
    v: Seq<Seq<char>>,
    more: Seq<Seq<char>>,
    s: Seq<char>,
)
    ensures
        with_texts(v, Seq::empty()) == v,
        with_texts(v, more.push(s)) == if with_texts(v, more).contains(s) {
            with_texts(v, more)
        } else {
            with_texts(v, more).push(s)
        },
{
    assert(more.push(s).drop_last() =~= more);
}

} // verus!
