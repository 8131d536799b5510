//! The order of paths: component by component, so that a directory's files come before
//! those of a directory whose name is longer.

use crate::names;
use crate::text;
use vstd::prelude::*;

verus! {

/// What a component of a path sorts by: a digit for its kind, and its name. A piece
/// without a name is none, nor is `.` unless the path begins with it.
pub open spec fn piece_keys(piece: Seq<char>, first: bool) -> Seq<Seq<char>> {
    if piece.len() == 0 {
        Seq::empty()
    } else if piece == "."@ {
        if first {
            seq!["3"@]
        } else {
            Seq::empty()
        }
    } else if piece == ".."@ {
        seq!["4"@]
    } else {
        seq!["5"@ + piece]
    }
}

pub open spec fn pieces_keys(pieces: Seq<Seq<char>>) -> Seq<Seq<char>>
    decreases pieces.len(),
{
    if pieces.len() == 0 {
        Seq::empty()
    } else {
        pieces_keys(pieces.drop_last()) + piece_keys(pieces.last(), pieces.len() == 1)
    }
}

/// What a path begins with on Windows: the place of a share, or a drive.
pub open spec fn prefix_keys(path: Seq<char>, windows: bool) -> Seq<Seq<char>> {
    if windows && names::has_drive(path) {
        seq!["1"@ + text::lower(path.take(1))]
    } else if windows && text::starts(names::with_slashes(path, windows), "//"@) {
        seq!["0"@]
    } else {
        Seq::empty()
    }
}

/// A path behind its drive, with slashes between its pieces.
pub open spec fn behind_drive(path: Seq<char>, windows: bool) -> Seq<char> {
    let plain = names::with_slashes(path, windows);
    if windows && names::has_drive(path) {
        plain.skip(2)
    } else {
        plain
    }
}

pub open spec fn root_keys(rest: Seq<char>) -> Seq<Seq<char>> {
    if rest.len() > 0 && rest[0] == '/' {
        seq!["2"@]
    } else {
        Seq::empty()
    }
}

/// What the components of a path sort by. Kinds come in this order: shares, drives, the
/// root, `.`, `..`, and names.
pub open spec fn path_keys(path: Seq<char>, windows: bool) -> Seq<Seq<char>> {
    let rest = behind_drive(path, windows);
    prefix_keys(path, windows) + root_keys(rest) + pieces_keys(names::path_pieces(rest))
}

fn push_key(out: &mut Vec<String>, key: String)
    ensures
        text::texts(final(out)@) == text::texts(old(out)@).push(key@),
{
    let ghost before = text::texts(out@);
    out.push(key);
    assert(text::texts(out@) =~= before.push(key@));
}

/// What the components of a path sort by.
pub fn keys_of_path(path: &str, windows: bool) -> (r: Vec<String>)
    ensures
        text::texts(r@) == path_keys(path@, windows),
{
    let plain = names::slashed(path, windows);
    let mut out: Vec<String> = Vec::new();
    assert(text::texts(out@) =~= Seq::<Seq<char>>::empty());
    let x = text::to_chars(plain.as_str());
    let mut rest = plain;
    if windows && names::names_drive(path) {
        let letters = text::to_chars(path);
        let drive = text::slice_text(letters.as_slice(), 0, 1);
        assert(drive@ =~= path@.take(1));
        push_key(&mut out, text::join_text("1", text::lower_text(drive.as_str()).as_str()));
        rest = text::slice_text(x.as_slice(), 2, x.len());
        assert(rest@ =~= behind_drive(path@, windows));
    } else if windows && text::starts_with_text(rest.as_str(), "//") {
        push_key(&mut out, text::copy_text("0"));
    }
    assert(text::texts(out@) =~= prefix_keys(path@, windows));
    assert(rest@ == behind_drive(path@, windows));
    let ghost prefix = text::texts(out@);
    let y = text::to_chars(rest.as_str());
    if y.len() > 0 && y[0] == '/' {
        push_key(&mut out, text::copy_text("2"));
    }
    assert(text::texts(out@) =~= prefix + root_keys(rest@));
    let ghost head = text::texts(out@);
    let pieces = names::pieces_of(rest.as_str());
    let ghost all = text::texts(pieces@);
    let mut i: usize = 0;
    assert(head + pieces_keys(all.take(0)) =~= head);
    while i < pieces.len()
        invariant
            i <= pieces.len(),
            all == text::texts(pieces@),
            text::texts(out@) == head + pieces_keys(all.take(i as int)),
        decreases pieces.len() - i,
    {
        let ghost before = text::texts(out@);
        let piece = pieces[i].as_str();
        proof {
            assert(all.take(i + 1).drop_last() =~= all.take(i as int));
            assert(all.take(i + 1).last() == piece@);
            reveal_strlit(".");
            reveal_strlit("..");
        }
        if text::empty_text(piece) {
        } else if text::same_text(piece, ".") {
            if i == 0 {
                push_key(&mut out, text::copy_text("3"));
            }
        } else if text::same_text(piece, "..") {
            push_key(&mut out, text::copy_text("4"));
        } else {
            push_key(&mut out, text::join_text("5", piece));
        }
        proof {
            assert(text::texts(out@) =~= before + piece_keys(piece@, i == 0));
            assert(text::texts(out@) =~= head + pieces_keys(all.take(i + 1)));
        }
        i += 1;
    }
    assert(all.take(i as int) =~= all);
    assert(text::texts(out@) =~= path_keys(path@, windows));
    out
}

/// Whether the keys of one path come before those of another.
pub open spec fn pieces_less(a: Seq<Seq<char>>, b: Seq<Seq<char>>) -> bool
    decreases b.len(),
{
    if b.len() == 0 {
        false
    } else if a.len() == 0 {
        true
    } else if a[0] == b[0] {
        pieces_less(a.skip(1), b.skip(1))
    } else {
        text::text_less(a[0], b[0])
    }
}

/// Whether a path comes before another.
pub open spec fn path_less(a: Seq<char>, b: Seq<char>, windows: bool) -> bool {
    pieces_less(path_keys(a, windows), path_keys(b, windows))
}

/// Of two paths at most one comes before the other, and one does unless they have the
/// same pieces.
pub proof fn lemma_pieces_less_total(a: Seq<Seq<char>>, b: Seq<Seq<char>>)
    ensures
        !pieces_less(a, a),
        pieces_less(a, b) ==> !pieces_less(b, a),
        pieces_less(a, b) || pieces_less(b, a) || a == b,
    decreases a.len(),
{
    if a.len() > 0 {
        lemma_pieces_less_total(a.skip(1), a.skip(1));
    }
    if a.len() > 0 && b.len() > 0 {
        text::lemma_text_less_total(a[0], b[0]);
        lemma_pieces_less_total(a.skip(1), b.skip(1));
        if a[0] == b[0] && a.skip(1) == b.skip(1) {
            assert(a =~= seq![a[0]] + a.skip(1));
            assert(b =~= seq![b[0]] + b.skip(1));
        }
    } else if a.len() == 0 && b.len() == 0 {
        assert(a =~= b);
    }
}

/// The order of paths is transitive.
pub proof fn lemma_pieces_less_transitive(
    a: Seq<Seq<char>>,
    b: Seq<Seq<char>>,
    c: Seq<Seq<char>>,
)
    requires
        pieces_less(a, b),
        pieces_less(b, c),
    ensures
        pieces_less(a, c),
    decreases c.len(),
{
    if a.len() > 0 {
        if a[0] == b[0] && b[0] == c[0] {
            lemma_pieces_less_transitive(a.skip(1), b.skip(1), c.skip(1));
        } else if a[0] != b[0] && b[0] != c[0] {
            text::lemma_text_less_transitive(a[0], b[0], c[0]);
            text::lemma_text_less_total(a[0], c[0]);
        }
    }
}

fn less_pieces(a: &Vec<String>, b: &Vec<String>) -> (r: bool)
    ensures
        r == pieces_less(text::texts(a@), text::texts(b@)),
{
    let ghost x = text::texts(a@);
    let ghost y = text::texts(b@);
    let mut i: usize = 0;
    assert(x.skip(0) =~= x);
    assert(y.skip(0) =~= y);
    while i < a.len() && i < b.len() && text::same_text(a[i].as_str(), b[i].as_str())
        invariant
            i <= a.len(),
            i <= b.len(),
            x == text::texts(a@),
            y == text::texts(b@),
            pieces_less(x, y) == pieces_less(x.skip(i as int), y.skip(i as int)),
        decreases a.len() - i,
    {
        proof {
            assert(x[i as int] == a@[i as int]@);
            assert(y[i as int] == b@[i as int]@);
            assert(x.skip(i as int)[0] == x[i as int]);
            assert(y.skip(i as int)[0] == y[i as int]);
            assert(x.skip(i as int).skip(1) =~= x.skip(i + 1));
            assert(y.skip(i as int).skip(1) =~= y.skip(i + 1));
        }
        i += 1;
    }
    if i >= b.len() {
        return false;
    }
    if i >= a.len() {
        return true;
    }
    assert(x.skip(i as int)[0] == a@[i as int]@);
    assert(y.skip(i as int)[0] == b@[i as int]@);
    text::less_text(a[i].as_str(), b[i].as_str())
}

/// Whether a path comes before another.
pub fn less_path(a: &str, b: &str, windows: bool) -> (r: bool)
    ensures
        r == path_less(a@, b@, windows),
{
    less_pieces(&keys_of_path(a, windows), &keys_of_path(b, windows))
}

/// Whether paths are in order, none twice.
pub open spec fn in_order(v: Seq<Seq<char>>, windows: bool) -> bool {
    forall|i: int, j: int| 0 <= i < j < v.len() ==> #[trigger] path_less(v[i], v[j], windows)
}

/// Whether a path is in a list, in whatever spelling.
pub open spec fn leads_among(v: Seq<Seq<char>>, path: Seq<char>, windows: bool) -> bool {
    exists|i: int|
        0 <= i < v.len() && path_keys(#[trigger] v[i], windows) == path_keys(path, windows)
}

/// Whether `v` lists the paths of `u`, each once, in order.
pub open spec fn is_path_set(v: Seq<Seq<char>>, u: Seq<Seq<char>>, windows: bool) -> bool {
    &&& in_order(v, windows)
    &&& forall|i: int| 0 <= i < v.len() ==> #[trigger] u.contains(v[i])
    &&& forall|i: int| 0 <= i < u.len() ==> #[trigger] leads_among(v, u[i], windows)
}

proof fn lemma_inserted_is_in_order(v: Seq<Seq<char>>, p: Seq<char>, i: int, windows: bool)
    requires
        in_order(v, windows),
        0 <= i <= v.len(),
        forall|k: int| 0 <= k < i ==> path_less(v[k], p, windows),
        i < v.len() ==> path_less(p, v[i], windows),
    ensures
        in_order(v.insert(i, p), windows),
{
    let w = v.insert(i, p);
    assert forall|a: int, b: int| 0 <= a < b < w.len() implies path_less(w[a], w[b], windows) by {
        let x = if a < i {
            a
        } else {
            a - 1
        };
        let y = if b < i {
            b
        } else {
            b - 1
        };
        if a == i {
            assert(w[b] == v[y]);
            if y > i {
                assert(path_less(v[i], v[y], windows));
                lemma_pieces_less_transitive(
                    path_keys(p, windows),
                    path_keys(v[i], windows),
                    path_keys(v[y], windows),
                );
            }
        } else if b == i {
            assert(w[a] == v[a]);
        } else {
            assert(w[a] == v[x] && w[b] == v[y]);
            assert(path_less(v[x], v[y], windows));
        }
    }
}

proof fn lemma_inserted_is_path_set(
    v: Seq<Seq<char>>,
    u: Seq<Seq<char>>,
    p: Seq<char>,
    i: int,
    windows: bool,
)
    requires
        is_path_set(v, u, windows),
        0 <= i <= v.len(),
        forall|k: int| 0 <= k < i ==> path_less(v[k], p, windows),
        i < v.len() ==> path_less(p, v[i], windows),
    ensures
        is_path_set(v.insert(i, p), u.push(p), windows),
{
    let w = v.insert(i, p);
    let more = u.push(p);
    lemma_inserted_is_in_order(v, p, i, windows);
    assert forall|k: int| 0 <= k < w.len() implies #[trigger] more.contains(w[k]) by {
        text::lemma_push_contains(u, p, w[k]);
        if k < i {
            assert(w[k] == v[k]);
            assert(u.contains(v[k]));
        } else if k > i {
            assert(w[k] == v[k - 1]);
            assert(u.contains(v[k - 1]));
        }
    }
    assert forall|k: int| 0 <= k < more.len() implies #[trigger] leads_among(w, more[k], windows) by {
        if k < u.len() {
            assert(more[k] == u[k]);
            assert(leads_among(v, u[k], windows));
            let m = choose|m: int|
                0 <= m < v.len() && path_keys(#[trigger] v[m], windows) == path_keys(u[k], windows);
            if m < i {
                assert(path_keys(w[m], windows) == path_keys(more[k], windows));
            } else {
                assert(path_keys(w[m + 1], windows) == path_keys(more[k], windows));
            }
        } else {
            assert(path_keys(w[i], windows) == path_keys(more[k], windows));
        }
    }
}

proof fn lemma_listed_is_path_set(
    v: Seq<Seq<char>>,
    u: Seq<Seq<char>>,
    p: Seq<char>,
    i: int,
    windows: bool,
)
    requires
        is_path_set(v, u, windows),
        0 <= i < v.len(),
        path_keys(v[i], windows) == path_keys(p, windows),
    ensures
        is_path_set(v, u.push(p), windows),
{
    let more = u.push(p);
    assert forall|k: int| 0 <= k < v.len() implies #[trigger] more.contains(v[k]) by {
        text::lemma_push_contains(u, p, v[k]);
        assert(u.contains(v[k]));
    }
    assert forall|k: int| 0 <= k < more.len() implies #[trigger] leads_among(v, more[k], windows) by {
        if k < u.len() {
            assert(more[k] == u[k]);
            assert(leads_among(v, u[k], windows));
        } else {
            assert(path_keys(v[i], windows) == path_keys(more[k], windows));
        }
    }
}

fn insert_path(
    v: &mut Vec<String>,
    path: String,
    windows: bool,
    Ghost(u): Ghost<Seq<Seq<char>>>,
)
    requires
        is_path_set(text::texts(old(v)@), u, windows),
    ensures
        is_path_set(text::texts(final(v)@), u.push(path@), windows),
{
    let ghost before = text::texts(v@);
    let ghost p = path@;
    let mut i: usize = 0;
    while i < v.len() && less_path(v[i].as_str(), path.as_str(), windows)
        invariant
            i <= v.len(),
            before == text::texts(v@),
            forall|k: int| 0 <= k < i ==> path_less(before[k], path@, windows),
        decreases v.len() - i,
    {
        assert(before[i as int] == v@[i as int]@);
        i += 1;
    }
    if i < v.len() && !less_path(path.as_str(), v[i].as_str(), windows) {
        proof {
            assert(before[i as int] == v@[i as int]@);
            lemma_pieces_less_total(path_keys(before[i as int], windows), path_keys(p, windows));
            lemma_listed_is_path_set(before, u, p, i as int, windows);
        }
        return;
    }
    proof {
        if i < v.len() {
            assert(before[i as int] == v@[i as int]@);
        }
        lemma_inserted_is_path_set(before, u, p, i as int, windows);
    }
    v.insert(i, path);
    assert(text::texts(v@) =~= before.insert(i as int, p));
}

/// The paths in order, each once.
pub fn sort_paths(v: &Vec<String>, windows: bool) -> (r: Vec<String>)
    ensures
        is_path_set(text::texts(r@), text::texts(v@), windows),
{
    let ghost all = text::texts(v@);
    let mut out: Vec<String> = Vec::new();
    let mut i: usize = 0;
    while i < v.len()
        invariant
            i <= v.len(),
            all == text::texts(v@),
            is_path_set(text::texts(out@), all.take(i as int), windows),
        decreases v.len() - i,
    {
        let path = text::copy_text(v[i].as_str());
        assert(all.take(i + 1) =~= all.take(i as int).push(path@));
        insert_path(&mut out, path, windows, Ghost(all.take(i as int)));
        i += 1;
    }
    assert(all.take(i as int) =~= all);
    out
}

/// A list of paths with more of them, except those that are listed already.
pub open spec fn with_paths(
    v: Seq<Seq<char>>,
    more: Seq<Seq<char>>,
    windows: bool,
) -> Seq<Seq<char>>
    decreases more.len(),
{
    if more.len() == 0 {
        v
    } else {
        let before = with_paths(v, more.drop_last(), windows);
        if leads_among(before, more.last(), windows) {
            before
        } else {
            before.push(more.last())
        }
    }
}

/// Whether a path is in a list, in whatever spelling.
pub fn contains_path(v: &Vec<String>, path: &str, windows: bool) -> (r: bool)
    ensures
        r == leads_among(text::texts(v@), path@, windows),
{
    let mut i: usize = 0;
    while i < v.len()
        invariant
            i <= v.len(),
            forall|k: int|
                0 <= k < i ==> path_keys(#[trigger] text::texts(v@)[k], windows) != path_keys(
                    path@,
                    windows,
                ),
        decreases v.len() - i,
    {
        proof {
            assert(text::texts(v@)[i as int] == v@[i as int]@);
            lemma_pieces_less_total(path_keys(v@[i as int]@, windows), path_keys(path@, windows));
        }
        if !less_path(v[i].as_str(), path, windows) && !less_path(path, v[i].as_str(), windows) {
            return true;
        }
        i += 1;
    }
    false
}

/// Adds paths to a list, except those that are listed already.
pub fn insert_paths(v: &mut Vec<String>, more: &Vec<String>, windows: bool)
    ensures
        text::texts(final(v)@) == with_paths(
            text::texts(old(v)@),
            text::texts(more@),
            windows,
        ),
{
    let ghost start = text::texts(v@);
    let ghost all = text::texts(more@);
    let mut i: usize = 0;
    assert(all.take(0) =~= Seq::<Seq<char>>::empty());
    while i < more.len()
        invariant
            i <= more.len(),
            all == text::texts(more@),
            text::texts(v@) == with_paths(start, all.take(i as int), windows),
        decreases more.len() - i,
    {
        assert(all.take(i + 1).drop_last() =~= all.take(i as int));
        assert(all.take(i + 1).last() == more@[i as int]@);
        if !contains_path(v, more[i].as_str(), windows) {
            let ghost before = text::texts(v@);
            v.push(text::copy_text(more[i].as_str()));
            assert(text::texts(v@) =~= before.push(more@[i as int]@));
        }
        i += 1;
    }
    assert(all.take(i as int) =~= all);
}

/// What counts of the pieces of a path: names and steps up, in their order. Empty pieces,
/// and dots alone but for one in front, count for nothing.
pub proof fn lemma_what_counts_of_a_path(pieces: Seq<Seq<char>>, piece: Seq<char>)
    ensures
        pieces_keys(Seq::empty()) == Seq::<Seq<char>>::empty(),
        ({
            let before = pieces_keys(pieces);
            let after = pieces_keys(pieces.push(piece));
            &&& piece.len() == 0 ==> after == before
            &&& piece == "."@ && pieces.len() > 0 ==> after == before
            &&& piece == "."@ && pieces.len() == 0 ==> after == seq!["3"@]
            &&& piece == ".."@ ==> after == before.push("4"@)
            &&& piece.len() > 0 && piece != "."@ && piece != ".."@ ==> after == before.push(
                "5"@ + piece,
            )
        }),
{
    reveal_strlit(".");
    reveal_strlit("..");
    assert("."@.len() == 1);
    assert(".."@.len() == 2);
    assert(pieces.push(piece).drop_last() =~= pieces);
    let before = pieces_keys(pieces);
    assert(before + Seq::<Seq<char>>::empty() =~= before);
    if piece == ".."@ {
        assert(before + seq!["4"@] =~= before.push("4"@));
    } else if piece.len() > 0 && piece != "."@ {
        assert(before + seq!["5"@ + piece] =~= before.push("5"@ + piece));
    } else if piece == "."@ && pieces.len() == 0 {
        assert(before =~= Seq::<Seq<char>>::empty());
        assert(before + seq!["3"@] =~= seq!["3"@]);
    }
}

/// A path counts by its drive, in either case of the letter, or by its being a network
/// path, where it is one of Windows; by its beginning at the root; and by its pieces.
/// Elsewhere than on Windows drives and backslashes are nothing special.
pub proof fn lemma_what_a_path_counts_by(path: Seq<char>, windows: bool)
    ensures
        !windows ==> path_keys(path, windows) == (if path.len() > 0 && path[0] == '/' {
            seq!["2"@]
        } else {
            Seq::empty()
        }) + pieces_keys(names::path_pieces(path)),
        windows ==> {
            let plain = text::replaced(path, '\\', '/');
            let drive = path.len() >= 2 && path[1] == ':' && ('a' <= path[0] <= 'z' || 'A'
                <= path[0] <= 'Z');
            let network = !drive && plain.len() >= 2 && plain[0] == '/' && plain[1] == '/';
            let rest = if drive {
                plain.skip(2)
            } else {
                plain
            };
            path_keys(path, windows) == (if drive {
                seq!["1"@ + seq![text::lower_of(path[0])]]
            } else if network {
                seq!["0"@]
            } else {
                Seq::empty()
            }) + (if rest.len() > 0 && rest[0] == '/' {
                seq!["2"@]
            } else {
                Seq::empty()
            }) + pieces_keys(names::path_pieces(rest))
        },
{
    reveal_strlit("//");
    let plain = names::with_slashes(path, windows);
    if windows {
        if path.len() >= 1 {
            assert(text::lower(path.take(1)) =~= seq![text::lower_of(path[0])]);
        }
        if plain.len() >= 2 && plain[0] == '/' && plain[1] == '/' {
            assert(plain.take(2) =~= "//"@);
        }
        if text::starts(plain, "//"@) {
            assert(plain.take(2)[0] == '/' && plain.take(2)[1] == '/');
        }
    } else {
        assert(Seq::<Seq<char>>::empty() + root_keys(plain) =~= root_keys(plain));
    }
}

/// Paths are ordered by what they count by: part for part, the shorter one first.
pub proof fn lemma_order_of_paths(
    common: Seq<Seq<char>>,
    a: Seq<char>,
    a_rest: Seq<Seq<char>>,
    b: Seq<char>,
    b_rest: Seq<Seq<char>>,
)
    ensures
        pieces_less(common, common.push(b) + b_rest),
        a != b ==> (pieces_less(common.push(a) + a_rest, common.push(b) + b_rest)
            <==> text::text_less(a, b)),
    decreases common.len(),
{
    let x = common.push(a) + a_rest;
    let y = common.push(b) + b_rest;
    if common.len() == 0 {
        assert(x[0] == a && y[0] == b);
    } else {
        let c = common.skip(1);
        assert(x.skip(1) =~= c.push(a) + a_rest);
        assert(y.skip(1) =~= c.push(b) + b_rest);
        assert(x[0] == common[0] && y[0] == common[0]);
        lemma_order_of_paths(c, a, a_rest, b, b_rest);
    }
}

/// Adding paths to a list keeps the list as it is, adds each path that leads to a new place
/// once, and loses none.
pub proof fn lemma_adding_paths(
    v: Seq<Seq<char>>,
    more: Seq<Seq<char>>,
    path: Seq<char>,
    windows: bool,
)
    ensures
        v.is_prefix_of(with_paths(v, more, windows)),
        leads_among(with_paths(v, more, windows), path, windows) <==> leads_among(v, path, windows)
            || leads_among(more, path, windows),
        with_paths(v, more, windows).contains(path) ==> v.contains(path) || more.contains(path),
    decreases more.len(),
{
    if more.len() > 0 {
        let init = more.drop_last();
        let n = more.len() - 1;
        let last = more[n];
        lemma_adding_paths(v, init, path, windows);
        let before = with_paths(v, init, windows);
        let after = with_paths(v, more, windows);
        assert(more =~= init.push(last));
        text::lemma_push_contains(init, last, path);
        text::lemma_push_contains(before, last, path);
        assert(v.is_prefix_of(after)) by {
            assert(v =~= before.subrange(0, v.len() as int));
            assert(v =~= after.subrange(0, v.len() as int));
        }
        if leads_among(init, path, windows) {
            let i = choose|i: int|
                0 <= i < init.len() && path_keys(#[trigger] init[i], windows) == path_keys(
                    path,
                    windows,
                );
            assert(more[i] == init[i]);
        }
        if leads_among(more, path, windows) {
            let i = choose|i: int|
                0 <= i < more.len() && path_keys(#[trigger] more[i], windows) == path_keys(
                    path,
                    windows,
                );
            if i < n {
                assert(init[i] == more[i]);
            } else if leads_among(before, last, windows) {
                let k = choose|k: int|
                    0 <= k < before.len() && path_keys(#[trigger] before[k], windows) == path_keys(
                        last,
                        windows,
                    );
                assert(path_keys(after[k], windows) == path_keys(path, windows));
            } else {
                assert(after[before.len() as int] == last);
            }
        }
        if leads_among(before, path, windows) {
            let k = choose|k: int|
                0 <= k < before.len() && path_keys(#[trigger] before[k], windows) == path_keys(
                    path,
                    windows,
                );
            assert(after[k] == before[k]);
        }
        if leads_among(after, path, windows) {
            let k = choose|k: int|
                0 <= k < after.len() && path_keys(#[trigger] after[k], windows) == path_keys(
                    path,
                    windows,
                );
            if k < before.len() {
                assert(before[k] == after[k]);
            } else {
                assert(after[k] == last && more[n] == last);
            }
        }
    } else {
        assert(with_paths(v, more, windows) == v);
        if leads_among(more, path, windows) {
            assert(false);
        }
    }
}

/// A sorted list of paths holds paths of the list that it was made of, in their order, and
/// for each of them one that leads to the same place.
pub proof fn lemma_sorted_paths(v: Seq<Seq<char>>, u: Seq<Seq<char>>, windows: bool)
    requires
        is_path_set(v, u, windows),
    ensures
        forall|i: int, j: int|
            0 <= i < j < v.len() ==> pieces_less(
                path_keys(#[trigger] v[i], windows),
                path_keys(#[trigger] v[j], windows),
            ),
        forall|s: Seq<char>| #[trigger] v.contains(s) ==> u.contains(s),
        forall|s: Seq<char>| #[trigger]
            u.contains(s) ==> exists|i: int|
                0 <= i < v.len() && path_keys(#[trigger] v[i], windows) == path_keys(s, windows),
{
    assert forall|i: int, j: int| 0 <= i < j < v.len() implies pieces_less(
        path_keys(#[trigger] v[i], windows),
        path_keys(#[trigger] v[j], windows),
    ) by {
        assert(path_less(v[i], v[j], windows));
    }
    assert forall|s: Seq<char>| #[trigger] v.contains(s) implies u.contains(s) by {
        let i = choose|i: int| 0 <= i < v.len() && v[i] == s;
        assert(u.contains(v[i]));
    }
    assert forall|s: Seq<char>| #[trigger] u.contains(s) implies exists|i: int|
        0 <= i < v.len() && path_keys(#[trigger] v[i], windows) == path_keys(s, windows) by {
        let k = choose|k: int| 0 <= k < u.len() && u[k] == s;
        assert(leads_among(v, u[k], windows));
    }
}

} // verus!
