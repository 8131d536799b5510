//! Workspace paths in the form that the desktop application uses.

use crate::text;
use vstd::prelude::*;

verus! {

/// A workspace path without the prefixes that mark a verbatim Windows path: a
/// network path keeps its two leading backslashes, a drive path gets slashes.
/// A blank path has no such form.
pub open spec fn desktop_path(value: Seq<char>) -> Option<Seq<char>> {
    let s = text::trim(value);
    if s.len() == 0 {
        None
    } else if text::starts(text::lower(s), "\\\\?\\unc\\"@) {
        Some("\\\\"@ + text::replaced(s.skip(8), '/', '\\'))
    } else if text::starts(s, "\\\\?\\"@) {
        Some(text::replaced(s.skip(4), '\\', '/'))
    } else {
        Some(s)
    }
}

/// A workspace path as the desktop application writes it.
pub fn to_desktop_workspace_path(value: &str) -> (r: Option<String>)
    ensures
        text::text_of(r) == desktop_path(value@),
{
    let s = text::trim_text(value);
    if text::empty_text(s.as_str()) {
        return None;
    }
    let low = text::lower_text(s.as_str());
    proof {
        reveal_strlit("\\\\?\\unc\\");
        reveal_strlit("\\\\?\\");
    }
    if text::starts_with_text(low.as_str(), "\\\\?\\unc\\") {
        let chars = text::to_chars(s.as_str());
        assert(low@.len() == s@.len());
        let rest = text::slice_text(chars.as_slice(), 8, chars.len());
        assert(rest@ =~= s@.skip(8));
        return Some(
            text::join_text("\\\\", text::replace_text(rest.as_str(), '/', '\\').as_str()),
        );
    }
    match text::strip_prefix_text(s.as_str(), "\\\\?\\") {
        Some(rest) => Some(text::replace_text(rest.as_str(), '\\', '/')),
        None => Some(s),
    }
}

/// The form by which two paths are compared: backslashes only, none at the end,
/// letters in lower case.
pub open spec fn comparable(path: Seq<char>) -> Seq<char> {
    text::lower(without_trailing(text::replaced(path, '/', '\\'), '\\'))
}

/// `s` without any `c` at its end.
pub open spec fn without_trailing(s: Seq<char>, c: char) -> Seq<char>
    decreases s.len(),
{
    if s.len() > 0 && s.last() == c {
        without_trailing(s.drop_last(), c)
    } else {
        s
    }
}

fn comparable_path(path: &str) -> (r: String)
    ensures
        r@ == comparable(path@),
{
    let t = text::replace_text(path, '/', '\\');
    let chars = text::to_chars(t.as_str());
    let mut n: usize = chars.len();
    assert(chars@.take(n as int) =~= t@);
    while n > 0 && chars[n - 1] == '\\'
        invariant
            n <= chars.len(),
            without_trailing(t@, '\\') == without_trailing(chars@.take(n as int), '\\'),
        decreases n,
    {
        assert(chars@.take(n as int).drop_last() =~= chars@.take(n - 1));
        n -= 1;
    }
    assert(chars@.take(n as int) =~= chars@.subrange(0, n as int));
    text::lower_text(text::slice_text(chars.as_slice(), 0, n).as_str())
}

/// The desktop forms of `paths` in their order, without blank ones and without
/// any whose comparable form came up before.
pub open spec fn deduped(paths: Seq<Seq<char>>) -> Seq<Seq<char>>
    decreases paths.len(),
{
    if paths.len() == 0 {
        Seq::empty()
    } else {
        let before = deduped(paths.drop_last());
        match desktop_path(paths.last()) {
            Some(p) => if comparables(before).contains(comparable(p)) {
                before
            } else {
                before.push(p)
            },
            None => before,
        }
    }
}

pub open spec fn comparables(paths: Seq<Seq<char>>) -> Seq<Seq<char>> {
    paths.map_values(|p: Seq<char>| comparable(p))
}

/// Workspace paths in desktop form, each once.
pub fn dedupe_paths(paths: &Vec<String>) -> (r: Vec<String>)
    ensures
        text::texts(r@) == deduped(text::texts(paths@)),
{
    let mut seen: Vec<String> = Vec::new();
    let mut out: Vec<String> = Vec::new();
    let mut i: usize = 0;
    while i < paths.len()
        invariant
            i <= paths.len(),
            text::texts(out@) == deduped(text::texts(paths@).take(i as int)),
            text::texts(seen@) == comparables(text::texts(out@)),
        decreases paths.len() - i,
    {
        let ghost all = text::texts(paths@);
        let ghost before = text::texts(out@);
        assert(all.take(i + 1).drop_last() =~= all.take(i as int));
        if let Some(desktop) = to_desktop_workspace_path(paths[i].as_str()) {
            let form = comparable_path(desktop.as_str());
            if text::insert_text(&mut seen, form) {
                let ghost p = desktop@;
                out.push(desktop);
                proof {
                    assert(text::texts(out@) =~= before.push(p));
                    assert(comparables(before.push(p)) =~= comparables(before).push(comparable(p)));
                }
            }
        }
        i += 1;
    }
    assert(text::texts(paths@).take(i as int) =~= text::texts(paths@));
    out
}

/// No two paths of a deduplicated list are the same up to letter case, slashes
/// and trailing separators.
pub proof fn lemma_deduped_distinct(paths: Seq<Seq<char>>)
    ensures
        comparables(deduped(paths)).no_duplicates(),
        deduped(paths).len() <= paths.len(),
    decreases paths.len(),
{
    if paths.len() > 0 {
        let before = deduped(paths.drop_last());
        lemma_deduped_distinct(paths.drop_last());
        if let Some(p) = desktop_path(paths.last()) {
            assert(comparables(before.push(p)) =~= comparables(before).push(comparable(p)));
        }
    }
}

/// Every path that is not blank is represented in the deduplicated list.
pub proof fn lemma_deduped_represents(paths: Seq<Seq<char>>, i: int)
    requires
        0 <= i < paths.len(),
        desktop_path(paths[i]) is Some,
    ensures
        comparables(deduped(paths)).contains(comparable(desktop_path(paths[i])->0)),
    decreases paths.len(),
{
    let init = paths.drop_last();
    let before = deduped(init);
    if i < init.len() {
        lemma_deduped_represents(init, i);
        assert(init[i] == paths[i]);
    }
    let wanted = comparable(desktop_path(paths[i])->0);
    if let Some(p) = desktop_path(paths.last()) {
        assert(comparables(before.push(p)) =~= comparables(before).push(comparable(p)));
        text::lemma_push_contains(comparables(before), comparable(p), wanted);
    }
}

/// Whether the desktop form of a path is its own desktop form. That holds unless
/// white space or another verbatim prefix stands right behind the prefix that was
/// taken off.
pub open spec fn has_settled_form(path: Seq<char>) -> bool {
    match desktop_path(path) {
        Some(p) => desktop_path(p) == Some(p),
        None => true,
    }
}

proof fn lemma_settled_list(paths: Seq<Seq<char>>)
    requires
        comparables(paths).no_duplicates(),
        forall|i: int| 0 <= i < paths.len() ==> desktop_path(#[trigger] paths[i]) == Some(paths[i]),
    ensures
        deduped(paths) == paths,
    decreases paths.len(),
{
    if paths.len() > 0 {
        let init = paths.drop_last();
        let n = paths.len() - 1;
        assert(comparables(paths) =~= comparables(init).push(comparable(paths.last())));
        assert(comparables(init).no_duplicates()) by {
            assert forall|i: int, j: int|
                0 <= i < j < comparables(init).len() implies comparables(init)[i] != comparables(
                init,
            )[j] by {
                assert(comparables(paths)[i] != comparables(paths)[j]);
            }
        }
        assert forall|i: int| 0 <= i < init.len() implies desktop_path(#[trigger] init[i]) == Some(
            init[i],
        ) by {
            assert(init[i] == paths[i]);
        }
        lemma_settled_list(init);
        assert(desktop_path(paths[n]) == Some(paths[n]));
        if comparables(init).contains(comparable(paths.last())) {
            let i = choose|i: int|
                0 <= i < comparables(init).len() && comparables(init)[i] == comparable(
                    paths.last(),
                );
            assert(comparables(paths)[i] == comparables(paths)[n]);
        }
        assert(paths =~= init.push(paths.last()));
    } else {
        assert(deduped(paths) =~= paths);
    }
}

proof fn lemma_deduped_settled(paths: Seq<Seq<char>>)
    requires
        forall|i: int| 0 <= i < paths.len() ==> has_settled_form(#[trigger] paths[i]),
    ensures
        forall|i: int|
            0 <= i < deduped(paths).len() ==> desktop_path(#[trigger] deduped(paths)[i]) == Some(
                deduped(paths)[i],
            ),
    decreases paths.len(),
{
    if paths.len() > 0 {
        let init = paths.drop_last();
        assert forall|i: int| 0 <= i < init.len() implies has_settled_form(#[trigger] init[i]) by {
            assert(init[i] == paths[i]);
        }
        lemma_deduped_settled(init);
        assert(has_settled_form(paths[paths.len() - 1]));
    }
}

/// Deduplicating twice is deduplicating once.
pub proof fn lemma_deduped_idempotent(paths: Seq<Seq<char>>)
    requires
        forall|i: int| 0 <= i < paths.len() ==> has_settled_form(#[trigger] paths[i]),
    ensures
        deduped(deduped(paths)) == deduped(paths),
{
    lemma_deduped_distinct(paths);
    lemma_deduped_settled(paths);
    lemma_settled_list(deduped(paths));
}

/// The paths of a deduplicated list are desktop forms, none of them blank, where
/// the paths it came from have settled forms.
pub proof fn lemma_deduped_forms(paths: Seq<Seq<char>>, i: int)
    requires
        forall|k: int| 0 <= k < paths.len() ==> has_settled_form(#[trigger] paths[k]),
        0 <= i < deduped(paths).len(),
    ensures
        desktop_path(deduped(paths)[i]) == Some(deduped(paths)[i]),
        !text::is_blank(deduped(paths)[i]),
{
    lemma_deduped_settled(paths);
    assert(desktop_path(deduped(paths)[i]) == Some(deduped(paths)[i]));
}

/// A path without a verbatim prefix is its own desktop form, once white space around it is
/// taken off.
pub proof fn lemma_plain_path_is_kept(before: Seq<char>, s: Seq<char>, after: Seq<char>)
    requires
        text::all_white(before),
        text::all_white(after),
        s.len() > 0,
        !text::is_white_space(s[0]),
        !text::is_white_space(s.last()),
        !(s.len() >= 4 && s[0] == '\\' && s[1] == '\\' && s[2] == '?' && s[3] == '\\'),
    ensures
        desktop_path(before + s + after) == Some(s),
{
    text::lemma_trim_takes_white_space_off(before, s, after);
    reveal_strlit("\\\\?\\unc\\");
    reveal_strlit("\\\\?\\");
    if text::starts(text::lower(s), "\\\\?\\unc\\"@) {
        let p = text::lower(s).take(8);
        assert(p[0] == '\\' && p[1] == '\\' && p[2] == '?' && p[3] == '\\');
        assert(text::lower(s)[0] == '\\' && text::lower(s)[1] == '\\');
        assert(text::lower(s)[2] == '?' && text::lower(s)[3] == '\\');
    }
    if text::starts(s, "\\\\?\\"@) {
        let p = s.take(4);
        assert(p[0] == '\\' && p[1] == '\\' && p[2] == '?' && p[3] == '\\');
    }
}

/// The desktop form of a path behind a verbatim prefix is that path with slashes in place
/// of backslashes. A network path is not meant here.
pub proof fn lemma_verbatim_prefix_is_taken_off(
    before: Seq<char>,
    rest: Seq<char>,
    after: Seq<char>,
)
    requires
        text::all_white(before),
        text::all_white(after),
        rest.len() > 0 ==> !text::is_white_space(rest.last()),
        !(rest.len() >= 4 && (rest[0] == 'u' || rest[0] == 'U') && (rest[1] == 'n' || rest[1]
            == 'N') && (rest[2] == 'c' || rest[2] == 'C') && rest[3] == '\\'),
    ensures
        desktop_path(before + ("\\\\?\\"@ + rest) + after) matches Some(p) && p.len() == rest.len()
            && forall|i: int|
            0 <= i < rest.len() ==> #[trigger] p[i] == if rest[i] == '\\' {
                '/'
            } else {
                rest[i]
            },
{
    reveal_strlit("\\\\?\\unc\\");
    reveal_strlit("\\\\?\\");
    let s = "\\\\?\\"@ + rest;
    assert(s[0] == '\\' && s[1] == '\\' && s[2] == '?' && s[3] == '\\');
    assert(s.last() == if rest.len() > 0 {
        rest.last()
    } else {
        '\\'
    });
    text::lemma_trim_takes_white_space_off(before, s, after);
    if text::starts(text::lower(s), "\\\\?\\unc\\"@) {
        let p = text::lower(s).take(8);
        assert(p[4] == 'u' && p[5] == 'n' && p[6] == 'c' && p[7] == '\\');
        assert(text::lower(s)[4] == 'u' && text::lower(s)[5] == 'n');
        assert(text::lower(s)[6] == 'c' && text::lower(s)[7] == '\\');
        assert(s[4] == rest[0] && s[5] == rest[1] && s[6] == rest[2] && s[7] == rest[3]);
        assert(false);
    }
    assert(s.take(4) =~= "\\\\?\\"@);
    assert(s.skip(4) =~= rest);
}

/// The desktop form of a network path behind a verbatim prefix, in whatever case the
/// prefix is written, is that path behind two backslashes, with backslashes in place of
/// slashes.
pub proof fn lemma_network_prefix_is_shortened(
    before: Seq<char>,
    u: char,
    n: char,
    c: char,
    rest: Seq<char>,
    after: Seq<char>,
)
    requires
        text::all_white(before),
        text::all_white(after),
        u == 'u' || u == 'U',
        n == 'n' || n == 'N',
        c == 'c' || c == 'C',
        rest.len() > 0 ==> !text::is_white_space(rest.last()),
    ensures
        desktop_path(before + ("\\\\?\\"@ + seq![u, n, c, '\\'] + rest) + after) matches Some(p)
            && p.len() == rest.len() + 2 && p[0] == '\\' && p[1] == '\\' && forall|i: int|
            0 <= i < rest.len() ==> #[trigger] p[i + 2] == if rest[i] == '/' {
                '\\'
            } else {
                rest[i]
            },
{
    reveal_strlit("\\\\?\\unc\\");
    reveal_strlit("\\\\?\\");
    reveal_strlit("\\\\");
    let s = "\\\\?\\"@ + seq![u, n, c, '\\'] + rest;
    assert(s.last() == if rest.len() > 0 {
        rest.last()
    } else {
        '\\'
    });
    text::lemma_trim_takes_white_space_off(before, s, after);
    assert(text::lower(s).take(8) =~= "\\\\?\\unc\\"@);
    assert(s.skip(8) =~= rest);
}

/// A path has no desktop form where it is blank, and only there. Nothing but white space
/// is lost at the ends of a form.
pub proof fn lemma_only_blank_paths_have_no_form(path: Seq<char>)
    ensures
        desktop_path(path) is None <==> text::all_white(path),
{
    text::lemma_blank_is_white_space(path);
}

/// Whether two characters count as the same in a path: in either case, and whichever way
/// a separator leans.
pub open spec fn same_in_path(a: char, b: char) -> bool {
    ||| text::lower_of(a) == text::lower_of(b)
    ||| (a == '/' || a == '\\') && (b == '/' || b == '\\')
}

/// Paths are compared without regard to letter case, to the way separators lean and to
/// separators at the end; in nothing else do two paths that compare equal differ.
pub proof fn lemma_comparable_forms(a: Seq<char>, b: Seq<char>, separators: Seq<char>)
    requires
        a.len() > 0 ==> a.last() != '/' && a.last() != '\\',
        b.len() > 0 ==> b.last() != '/' && b.last() != '\\',
        forall|i: int|
            0 <= i < separators.len() ==> (#[trigger] separators[i] == '/' || separators[i]
                == '\\'),
    ensures
        comparable(a + separators) == comparable(a),
        comparable(a) == comparable(b) <==> a.len() == b.len() && forall|i: int|
            0 <= i < a.len() ==> same_in_path(#[trigger] a[i], b[i]),
{
    let x = text::replaced(a, '/', '\\');
    let y = text::replaced(b, '/', '\\');
    let z = text::replaced(separators, '/', '\\');
    assert(text::replaced(a + separators, '/', '\\') =~= x + z);
    assert forall|i: int| 0 <= i < z.len() implies #[trigger] z[i] == '\\' by {
        assert(separators[i] == '/' || separators[i] == '\\');
    }
    if a.len() > 0 {
        assert(x.last() == a.last());
    }
    if b.len() > 0 {
        assert(y.last() == b.last());
    }
    lemma_without_trailing(x, z, '\\');
    lemma_without_trailing(x, Seq::empty(), '\\');
    lemma_without_trailing(y, Seq::empty(), '\\');
    assert(x + Seq::<char>::empty() =~= x);
    assert(y + Seq::<char>::empty() =~= y);
    assert(comparable(a) == text::lower(x));
    assert(comparable(b) == text::lower(y));
    if comparable(a) == comparable(b) {
        assert(text::lower(x).len() == x.len());
        assert(text::lower(y).len() == y.len());
        assert forall|i: int| 0 <= i < a.len() implies same_in_path(#[trigger] a[i], b[i]) by {
            assert(text::lower(x)[i] == text::lower(y)[i]);
        }
    }
    if a.len() == b.len() && forall|i: int|
        0 <= i < a.len() ==> same_in_path(#[trigger] a[i], b[i]) {
        assert forall|i: int| 0 <= i < a.len() implies text::lower(x)[i] == text::lower(y)[i] by {
            assert(same_in_path(a[i], b[i]));
        }
        assert(text::lower(x) =~= text::lower(y));
    }
}

proof fn lemma_without_trailing(s: Seq<char>, tail: Seq<char>, c: char)
    requires
        s.len() > 0 ==> s.last() != c,
        forall|i: int| 0 <= i < tail.len() ==> #[trigger] tail[i] == c,
    ensures
        without_trailing(s + tail, c) == s,
    decreases tail.len(),
{
    if tail.len() == 0 {
        assert(s + tail =~= s);
    } else {
        assert((s + tail).drop_last() =~= s + tail.drop_last());
        assert(tail[tail.len() - 1] == c);
        lemma_without_trailing(s, tail.drop_last(), c);
    }
}

/// A deduplicated list holds desktop forms of the paths it came from and nothing else.
pub proof fn lemma_deduped_comes_from_paths(paths: Seq<Seq<char>>, i: int)
    requires
        0 <= i < deduped(paths).len(),
    ensures
        exists|k: int|
            0 <= k < paths.len() && desktop_path(#[trigger] paths[k]) == Some(deduped(paths)[i]),
    decreases paths.len(),
{
    if paths.len() > 0 {
        let init = paths.drop_last();
        if i < deduped(init).len() {
            assert(deduped(paths)[i] == deduped(init)[i]);
            lemma_deduped_comes_from_paths(init, i);
            let k = choose|k: int|
                0 <= k < init.len() && desktop_path(#[trigger] init[k]) == Some(deduped(init)[i]);
            assert(paths[k] == init[k]);
        } else {
            assert(desktop_path(paths[paths.len() - 1]) == Some(deduped(paths)[i]));
        }
    }
}

/// Of paths that compare equal the first one stays: what comes later changes nothing of
/// what a deduplicated list holds so far.
pub proof fn lemma_deduped_keeps_the_first(paths: Seq<Seq<char>>, more: Seq<Seq<char>>)
    ensures
        deduped(paths).is_prefix_of(deduped(paths + more)),
    decreases more.len(),
{
    if more.len() == 0 {
        assert(paths + more =~= paths);
    } else {
        lemma_deduped_keeps_the_first(paths, more.drop_last());
        assert((paths + more).drop_last() =~= paths + more.drop_last());
        let a = deduped(paths);
        let b = deduped(paths + more.drop_last());
        let c = deduped(paths + more);
        assert(b.is_prefix_of(c));
        assert(a =~= c.subrange(0, a.len() as int)) by {
            assert(a =~= b.subrange(0, a.len() as int));
            assert(b =~= c.subrange(0, b.len() as int));
        }
    }
}

/// A desktop form is only blank where the path is nothing but a verbatim prefix, and only
/// begins with a verbatim prefix where a question mark stands right behind the prefix of a
/// network path.
pub proof fn lemma_desktop_form_has_no_prefix(path: Seq<char>)
    requires
        desktop_path(path) is Some,
    ensures
        ({
            let p = desktop_path(path)->0;
            let s = text::trim(path);
            &&& text::is_blank(p) ==> s == "\\\\?\\"@
            &&& p.len() >= 4 && p[0] == '\\' && p[1] == '\\' && p[2] == '?' && p[3] == '\\' ==> s.len()
                >= 9 && s[0] == '\\' && s[1] == '\\' && s[2] == '?' && s[3] == '\\' && s[8] == '?'
        }),
{
    let p = desktop_path(path)->0;
    let s = text::trim(path);
    reveal_strlit("\\\\?\\unc\\");
    reveal_strlit("\\\\?\\");
    reveal_strlit("\\\\");
    text::lemma_trim_splits(path);
    text::lemma_blank_is_white_space(p);
    if text::starts(text::lower(s), "\\\\?\\unc\\"@) {
        assert(p[0] == '\\');
        assert(!text::is_white_space(p[0]));
        let low = text::lower(s);
        let q = low.take(8);
        assert(q[0] == '\\' && q[1] == '\\' && q[2] == '?' && q[3] == '\\');
        assert(low[0] == '\\' && low[1] == '\\' && low[2] == '?' && low[3] == '\\');
        assert(s[0] == '\\' && s[1] == '\\' && s[2] == '?' && s[3] == '\\');
        if p.len() >= 4 && p[2] == '?' {
            assert(p[2] == text::replaced(s.skip(8), '/', '\\')[0]);
            assert(s.skip(8)[0] == s[8]);
        }
    } else if text::starts(s, "\\\\?\\"@) {
        if p.len() > 0 {
            assert(p[p.len() - 1] == if s.last() == '\\' {
                '/'
            } else {
                s.last()
            });
            assert(!text::is_white_space(p[p.len() - 1]));
            assert(p[0] != '\\');
        } else {
            assert(s.take(4) =~= s);
        }
    } else {
        assert(!text::is_white_space(p[0]));
        if p.len() >= 4 && p[0] == '\\' && p[1] == '\\' && p[2] == '?' && p[3] == '\\' {
            assert(s.take(4) =~= "\\\\?\\"@);
        }
    }
}

} // verus!
