//! Names of rollout files and of the temporary files beside them, and the
//! relative paths under which they are recorded.

use crate::text;
use vstd::prelude::*;
use vstd::utf8::encode_utf8;

verus! {

// ---------------------------------------------------------------------------
// Temporary files of a transaction
// ---------------------------------------------------------------------------
/// What marks a temporary file of a transaction, before its number.
pub open spec fn temp_marker(kind: Seq<char>, transaction_id: Seq<char>) -> Seq<char> {
    ".provider-sync-"@ + kind + transaction_id + "-"@
}

/// What marks the temporary file of a rollback.
pub open spec fn restore_marker(transaction_id: Seq<char>) -> Seq<char> {
    ".provider-sync-restore-"@ + transaction_id
}

/// A temporary file's name without the dot in front and the extension.
pub open spec fn temp_body(name: Seq<char>) -> Option<Seq<char>> {
    if text::starts(name, "."@) && text::ends(name.skip(1), ".tmp"@) {
        Some(name.skip(1).take(name.len() - 5))
    } else {
        None
    }
}

pub open spec fn all_digits(s: Seq<char>) -> bool {
    forall|i: int| 0 <= i < s.len() ==> text::is_digit(#[trigger] s[i])
}

/// Whether something stands before the last `marker` in `body`, and a number
/// behind it.
pub open spec fn numbered(body: Seq<char>, marker: Seq<char>) -> bool {
    exists|i: int| #[trigger]
        text::is_last_position(body, marker, i) && 0 < i && i + marker.len() < body.len()
            && all_digits(body.skip(i + marker.len()))
}

/// Whether a file name is that of a temporary file of a transaction.
pub open spec fn belongs(name: Seq<char>, transaction_id: Seq<char>) -> bool {
    match temp_body(name) {
        None => false,
        Some(body) => {
            let plain = temp_marker(""@, transaction_id);
            let displaced = temp_marker("displaced-"@, transaction_id);
            let rejected = temp_marker("rejected-"@, transaction_id);
            if text::holds(body, plain) {
                numbered(body, plain)
            } else if text::holds(body, displaced) {
                numbered(body, displaced)
            } else if text::holds(body, rejected) {
                numbered(body, rejected)
            } else {
                text::ends(body, restore_marker(transaction_id)) && body.len() > restore_marker(
                    transaction_id,
                ).len()
            }
        },
    }
}

fn marker_text(kind: &str, transaction_id: &str) -> (r: String)
    ensures
        r@ == temp_marker(kind@, transaction_id@),
{
    let a = text::join_text(".provider-sync-", kind);
    let b = text::join_text(a.as_str(), transaction_id);
    text::join_text(b.as_str(), "-")
}

/// Whether the name is numbered, where it holds the marker at all.
fn numbered_after(body: &str, marker: &str) -> (r: Option<bool>)
    ensures
        match r {
            Some(b) => text::holds(body@, marker@) && b == numbered(body@, marker@),
            None => !text::holds(body@, marker@),
        },
{
    let x = text::to_chars(body);
    let m = text::to_chars(marker);
    match text::last_position(x.as_slice(), m.as_slice()) {
        None => None,
        Some(i) => {
            assert(text::is_last_position(body@, marker@, i as int));
            assert(forall|k: int| text::is_last_position(body@, marker@, k) ==> k == i);
            if i == 0 {
                return Some(false);
            }
            assert(text::stands_at(body@, marker@, i as int));
            assert(i + m.len() <= x.len());
            let from: usize = i + m.len();
            if from >= x.len() {
                return Some(false);
            }
            let mut k: usize = from;
            while k < x.len()
                invariant
                    x@ == body@,
                    m@ == marker@,
                    from == i + m@.len(),
                    from <= k <= x.len(),
                    text::is_last_position(body@, marker@, i as int),
                    forall|n: int| text::is_last_position(body@, marker@, n) ==> n == i,
                    forall|n: int| from <= n < k ==> text::is_digit(#[trigger] x@[n]),
                decreases x.len() - k,
            {
                if !text::digit(x[k]) {
                    assert(!text::is_digit(body@.skip(from as int)[k - from]));
                    return Some(false);
                }
                k += 1;
            }
            assert(all_digits(body@.skip(from as int)));
            Some(true)
        },
    }
}

/// Whether a file name is that of a temporary file of a transaction.
pub fn provider_sync_temp_name_belongs(name: &str, transaction_id: &str) -> (r: bool)
    ensures
        r == belongs(name@, transaction_id@),
{
    proof {
        reveal_strlit(".");
        reveal_strlit(".tmp");
    }
    let rest = match text::strip_prefix_text(name, ".") {
        Some(rest) => rest,
        None => {
            return false;
        },
    };
    let body = match text::strip_suffix_text(rest.as_str(), ".tmp") {
        Some(body) => body,
        None => {
            return false;
        },
    };
    assert(temp_body(name@) == Some(body@));
    let plain = marker_text("", transaction_id);
    if let Some(r) = numbered_after(body.as_str(), plain.as_str()) {
        return r;
    }
    let displaced = marker_text("displaced-", transaction_id);
    if let Some(r) = numbered_after(body.as_str(), displaced.as_str()) {
        return r;
    }
    let rejected = marker_text("rejected-", transaction_id);
    if let Some(r) = numbered_after(body.as_str(), rejected.as_str()) {
        return r;
    }
    let marker = text::join_text(".provider-sync-restore-", transaction_id);
    match text::strip_suffix_text(body.as_str(), marker.as_str()) {
        Some(rollout_name) => !text::empty_text(rollout_name.as_str()),
        None => false,
    }
}

/// The name of a numbered temporary file beside a rollout file.
pub open spec fn numbered_name(
    file_name: Seq<char>,
    kind: Seq<char>,
    transaction_id: Seq<char>,
    index: nat,
) -> Seq<char> {
    "."@ + (file_name + temp_marker(kind, transaction_id) + text::decimal(index)) + ".tmp"@
}

fn numbered_name_text(
    file_name: &str,
    kind: &str,
    transaction_id: &str,
    entry_index: usize,
) -> (r: String)
    ensures
        r@ == numbered_name(file_name@, kind@, transaction_id@, entry_index as nat),
{
    let marker = marker_text(kind, transaction_id);
    let number = text::decimal_text(entry_index as u64);
    let a = text::join_text(file_name, marker.as_str());
    let b = text::join_text(a.as_str(), number.as_str());
    let c = text::join_text(".", b.as_str());
    text::join_text(c.as_str(), ".tmp")
}

/// The name under which the next version of a rollout file is staged.
pub fn staged_file_name(file_name: &str, transaction_id: &str, entry_index: usize) -> (r: String)
    ensures
        r@ == numbered_name(file_name@, ""@, transaction_id@, entry_index as nat),
{
    numbered_name_text(file_name, "", transaction_id, entry_index)
}

/// The name under which a replaced rollout file is set aside.
pub fn displaced_file_name(file_name: &str, transaction_id: &str, entry_index: usize) -> (r:
    String)
    ensures
        r@ == numbered_name(file_name@, "displaced-"@, transaction_id@, entry_index as nat),
{
    numbered_name_text(file_name, "displaced-", transaction_id, entry_index)
}

/// The name under which a version that is given up is set aside.
pub fn rejected_file_name(file_name: &str, transaction_id: &str, entry_index: usize) -> (r: String)
    ensures
        r@ == numbered_name(file_name@, "rejected-"@, transaction_id@, entry_index as nat),
{
    numbered_name_text(file_name, "rejected-", transaction_id, entry_index)
}

/// The name under which the original version is staged in a rollback.
pub open spec fn restore_name(file_name: Seq<char>, transaction_id: Seq<char>) -> Seq<char> {
    "."@ + (file_name + restore_marker(transaction_id)) + ".tmp"@
}

/// The name of a rollout file that is rebuilt.
pub fn restore_file_name(file_name: &str, transaction_id: &str) -> (r: String)
    ensures
        r@ == restore_name(file_name@, transaction_id@),
{
    let marker = text::join_text(".provider-sync-restore-", transaction_id);
    let a = text::join_text(file_name, marker.as_str());
    let b = text::join_text(".", a.as_str());
    text::join_text(b.as_str(), ".tmp")
}

/// The name under which a file outside the rollout directories is staged.
pub open spec fn downstream_name(file_name: Seq<char>, transaction_id: Seq<char>) -> Seq<char> {
    "."@ + file_name + ".provider-sync-downstream-"@ + transaction_id + ".tmp"@
}

/// The name of a file that is about to be put back from a backup.
pub fn downstream_file_name(file_name: &str, transaction_id: &str) -> (r: String)
    ensures
        r@ == downstream_name(file_name@, transaction_id@),
{
    let a = text::join_text(".", file_name);
    let b = text::join_text(a.as_str(), ".provider-sync-downstream-");
    let c = text::join_text(b.as_str(), transaction_id);
    text::join_text(c.as_str(), ".tmp")
}

/// Whether `id` has the form of a transaction id: thirty-two hexadecimal digits.
pub open spec fn is_transaction_id(id: Seq<char>) -> bool {
    id.len() == 32 && forall|i: int| 0 <= i < id.len() ==> text::is_hex_digit(#[trigger] id[i])
}

// ---------------------------------------------------------------------------
// Laws of temporary names
// ---------------------------------------------------------------------------
pub open spec fn no_dot(s: Seq<char>) -> bool {
    forall|i: int| 0 <= i < s.len() ==> s[i] != '.'
}

/// A marker with one dot at its front stands last where nothing behind it holds a
/// dot.
proof fn lemma_last_marker(before: Seq<char>, marker: Seq<char>, after: Seq<char>)
    requires
        marker.len() > 0,
        marker[0] == '.',
        no_dot(marker.skip(1)),
        no_dot(after),
    ensures
        text::is_last_position(before + marker + after, marker, before.len() as int),
{
    let body = before + marker + after;
    let n = before.len() as int;
    assert(body.subrange(n, n + marker.len()) =~= marker);
    assert forall|k: int| k > n implies !text::stands_at(body, marker, k) by {
        if text::stands_at(body, marker, k) {
            assert(body.subrange(k, k + marker.len())[0] == '.');
            assert(body[k] == '.');
            if k < n + marker.len() {
                assert(marker.skip(1)[k - n - 1] == body[k]);
            } else {
                assert(after[k - n - marker.len()] == body[k]);
            }
        }
    }
}

proof fn lemma_marker_shape(kind: Seq<char>, transaction_id: Seq<char>)
    requires
        is_transaction_id(transaction_id),
        no_dot(kind),
    ensures
        temp_marker(kind, transaction_id).len() == 48 + kind.len(),
        temp_marker(kind, transaction_id)[0] == '.',
        no_dot(temp_marker(kind, transaction_id).skip(1)),
        restore_marker(transaction_id).len() == 55,
        restore_marker(transaction_id)[0] == '.',
        no_dot(restore_marker(transaction_id).skip(1)),
{
    reveal_strlit(".provider-sync-");
    reveal_strlit(".provider-sync-restore-");
    reveal_strlit("-");
    let m = temp_marker(kind, transaction_id);
    assert forall|i: int| 0 <= i < m.skip(1).len() implies m.skip(1)[i] != '.' by {
        let k = i + 1;
        assert(m.skip(1)[i] == m[k]);
        if k < 15 {
        } else if k < 15 + kind.len() {
            assert(m[k] == kind[k - 15]);
        } else if k < 47 + kind.len() {
            assert(m[k] == transaction_id[k - 15 - kind.len()]);
            assert(text::is_hex_digit(transaction_id[k - 15 - kind.len()]));
        }
    }
    let r = restore_marker(transaction_id);
    assert forall|i: int| 0 <= i < r.skip(1).len() implies r.skip(1)[i] != '.' by {
        let k = i + 1;
        assert(r.skip(1)[i] == r[k]);
        if k >= 23 {
            assert(r[k] == transaction_id[k - 23]);
            assert(text::is_hex_digit(transaction_id[k - 23]));
        }
    }
}

proof fn lemma_temp_body(body: Seq<char>)
    ensures
        temp_body("."@ + body + ".tmp"@) == Some(body),
{
    reveal_strlit(".");
    reveal_strlit(".tmp");
    let name = "."@ + body + ".tmp"@;
    assert(name.take(1) =~= "."@);
    assert(name.skip(1) =~= body + ".tmp"@);
    assert((body + ".tmp"@).skip(body.len() as int) =~= ".tmp"@);
    assert(name.skip(1).take(name.len() - 5) =~= body);
}

/// A text with one dot, at the front of `tail`, holds no text that starts with a dot
/// and goes on differently.
proof fn lemma_other_marker_absent(
    before: Seq<char>,
    tail: Seq<char>,
    other: Seq<char>,
    d: int,
)
    requires
        tail.len() > 0,
        tail[0] == '.',
        no_dot(tail.skip(1)),
        other.len() > 15,
        other[0] == '.',
        no_dot(other.skip(1)),
        other.take(15) == ".provider-sync-"@,
        !text::holds(before, ".provider-sync-"@),
        0 <= d < other.len(),
        d >= tail.len() || tail[d] != other[d],
    ensures
        !text::holds(before + tail, other),
{
    reveal_strlit(".provider-sync-");
    let body = before + tail;
    let n = before.len() as int;
    assert forall|k: int| !text::stands_at(body, other, k) by {
        if text::stands_at(body, other, k) {
            let at = body.subrange(k, k + other.len());
            assert(at[0] == body[k]);
            if k > n {
                assert(tail.skip(1)[k - n - 1] == body[k]);
            } else if k == n {
                assert(at[d] == body[n + d]);
                assert(body[n + d] == tail[d]);
            } else if k + 15 <= n {
                assert(before.subrange(k, k + 15) =~= other.take(15)) by {
                    assert forall|j: int| 0 <= j < 15 implies before.subrange(k, k + 15)[j]
                        == other.take(15)[j] by {
                        assert(at[j] == body[k + j]);
                    }
                }
                assert(text::stands_at(before, ".provider-sync-"@, k));
            } else {
                assert(at[n - k] == body[n]);
                assert(body[n] == tail[0]);
                assert(other.skip(1)[n - k - 1] == other[n - k]);
            }
        }
    }
}

/// How the markers of the four kinds begin.
proof fn lemma_marker_chars(id: Seq<char>)
    requires
        is_transaction_id(id),
    ensures
        temp_marker(""@, id).take(15) == ".provider-sync-"@,
        temp_marker("displaced-"@, id).take(15) == ".provider-sync-"@,
        temp_marker("rejected-"@, id).take(15) == ".provider-sync-"@,
        text::is_hex_digit(temp_marker(""@, id)[15]),
        text::is_hex_digit(temp_marker(""@, id)[16]),
        temp_marker("displaced-"@, id)[15] == 'd',
        temp_marker("displaced-"@, id)[16] == 'i',
        temp_marker("rejected-"@, id)[15] == 'r',
        temp_marker("rejected-"@, id)[17] == 'j',
        restore_marker(id)[15] == 'r',
        restore_marker(id)[17] == 's',
        no_dot(""@),
        no_dot("displaced-"@),
        no_dot("rejected-"@),
{
    reveal_strlit("");
    reveal_strlit("displaced-");
    reveal_strlit("rejected-");
    reveal_strlit(".provider-sync-");
    reveal_strlit(".provider-sync-restore-");
    let plain = temp_marker(""@, id);
    assert(text::is_hex_digit(id[0]) && text::is_hex_digit(id[1]));
    assert(plain[15] == id[0] && plain[16] == id[1]);
    assert(plain.take(15) =~= ".provider-sync-"@);
    assert(temp_marker("displaced-"@, id).take(15) =~= ".provider-sync-"@);
    assert(temp_marker("rejected-"@, id).take(15) =~= ".provider-sync-"@);
}

proof fn lemma_tail_no_dot(marker: Seq<char>, number: Seq<char>)
    requires
        marker.len() > 0,
        no_dot(marker.skip(1)),
        no_dot(number),
    ensures
        no_dot((marker + number).skip(1)),
{
    let tail = (marker + number).skip(1);
    assert forall|i: int| 0 <= i < tail.len() implies tail[i] != '.' by {
        if i + 1 < marker.len() {
            assert(tail[i] == marker.skip(1)[i]);
        } else {
            assert(tail[i] == number[i + 1 - marker.len()]);
        }
    }
}

proof fn lemma_number_no_dot(index: nat)
    ensures
        no_dot(text::decimal(index)),
        all_digits(text::decimal(index)),
        text::decimal(index).len() > 0,
{
    text::lemma_decimal_digits(index);
    let number = text::decimal(index);
    assert forall|i: int| 0 <= i < number.len() implies number[i] != '.' by {
        assert(text::is_digit(number[i]));
    }
}

/// A name with the marker of one kind does not hold the marker of another.
proof fn lemma_kind_absent(
    file_name: Seq<char>,
    marker: Seq<char>,
    number: Seq<char>,
    other: Seq<char>,
    d: int,
)
    requires
        !text::holds(file_name, ".provider-sync-"@),
        marker.len() > 17,
        marker[0] == '.',
        no_dot(marker.skip(1)),
        no_dot(number),
        other.len() > 17,
        other[0] == '.',
        no_dot(other.skip(1)),
        other.take(15) == ".provider-sync-"@,
        0 <= d <= 17,
        marker[d] != other[d],
    ensures
        !text::holds(file_name + marker + number, other),
{
    lemma_tail_no_dot(marker, number);
    let tail = marker + number;
    assert(tail[0] == marker[0]);
    assert(tail[d] == marker[d]);
    lemma_other_marker_absent(file_name, tail, other, d);
    assert(file_name + marker + number =~= file_name + tail);
}

proof fn lemma_numbered_belongs(
    file_name: Seq<char>,
    marker: Seq<char>,
    number: Seq<char>,
    id: Seq<char>,
)
    requires
        file_name.len() > 0,
        marker.len() > 0,
        marker[0] == '.',
        no_dot(marker.skip(1)),
        number.len() > 0,
        all_digits(number),
        no_dot(number),
        ({
            let body = file_name + marker + number;
            let plain = temp_marker(""@, id);
            let displaced = temp_marker("displaced-"@, id);
            let rejected = temp_marker("rejected-"@, id);
            ||| marker == plain
            ||| marker == displaced && !text::holds(body, plain)
            ||| marker == rejected && !text::holds(body, plain) && !text::holds(body, displaced)
        }),
    ensures
        belongs("."@ + (file_name + marker + number) + ".tmp"@, id),
{
    lemma_numbered(file_name, marker, number);
    lemma_temp_body(file_name + marker + number);
}

proof fn lemma_own_numbered(file_name: Seq<char>, id: Seq<char>, index: nat)
    requires
        file_name.len() > 0,
        !text::holds(file_name, ".provider-sync-"@),
        is_transaction_id(id),
    ensures
        belongs(numbered_name(file_name, ""@, id, index), id),
        belongs(numbered_name(file_name, "displaced-"@, id, index), id),
        belongs(numbered_name(file_name, "rejected-"@, id, index), id),
{
    let number = text::decimal(index);
    let plain = temp_marker(""@, id);
    let displaced = temp_marker("displaced-"@, id);
    let rejected = temp_marker("rejected-"@, id);
    lemma_number_no_dot(index);
    lemma_marker_chars(id);
    lemma_marker_shape(""@, id);
    lemma_marker_shape("displaced-"@, id);
    lemma_marker_shape("rejected-"@, id);
    lemma_numbered_belongs(file_name, plain, number, id);
    lemma_kind_absent(file_name, displaced, number, plain, 16);
    lemma_numbered_belongs(file_name, displaced, number, id);
    lemma_kind_absent(file_name, rejected, number, plain, 15);
    lemma_kind_absent(file_name, rejected, number, displaced, 15);
    lemma_numbered_belongs(file_name, rejected, number, id);
}

proof fn lemma_restore_belongs(file_name: Seq<char>, id: Seq<char>)
    requires
        file_name.len() > 0,
        !text::holds(file_name + restore_marker(id), temp_marker(""@, id)),
        !text::holds(file_name + restore_marker(id), temp_marker("displaced-"@, id)),
        !text::holds(file_name + restore_marker(id), temp_marker("rejected-"@, id)),
    ensures
        belongs(restore_name(file_name, id), id),
{
    let restore = restore_marker(id);
    let body = file_name + restore;
    lemma_temp_body(body);
    assert(body.skip(body.len() - restore.len()) =~= restore);
}

proof fn lemma_own_restore(file_name: Seq<char>, id: Seq<char>)
    requires
        file_name.len() > 0,
        !text::holds(file_name, ".provider-sync-"@),
        is_transaction_id(id),
    ensures
        belongs(restore_name(file_name, id), id),
{
    let restore = restore_marker(id);
    lemma_marker_chars(id);
    lemma_marker_shape(""@, id);
    lemma_marker_shape("displaced-"@, id);
    lemma_marker_shape("rejected-"@, id);
    lemma_other_marker_absent(file_name, restore, temp_marker(""@, id), 15);
    lemma_other_marker_absent(file_name, restore, temp_marker("displaced-"@, id), 15);
    lemma_other_marker_absent(file_name, restore, temp_marker("rejected-"@, id), 17);
    lemma_restore_belongs(file_name, id);
}

/// The temporary names of a transaction belong to it: a rollout file's name with
/// the marker of the transaction, whatever its kind and number.
pub proof fn lemma_own_names_belong(file_name: Seq<char>, transaction_id: Seq<char>, index: nat)
    requires
        file_name.len() > 0,
        !text::holds(file_name, ".provider-sync-"@),
        is_transaction_id(transaction_id),
    ensures
        belongs(numbered_name(file_name, ""@, transaction_id, index), transaction_id),
        belongs(numbered_name(file_name, "displaced-"@, transaction_id, index), transaction_id),
        belongs(numbered_name(file_name, "rejected-"@, transaction_id, index), transaction_id),
        belongs(restore_name(file_name, transaction_id), transaction_id),
{
    lemma_own_numbered(file_name, transaction_id, index);
    lemma_own_restore(file_name, transaction_id);
}

proof fn lemma_numbered(file_name: Seq<char>, marker: Seq<char>, number: Seq<char>)
    requires
        file_name.len() > 0,
        marker.len() > 0,
        marker[0] == '.',
        no_dot(marker.skip(1)),
        number.len() > 0,
        all_digits(number),
        no_dot(number),
    ensures
        text::holds(file_name + marker + number, marker),
        numbered(file_name + marker + number, marker),
{
    let body = file_name + marker + number;
    lemma_last_marker(file_name, marker, number);
    assert(body.skip(file_name.len() as int + marker.len()) =~= number);
    assert(text::is_last_position(body, marker, file_name.len() as int));
    assert(text::stands_at(body, marker, file_name.len() as int));
}

/// What a temporary name of a transaction consists of behind its last dot but one.
spec fn temp_tail(tail: Seq<char>, transaction_id: Seq<char>) -> bool {
    ||| exists|number: Seq<char>| #[trigger]
        all_digits(number) && number.len() > 0 && tail == temp_marker(""@, transaction_id) + number
    ||| exists|number: Seq<char>| #[trigger]
        all_digits(number) && number.len() > 0 && tail == temp_marker("displaced-"@, transaction_id)
            + number
    ||| exists|number: Seq<char>| #[trigger]
        all_digits(number) && number.len() > 0 && tail == temp_marker("rejected-"@, transaction_id)
            + number
    ||| tail == restore_marker(transaction_id)
}

proof fn lemma_numbered_tail(body: Seq<char>, marker: Seq<char>) -> (n: int)
    requires
        numbered(body, marker),
        marker.len() > 0,
        marker[0] == '.',
        no_dot(marker.skip(1)),
    ensures
        0 <= n < body.len(),
        all_digits(body.skip(n).skip(marker.len() as int)),
        body.skip(n).len() > marker.len(),
        body.skip(n) == marker + body.skip(n).skip(marker.len() as int),
        body[n] == '.',
        no_dot(body.skip(n + 1)),
{
    let n = choose|i: int| #[trigger]
        text::is_last_position(body, marker, i) && 0 < i && i + marker.len() < body.len()
            && all_digits(body.skip(i + marker.len()));
    let number = body.skip(n + marker.len());
    let at = body.subrange(n, n + marker.len());
    assert(at == marker);
    assert(body.skip(n).skip(marker.len() as int) =~= number);
    assert(body.skip(n) =~= marker + number);
    assert(at[0] == body[n]);
    let behind = body.skip(n + 1);
    assert forall|i: int| 0 <= i < behind.len() implies behind[i] != '.' by {
        if i + 1 < marker.len() {
            assert(at[i + 1] == body[n + i + 1]);
            assert(marker.skip(1)[i] == marker[i + 1]);
        } else {
            assert(number[i + 1 - marker.len()] == body[n + i + 1]);
            assert(text::is_digit(number[i + 1 - marker.len()]));
        }
    }
    n
}

proof fn lemma_belongs_tail(name: Seq<char>, transaction_id: Seq<char>) -> (n: int)
    requires
        belongs(name, transaction_id),
        is_transaction_id(transaction_id),
    ensures
        temp_body(name) is Some,
        0 <= n < temp_body(name)->0.len(),
        temp_body(name)->0[n] == '.',
        no_dot(temp_body(name)->0.skip(n + 1)),
        temp_tail(temp_body(name)->0.skip(n), transaction_id),
{
    reveal_strlit("");
    reveal_strlit("displaced-");
    reveal_strlit("rejected-");
    lemma_marker_shape(""@, transaction_id);
    lemma_marker_shape("displaced-"@, transaction_id);
    lemma_marker_shape("rejected-"@, transaction_id);
    let body = temp_body(name)->0;
    let plain = temp_marker(""@, transaction_id);
    let displaced = temp_marker("displaced-"@, transaction_id);
    let rejected = temp_marker("rejected-"@, transaction_id);
    let restore = restore_marker(transaction_id);
    if text::holds(body, plain) {
        let n = lemma_numbered_tail(body, plain);
        assert(all_digits(body.skip(n).skip(plain.len() as int)));
        n
    } else if text::holds(body, displaced) {
        let n = lemma_numbered_tail(body, displaced);
        assert(all_digits(body.skip(n).skip(displaced.len() as int)));
        n
    } else if text::holds(body, rejected) {
        let n = lemma_numbered_tail(body, rejected);
        assert(all_digits(body.skip(n).skip(rejected.len() as int)));
        n
    } else {
        let n = body.len() - restore.len();
        assert(body.skip(n) == restore);
        assert(body.skip(n)[0] == body[n]);
        let behind = body.skip(n + 1);
        assert forall|i: int| 0 <= i < behind.len() implies behind[i] != '.' by {
            assert(body.skip(n)[i + 1] == body[n + i + 1]);
            assert(restore.skip(1)[i] == restore[i + 1]);
        }
        n
    }
}

/// The characters by which the tails of different kinds differ, and those that
/// hold the transaction id.
proof fn lemma_tail_reading(tail: Seq<char>, transaction_id: Seq<char>)
    requires
        is_transaction_id(transaction_id),
        temp_tail(tail, transaction_id),
    ensures
        tail.len() >= 48,
        ({
            ||| text::is_hex_digit(tail[16]) && tail.subrange(15, 47) == transaction_id
            ||| tail[15] == 'd' && tail[16] == 'i' && tail.len() >= 58 && tail.subrange(25, 57)
                == transaction_id
            ||| tail[15] == 'r' && tail[16] == 'e' && tail[17] == 'j' && tail.len() >= 57
                && tail.subrange(24, 56) == transaction_id
            ||| tail[15] == 'r' && tail[16] == 'e' && tail[17] == 's' && tail.len() >= 55
                && tail.subrange(23, 55) == transaction_id
        }),
        tail[15] == 'r' ==> !text::is_hex_digit(tail[15]),
        text::is_hex_digit(tail[16]) && tail.subrange(15, 47) == transaction_id
            ==> text::is_hex_digit(tail[15]),
{
    reveal_strlit("");
    reveal_strlit("displaced-");
    reveal_strlit("rejected-");
    reveal_strlit(".provider-sync-");
    reveal_strlit(".provider-sync-restore-");
    reveal_strlit("-");
    let id = transaction_id;
    assert(text::is_hex_digit(id[0]) && text::is_hex_digit(id[1]));
    if tail == restore_marker(id) {
        assert(tail.subrange(23, 55) =~= id);
    } else if exists|number: Seq<char>| #[trigger]
        all_digits(number) && number.len() > 0 && tail == temp_marker(""@, id) + number {
        assert(tail[15] == id[0] && tail[16] == id[1]);
        assert(tail.subrange(15, 47) =~= id);
    } else if exists|number: Seq<char>| #[trigger]
        all_digits(number) && number.len() > 0 && tail == temp_marker("displaced-"@, id) + number {
        assert(tail.subrange(25, 57) =~= id);
    } else {
        assert(tail.subrange(24, 56) =~= id);
    }
    if tail.subrange(15, 47) == id {
        assert(tail.subrange(15, 47)[0] == tail[15]);
    }
}

/// A temporary name belongs to one transaction only.
pub proof fn lemma_belongs_to_one_transaction(name: Seq<char>, a: Seq<char>, b: Seq<char>)
    requires
        is_transaction_id(a),
        is_transaction_id(b),
        belongs(name, a),
        belongs(name, b),
    ensures
        a == b,
{
    let n = lemma_belongs_tail(name, a);
    let m = lemma_belongs_tail(name, b);
    let body = temp_body(name)->0;
    if n < m {
        assert(body.skip(n + 1)[m - n - 1] == '.');
    }
    if m < n {
        assert(body.skip(m + 1)[n - m - 1] == '.');
    }
    lemma_tail_reading(body.skip(n), a);
    lemma_tail_reading(body.skip(n), b);
}

// ---------------------------------------------------------------------------
// Rollout files
// ---------------------------------------------------------------------------
/// Whether a file name is that of a rollout file.
pub open spec fn is_rollout_name(name: Seq<char>) -> bool {
    text::starts(name, "rollout-"@) && text::ends(name, ".jsonl"@)
}

/// Whether a file name is that of a rollout file.
pub fn is_rollout_file_name(name: &str) -> (r: bool)
    ensures
        r == is_rollout_name(name@),
{
    text::starts_with_text(name, "rollout-") && text::ends_with_text(name, ".jsonl")
}

/// A rollout file's name between its prefix and its extension.
pub open spec fn rollout_stem(name: Seq<char>) -> Option<Seq<char>> {
    if text::starts(name, "rollout-"@) && text::ends(name.skip(8), ".jsonl"@) {
        Some(name.skip(8).take(name.len() - 14))
    } else {
        None
    }
}

/// Whether the last thirty-six bytes of the name's stem are whole characters.
pub open spec fn has_whole_tail(name: Seq<char>) -> bool {
    match rollout_stem(name) {
        Some(stem) => encode_utf8(stem).len() >= 36 ==> vstd::utf8::is_char_boundary(
            encode_utf8(stem),
            encode_utf8(stem).len() - 36,
        ),
        None => true,
    }
}

/// Whether `s` has the form of a thread id: hexadecimal digits in groups of eight,
/// four, four, four and twelve, with hyphens between them.
pub open spec fn is_thread_id(s: Seq<char>) -> bool {
    s.len() == 36 && forall|i: int|
        0 <= i < 36 ==> if i == 8 || i == 13 || i == 18 || i == 23 {
            #[trigger] s[i] == '-'
        } else {
            text::is_hex_digit(s[i])
        }
}

/// The thread id at the end of a rollout file's name.
pub open spec fn name_thread_id(name: Seq<char>) -> Option<Seq<char>> {
    match rollout_stem(name) {
        Some(stem) => if stem.len() >= 36 && is_thread_id(stem.skip(stem.len() - 36)) {
            Some(stem.skip(stem.len() - 36))
        } else {
            None
        },
        None => None,
    }
}

/// The thread id at the end of a rollout file's name.
pub fn rollout_thread_id_from_filename(name: &str) -> (r: Option<String>)
    requires
        has_whole_tail(name@),
    ensures
        text::text_of(r) == name_thread_id(name@),
{
    proof {
        reveal_strlit("rollout-");
        reveal_strlit(".jsonl");
    }
    let rest = match text::strip_prefix_text(name, "rollout-") {
        Some(rest) => rest,
        None => {
            return None;
        },
    };
    let stem = match text::strip_suffix_text(rest.as_str(), ".jsonl") {
        Some(stem) => stem,
        None => {
            return None;
        },
    };
    assert(rollout_stem(name@) == Some(stem@));
    let x = text::to_chars(stem.as_str());
    if x.len() < 36 {
        return None;
    }
    let from: usize = x.len() - 36;
    let ghost candidate = stem@.skip(from as int);
    let mut i: usize = 0;
    while i < 36
        invariant
            i <= 36,
            x@ == stem@,
            from == x.len() - 36,
            candidate == stem@.skip(from as int),
            rollout_stem(name@) == Some(stem@),
            forall|k: int|
                0 <= k < i ==> if k == 8 || k == 13 || k == 18 || k == 23 {
                    #[trigger] candidate[k] == '-'
                } else {
                    text::is_hex_digit(candidate[k])
                },
        decreases 36 - i,
    {
        let c = x[from + i];
        assert(c == candidate[i as int]);
        let fits = if i == 8 || i == 13 || i == 18 || i == 23 {
            c == '-'
        } else {
            text::hex_digit(c)
        };
        if !fits {
            assert(!is_thread_id(candidate));
            return None;
        }
        i += 1;
    }
    assert(is_thread_id(candidate));
    let r = text::slice_text(x.as_slice(), from, x.len());
    assert(r@ =~= candidate);
    Some(r)
}

/// Whether a file name is that of a database.
pub open spec fn is_database_name(name: Seq<char>) -> bool {
    (text::ends(name, ".sqlite"@) && name.len() > 7) || (text::ends(name, ".db"@) && name.len() > 3)
}

/// Whether a file name is that of a database.
pub fn is_database_file_name(name: &str) -> (r: bool)
    ensures
        r == is_database_name(name@),
{
    let length = text::to_chars(name).len();
    (text::ends_with_text(name, ".sqlite") && length > 7) || (text::ends_with_text(name, ".db")
        && length > 3)
}

// ---------------------------------------------------------------------------
// Relative paths
// ---------------------------------------------------------------------------
/// The pieces of a path between its slashes.
pub open spec fn path_pieces(path: Seq<char>) -> Seq<Seq<char>> {
    text::lines_of(path, '/').map_values(|l: Seq<char>| without_slash(l))
}

pub open spec fn without_slash(piece: Seq<char>) -> Seq<char> {
    if piece.len() > 0 && piece.last() == '/' {
        piece.drop_last()
    } else {
        piece
    }
}

/// A path with slashes between its pieces, which on Windows may be backslashes.
pub open spec fn with_slashes(path: Seq<char>, windows: bool) -> Seq<char> {
    if windows {
        text::replaced(path, '\\', '/')
    } else {
        path
    }
}

/// Whether a path begins with a letter and a colon.
pub open spec fn has_drive(path: Seq<char>) -> bool {
    path.len() >= 2 && is_drive_letter(path[0]) && path[1] == ':'
}

pub open spec fn is_drive_letter(c: char) -> bool {
    'a' <= c <= 'z' || 'A' <= c <= 'Z'
}

/// Whether a path leads down from where it starts: it is relative, names no drive,
/// does not begin with `.` and has no `..` in it.
pub open spec fn leads_down(path: Seq<char>, windows: bool) -> bool {
    let plain = with_slashes(path, windows);
    &&& plain.len() > 0 ==> plain[0] != '/'
    &&& plain.len() > 0 ==> path_pieces(plain)[0] != "."@
    &&& !path_pieces(plain).contains(".."@)
    &&& !(windows && has_drive(path))
}

/// The pieces of a path between slashes.
pub fn pieces_of(path: &str) -> (r: Vec<String>)
    ensures
        text::texts(r@) == path_pieces(path@),
{
    let x = text::to_chars(path);
    let mut out: Vec<String> = Vec::new();
    let mut piece: Vec<char> = Vec::new();
    let mut i: usize = 0;
    let ghost mut lines: Seq<Seq<char>> = Seq::empty();
    while i < x.len()
        invariant
            i <= x.len(),
            x@ == path@,
            piece@.len() > 0 ==> piece@.last() != '/',
            text::lines_of(path@.take(i as int), '/') == if piece@.len() > 0 {
                lines.push(piece@)
            } else {
                lines
            },
            lines.len() > 0 ==> lines.last().len() > 0 && lines.last().last() == '/',
            text::texts(out@) == lines.map_values(|l: Seq<char>| without_slash(l)),
        decreases x.len() - i,
    {
        let ghost part = piece@;
        assert(path@.take(i + 1).drop_last() =~= path@.take(i as int));
        assert(lines.push(part).drop_last() =~= lines);
        if x[i] == '/' {
            let full = text::to_text(piece.as_slice());
            let ghost before = text::texts(out@);
            out.push(full);
            proof {
                let line = part.push('/');
                assert(part.len() == 0 ==> line =~= seq!['/']);
                assert(without_slash(line) =~= part);
                assert(text::texts(out@) =~= before.push(part));
                let old_lines = lines;
                lines = lines.push(line);
                assert(lines.map_values(|l: Seq<char>| without_slash(l)) =~= old_lines.map_values(
                    |l: Seq<char>| without_slash(l),
                ).push(without_slash(line)));
            }
            piece = Vec::new();
        } else {
            piece.push(x[i]);
            assert(part.len() == 0 ==> piece@ =~= seq![x@[i as int]]);
        }
        i += 1;
    }
    assert(path@.take(i as int) =~= path@);
    if piece.len() > 0 {
        let ghost before = text::texts(out@);
        let rest = text::to_text(piece.as_slice());
        out.push(rest);
        proof {
            assert(text::texts(out@) =~= before.push(piece@));
            assert(lines.push(piece@).map_values(|l: Seq<char>| without_slash(l))
                =~= lines.map_values(|l: Seq<char>| without_slash(l)).push(
                without_slash(piece@),
            ));
        }
    }
    out
}

/// A path with slashes between its pieces.
pub fn slashed(path: &str, windows: bool) -> (r: String)
    ensures
        r@ == with_slashes(path@, windows),
{
    if windows {
        text::replace_text(path, '\\', '/')
    } else {
        text::copy_text(path)
    }
}

/// Whether a path begins with a letter and a colon.
pub fn names_drive(path: &str) -> (r: bool)
    ensures
        r == has_drive(path@),
{
    let x = text::to_chars(path);
    x.len() >= 2 && (('a' <= x[0] && x[0] <= 'z') || ('A' <= x[0] && x[0] <= 'Z')) && x[1] == ':'
}

fn path_leads_down(path: &str, windows: bool, plain: &str, pieces: &Vec<String>) -> (r: bool)
    requires
        plain@ == with_slashes(path@, windows),
        text::texts(pieces@) == path_pieces(plain@),
    ensures
        r == leads_down(path@, windows),
{
    let x = text::to_chars(plain);
    if x.len() > 0 {
        proof {
            text::lemma_lines_join(plain@, '/');
            assert(path_pieces(plain@).len() > 0);
            assert(pieces@.len() == text::texts(pieces@).len());
        }
        if x[0] == '/' {
            return false;
        }
        assert(text::texts(pieces@)[0] == pieces@[0]@);
        if text::same_text(pieces[0].as_str(), ".") {
            return false;
        }
    }
    !text::contains_text(pieces, "..") && !(windows && names_drive(path))
}

/// Why a path cannot be that of a rollout file.
#[derive(Clone, Copy, PartialEq, Eq, Debug)]
pub enum RolloutPathError {
    Invalid,
    Empty,
    OutsideRoots,
}

/// The directory of the home directory in which a recorded rollout path lies.
pub open spec fn rollout_root(path: Seq<char>, windows: bool) -> Result<
    Seq<char>,
    RolloutPathError,
> {
    let first = path_pieces(with_slashes(path, windows))[0];
    if !leads_down(path, windows) {
        Err(RolloutPathError::Invalid)
    } else if path.len() == 0 {
        Err(RolloutPathError::Empty)
    } else if first == "sessions"@ || first == "archived_sessions"@ {
        Ok(first)
    } else {
        Err(RolloutPathError::OutsideRoots)
    }
}

/// Checks a recorded rollout path, and names the directory in which it lies.
pub fn validated_rollout_relative_path(value: &str, windows: bool) -> (r: Result<
    String,
    RolloutPathError,
>)
    ensures
        match (r, rollout_root(value@, windows)) {
            (Ok(root), Ok(expected)) => root@ == expected,
            (Err(e), Err(expected)) => e == expected,
            _ => false,
        },
{
    let plain = slashed(value, windows);
    let pieces = pieces_of(plain.as_str());
    if !path_leads_down(value, windows, plain.as_str(), &pieces) {
        return Err(RolloutPathError::Invalid);
    }
    if text::empty_text(value) {
        return Err(RolloutPathError::Empty);
    }
    proof {
        text::lemma_lines_join(plain@, '/');
        assert(pieces@.len() == text::texts(pieces@).len());
        assert(text::texts(pieces@)[0] == pieces@[0]@);
    }
    let root = text::copy_text(pieces[0].as_str());
    if text::same_text(root.as_str(), "sessions") || text::same_text(
        root.as_str(),
        "archived_sessions",
    ) {
        Ok(root)
    } else {
        Err(RolloutPathError::OutsideRoots)
    }
}

/// A rollout file's path below the home directory in the form in which it is
/// recorded, with slashes.
pub fn rollout_relative_path(relative: &str, windows: bool) -> (r: Result<
    String,
    RolloutPathError,
>)
    ensures
        match (r, rollout_root(text::replaced(relative@, '\\', '/'), windows)) {
            (Ok(path), Ok(_)) => path@ == text::replaced(relative@, '\\', '/'),
            (Err(e), Err(expected)) => e == expected,
            _ => false,
        },
{
    let path = text::replace_text(relative, '\\', '/');
    match validated_rollout_relative_path(path.as_str(), windows) {
        Ok(_) => Ok(path),
        Err(e) => Err(e),
    }
}

/// Whether a path may stand in the record of a backup.
pub fn validated_backup_relative_path(path: &str, windows: bool) -> (r: bool)
    ensures
        r == leads_down(path@, windows),
{
    let plain = slashed(path, windows);
    let pieces = pieces_of(plain.as_str());
    path_leads_down(path, windows, plain.as_str(), &pieces)
}

// ---------------------------------------------------------------------------
// What names and paths tell
// ---------------------------------------------------------------------------
/// Whether a text is an id of a thread: groups of 8, 4, 4, 4 and 12 hexadecimal digits
/// with hyphens between them.
pub open spec fn has_id_form(s: Seq<char>) -> bool {
    &&& s.len() == 36
    &&& s[8] == '-' && s[13] == '-' && s[18] == '-' && s[23] == '-'
    &&& forall|i: int|
        0 <= i < 36 && i != 8 && i != 13 && i != 18 && i != 23 ==> ('0' <= #[trigger] s[i] <= '9'
            || 'a' <= s[i] <= 'f' || 'A' <= s[i] <= 'F')
}

/// The name of a rollout file tells the id of its thread, which stands right before the
/// extension, whatever stands before it.
pub proof fn lemma_name_tells_the_thread(before: Seq<char>, id: Seq<char>)
    requires
        id.len() == 36,
    ensures
        name_thread_id("rollout-"@ + before + id + ".jsonl"@) == if has_id_form(id) {
            Some(id)
        } else {
            None
        },
        is_rollout_name("rollout-"@ + before + id + ".jsonl"@),
{
    reveal_strlit("rollout-");
    reveal_strlit(".jsonl");
    let name = "rollout-"@ + before + id + ".jsonl"@;
    assert(name.take(8) =~= "rollout-"@);
    assert(name.skip(name.len() - 6) =~= ".jsonl"@);
    let rest = name.skip(8);
    assert(rest.skip(rest.len() - 6) =~= ".jsonl"@);
    let stem = rest.take(name.len() - 14);
    assert(stem =~= before + id);
    assert(rollout_stem(name) == Some(stem));
    assert(stem.skip(stem.len() - 36) =~= id);
    lemma_id_form(id);
}

/// A name tells a thread only where it is that of a rollout file with an id at its end.
pub proof fn lemma_only_rollout_names_tell_a_thread(name: Seq<char>)
    requires
        name_thread_id(name) is Some,
    ensures
        has_id_form(name_thread_id(name)->0),
        exists|before: Seq<char>|
            name == #[trigger] ("rollout-"@ + before + name_thread_id(name)->0 + ".jsonl"@),
{
    reveal_strlit("rollout-");
    reveal_strlit(".jsonl");
    let stem = rollout_stem(name)->0;
    let id = name_thread_id(name)->0;
    lemma_id_form(id);
    let before = stem.take(stem.len() - 36);
    let rest = name.skip(8);
    assert(name.take(8) == "rollout-"@);
    assert(rest.skip(rest.len() - 6) == ".jsonl"@);
    assert(rest =~= stem + rest.skip(rest.len() - 6));
    assert(stem =~= before + id);
    assert(name =~= name.take(8) + rest);
    assert(name =~= "rollout-"@ + before + id + ".jsonl"@);
}

proof fn lemma_id_form(s: Seq<char>)
    ensures
        is_thread_id(s) <==> has_id_form(s),
{
    if is_thread_id(s) {
        assert(s[8] == '-' && s[13] == '-' && s[18] == '-' && s[23] == '-');
        assert forall|i: int|
            0 <= i < 36 && i != 8 && i != 13 && i != 18 && i != 23 implies ('0' <= #[trigger] s[i]
            <= '9' || 'a' <= s[i] <= 'f' || 'A' <= s[i] <= 'F') by {
            assert(text::is_hex_digit(s[i]));
        }
    }
    if has_id_form(s) {
        assert forall|i: int| 0 <= i < 36 implies if i == 8 || i == 13 || i == 18 || i == 23 {
            #[trigger] s[i] == '-'
        } else {
            text::is_hex_digit(s[i])
        } by {}
    }
}

/// A file is taken for a rollout file by how its name begins and ends, and for a database
/// by its extension, before which something has to stand.
pub proof fn lemma_files_are_told_by_their_names(name: Seq<char>)
    ensures
        is_rollout_name(name) <==> (exists|rest: Seq<char>|
            name == #[trigger] ("rollout-"@ + rest)) && (exists|front: Seq<char>|
            name == #[trigger] (front + ".jsonl"@)),
        is_database_name(name) <==> exists|front: Seq<char>|
            front.len() > 0 && (name == #[trigger] (front + ".sqlite"@) || name == front + ".db"@),
{
    reveal_strlit(".sqlite");
    reveal_strlit(".db");
    text::lemma_starts_and_ends(name, "rollout-"@);
    text::lemma_starts_and_ends(name, ".jsonl"@);
    text::lemma_starts_and_ends(name, ".sqlite"@);
    text::lemma_starts_and_ends(name, ".db"@);
    if text::ends(name, ".sqlite"@) && name.len() > 7 {
        let front = name.take(name.len() - 7);
        assert(name =~= front + ".sqlite"@);
    }
    if text::ends(name, ".db"@) && name.len() > 3 {
        let front = name.take(name.len() - 3);
        assert(name =~= front + ".db"@);
        assert(front + ".sqlite"@ == front + ".sqlite"@);
    }
    if exists|front: Seq<char>|
        front.len() > 0 && (name == #[trigger] (front + ".sqlite"@) || name == front + ".db"@) {
        let front = choose|front: Seq<char>|
            front.len() > 0 && (name == #[trigger] (front + ".sqlite"@) || name == front + ".db"@);
        if name == front + ".sqlite"@ {
            assert(name.skip(name.len() - 7) =~= ".sqlite"@);
        } else {
            assert(name.skip(name.len() - 3) =~= ".db"@);
        }
    }
}

/// The pieces of a path are what stands before its first slash, and the pieces of what
/// stands behind it.
pub proof fn lemma_pieces_of_a_path(piece: Seq<char>, rest: Seq<char>)
    requires
        !piece.contains('/'),
    ensures
        path_pieces(piece.push('/') + rest) == seq![piece] + path_pieces(rest),
        piece.len() > 0 ==> path_pieces(piece) == seq![piece],
        path_pieces(Seq::empty()) == Seq::<Seq<char>>::empty(),
{
    text::lemma_first_line(piece, rest, '/');
    assert(piece.push('/').drop_last() =~= piece);
    let all = seq![piece.push('/')] + text::lines_of(rest, '/');
    assert(path_pieces(piece.push('/') + rest) =~= seq![piece] + path_pieces(rest)) by {
        assert forall|i: int| 0 <= i < all.len() implies #[trigger] without_slash(all[i]) == (
        seq![piece] + path_pieces(rest))[i] by {
            if i == 0 {
                assert(all[0] == piece.push('/'));
            } else {
                assert(all[i] == text::lines_of(rest, '/')[i - 1]);
            }
        }
    }
    if piece.len() > 0 {
        assert(path_pieces(piece) =~= seq![piece]) by {
            if piece.last() == '/' {
                assert(piece.contains(piece[piece.len() - 1]));
            }
        }
    }
    assert(path_pieces(Seq::empty()) =~= Seq::<Seq<char>>::empty());
}

/// A path that leads up anywhere, begins at the root, begins with a dot alone or, on
/// Windows, names a drive does not lead down; any other path does. On Windows backslashes
/// count as slashes.
pub proof fn lemma_which_paths_lead_down(path: Seq<char>, windows: bool)
    ensures
        ({
            let plain = if windows {
                text::replaced(path, '\\', '/')
            } else {
                path
            };
            let pieces = path_pieces(plain);
            leads_down(path, windows) <==> {
                &&& !pieces.contains(".."@)
                &&& plain.len() > 0 ==> plain[0] != '/' && pieces[0] != "."@
                &&& windows ==> !(path.len() >= 2 && path[1] == ':' && ('a' <= path[0] <= 'z'
                    || 'A' <= path[0] <= 'Z'))
            }
        }),
{
}

/// A rollout file lies below one of the two directories of rollout files; a path that does
/// not lead down, an empty one and one that leads elsewhere are refused, each for its own
/// reason.
pub proof fn lemma_where_rollout_files_lie(path: Seq<char>, windows: bool)
    ensures
        ({
            let first = path_pieces(with_slashes(path, windows))[0];
            let r = rollout_root(path, windows);
            &&& !leads_down(path, windows) ==> r == Err::<Seq<char>, RolloutPathError>(
                RolloutPathError::Invalid,
            )
            &&& leads_down(path, windows) && path.len() == 0 ==> r == Err::<
                Seq<char>,
                RolloutPathError,
            >(RolloutPathError::Empty)
            &&& leads_down(path, windows) && path.len() > 0 ==> {
                &&& r is Ok <==> first == "sessions"@ || first == "archived_sessions"@
                &&& r matches Ok(name) ==> name == first
                &&& r is Err ==> r == Err::<Seq<char>, RolloutPathError>(
                    RolloutPathError::OutsideRoots,
                )
            }
        }),
{
}

/// A name that a transaction gives to a file of its own tells the file, the transaction and
/// the entry, and is hidden and temporary.
pub proof fn lemma_own_names(
    file_name: Seq<char>,
    transaction_id: Seq<char>,
    index: nat,
)
    ensures
        numbered_name(file_name, ""@, transaction_id, index) == "."@ + file_name
            + ".provider-sync-"@ + transaction_id + "-"@ + text::decimal(index) + ".tmp"@,
        numbered_name(file_name, "displaced-"@, transaction_id, index) == "."@ + file_name
            + ".provider-sync-displaced-"@ + transaction_id + "-"@ + text::decimal(index)
            + ".tmp"@,
        numbered_name(file_name, "rejected-"@, transaction_id, index) == "."@ + file_name
            + ".provider-sync-rejected-"@ + transaction_id + "-"@ + text::decimal(index) + ".tmp"@,
        restore_name(file_name, transaction_id) == "."@ + file_name + ".provider-sync-restore-"@
            + transaction_id + ".tmp"@,
        downstream_name(file_name, transaction_id) == "."@ + file_name
            + ".provider-sync-downstream-"@ + transaction_id + ".tmp"@,
{
    reveal_strlit("");
    reveal_strlit(".provider-sync-");
    reveal_strlit("displaced-");
    reveal_strlit("rejected-");
    reveal_strlit(".provider-sync-displaced-");
    reveal_strlit(".provider-sync-rejected-");
    let n = text::decimal(index);
    assert(".provider-sync-"@ + ""@ =~= ".provider-sync-"@);
    assert(".provider-sync-"@ + "displaced-"@ =~= ".provider-sync-displaced-"@);
    assert(".provider-sync-"@ + "rejected-"@ =~= ".provider-sync-rejected-"@);
    assert(numbered_name(file_name, ""@, transaction_id, index) =~= "."@ + file_name
        + ".provider-sync-"@ + transaction_id + "-"@ + n + ".tmp"@);
    assert(numbered_name(file_name, "displaced-"@, transaction_id, index) =~= "."@ + file_name
        + ".provider-sync-displaced-"@ + transaction_id + "-"@ + n + ".tmp"@);
    assert(numbered_name(file_name, "rejected-"@, transaction_id, index) =~= "."@ + file_name
        + ".provider-sync-rejected-"@ + transaction_id + "-"@ + n + ".tmp"@);
    assert(restore_name(file_name, transaction_id) =~= "."@ + file_name
        + ".provider-sync-restore-"@ + transaction_id + ".tmp"@);
}

/// A name belongs to a transaction only where it is hidden and temporary and ends, before
/// the extension, in a mark of the transaction: one with a number behind it, or the mark of
/// a restoration.
pub proof fn lemma_names_that_belong(name: Seq<char>, transaction_id: Seq<char>)
    requires
        belongs(name, transaction_id),
        is_transaction_id(transaction_id),
    ensures
        exists|front: Seq<char>, tail: Seq<char>|
            name == #[trigger] ("."@ + (front + tail) + ".tmp"@) && is_own_tail(
                tail,
                transaction_id,
            ),
{
    reveal_strlit(".");
    reveal_strlit(".tmp");
    let n = lemma_belongs_tail(name, transaction_id);
    let body = temp_body(name)->0;
    let front = body.take(n);
    let tail = body.skip(n);
    assert(body =~= front + tail);
    assert(name.take(1) == "."@);
    let behind = name.skip(1);
    assert(behind.skip(behind.len() - 4) == ".tmp"@);
    assert(behind =~= body + behind.skip(behind.len() - 4));
    assert(name =~= name.take(1) + behind);
    assert(name =~= "."@ + (front + tail) + ".tmp"@);
    reveal_strlit("");
    reveal_strlit(".provider-sync-");
    reveal_strlit("displaced-");
    reveal_strlit("rejected-");
    reveal_strlit(".provider-sync-displaced-");
    reveal_strlit(".provider-sync-rejected-");
    assert(".provider-sync-"@ + ""@ =~= ".provider-sync-"@);
    assert(".provider-sync-"@ + "displaced-"@ =~= ".provider-sync-displaced-"@);
    assert(".provider-sync-"@ + "rejected-"@ =~= ".provider-sync-rejected-"@);
    if tail == restore_marker(transaction_id) {
        assert(is_own_tail(tail, transaction_id));
    } else if exists|number: Seq<char>| #[trigger]
        all_digits(number) && number.len() > 0 && tail == temp_marker(""@, transaction_id)
            + number {
        let number = choose|number: Seq<char>| #[trigger]
            all_digits(number) && number.len() > 0 && tail == temp_marker(""@, transaction_id)
                + number;
        assert(is_number(number));
        assert(tail == ".provider-sync-"@ + transaction_id + "-"@ + number);
    } else if exists|number: Seq<char>| #[trigger]
        all_digits(number) && number.len() > 0 && tail == temp_marker("displaced-"@, transaction_id)
            + number {
        let number = choose|number: Seq<char>| #[trigger]
            all_digits(number) && number.len() > 0 && tail == temp_marker(
                "displaced-"@,
                transaction_id,
            ) + number;
        assert(is_number(number));
        assert(tail == ".provider-sync-displaced-"@ + transaction_id + "-"@ + number);
    } else {
        let number = choose|number: Seq<char>| #[trigger]
            all_digits(number) && number.len() > 0 && tail == temp_marker(
                "rejected-"@,
                transaction_id,
            ) + number;
        assert(is_number(number));
        assert(tail == ".provider-sync-rejected-"@ + transaction_id + "-"@ + number);
    }
}

/// Whether a text is one or more decimal digits.
pub open spec fn is_number(s: Seq<char>) -> bool {
    s.len() > 0 && forall|i: int| 0 <= i < s.len() ==> '0' <= #[trigger] s[i] <= '9'
}

/// Whether a text is the end of a name that a transaction gives to a file of its own.
pub open spec fn is_own_tail(tail: Seq<char>, transaction_id: Seq<char>) -> bool {
    ||| tail == ".provider-sync-restore-"@ + transaction_id
    ||| exists|number: Seq<char>| #[trigger]
        is_number(number) && (tail == ".provider-sync-"@ + transaction_id + "-"@ + number || tail
            == ".provider-sync-displaced-"@ + transaction_id + "-"@ + number || tail
            == ".provider-sync-rejected-"@ + transaction_id + "-"@ + number)
}

} // verus!
