//! SHA-256 digests and their hexadecimal form.

use crate::text;
use sha2::Digest;
use vstd::prelude::*;

verus! {

/// A SHA-256 computation in progress (`sha2::Sha256`), which collects the bytes
/// that are fed to it.
#[verifier::external_body]
pub struct RunningDigest {
    inner: sha2::Sha256,
}

/// The bytes that were fed to a running digest.
pub uninterp spec fn fed_bytes(d: RunningDigest) -> Seq<u8>;

/// The SHA-256 digest of some bytes.
pub uninterp spec fn sha256(bytes: Seq<u8>) -> Seq<u8>;

/// `sha2::Sha256::new`: nothing has been fed yet.
#[verifier::external_body]
fn start_digest() -> (d: RunningDigest)
    ensures
        fed_bytes(d) == Seq::<u8>::empty(),
{
    RunningDigest { inner: sha2::Sha256::new() }
}

/// `sha2::Sha256::update`: feeds more bytes, behind those fed before.
#[verifier::external_body]
fn feed_digest(d: &mut RunningDigest, bytes: &[u8])
    ensures
        fed_bytes(*final(d)) == fed_bytes(*old(d)) + bytes@,
{
    d.inner.update(bytes);
}

/// `sha2::Sha256::finalize`: the digest of the bytes that were fed. It is
/// thirty-two bytes long and depends on those bytes alone.
#[verifier::external_body]
fn finish_digest(d: RunningDigest) -> (r: Vec<u8>)
    ensures
        r@ == sha256(fed_bytes(d)),
        r@.len() == 32,
{
    d.inner.finalize().to_vec()
}

// ---------------------------------------------------------------------------
// Hexadecimal form
// ---------------------------------------------------------------------------
/// The lower-case hexadecimal digit for a number below sixteen.
pub open spec fn hex_char(n: int) -> char {
    if n < 10 {
        (48 + n) as char
    } else {
        (87 + n) as char
    }
}

/// The lower-case hexadecimal form of some bytes, two digits for each.
pub open spec fn hex(bytes: Seq<u8>) -> Seq<char> {
    Seq::new(
        2 * bytes.len(),
        |i: int|
            if i % 2 == 0 {
                hex_char(bytes[i / 2] as int / 16)
            } else {
                hex_char(bytes[i / 2] as int % 16)
            },
    )
}

/// The SHA-256 digest of some bytes in hexadecimal form.
pub open spec fn sha256_hex(bytes: Seq<u8>) -> Seq<char> {
    hex(sha256(bytes))
}

fn hex_digit_char(n: u8) -> (r: char)
    requires
        n < 16,
    ensures
        r == hex_char(n as int),
{
    if n < 10 {
        (48 + n) as char
    } else {
        (87 + n) as char
    }
}

/// The lower-case hexadecimal form of some bytes.
pub fn hex_text(bytes: &[u8]) -> (r: String)
    ensures
        r@ == hex(bytes@),
{
    let mut out = String::new();
    let mut i: usize = 0;
    while i < bytes.len()
        invariant
            i <= bytes.len(),
            out@.len() == 2 * i,
            forall|k: int| 0 <= k < 2 * i ==> out@[k] == hex(bytes@)[k],
        decreases bytes.len() - i,
    {
        out.push(hex_digit_char(bytes[i] / 16));
        out.push(hex_digit_char(bytes[i] % 16));
        i += 1;
    }
    assert(out@ =~= hex(bytes@));
    out
}

/// Whether `s` has the form of a SHA-256 digest: sixty-four hexadecimal digits.
pub open spec fn is_sha256_hex(s: Seq<char>) -> bool {
    s.len() == 64 && forall|i: int| 0 <= i < s.len() ==> text::is_hex_digit(#[trigger] s[i])
}

/// What the hexadecimal form of thirty-two bytes looks like.
pub proof fn lemma_hex_form(bytes: Seq<u8>)
    requires
        bytes.len() == 32,
    ensures
        is_sha256_hex(hex(bytes)),
        text::lower(hex(bytes)) == hex(bytes),
{
    assert(text::lower(hex(bytes)) =~= hex(bytes));
}

// ---------------------------------------------------------------------------
// Digests of content
// ---------------------------------------------------------------------------
/// The size of some content as a `u64`, which is as far as sizes are counted.
pub open spec fn capped_size(content: Seq<u8>) -> u64 {
    if content.len() <= u64::MAX {
        content.len() as u64
    } else {
        u64::MAX
    }
}

/// The digest and the size of content that comes in pieces.
pub struct ContentDigest {
    running: RunningDigest,
    size: u64,
}

impl View for ContentDigest {
    type V = Seq<u8>;

    /// The content so far.
    closed spec fn view(&self) -> Seq<u8> {
        fed_bytes(self.running)
    }
}

impl ContentDigest {
    pub closed spec fn wf(self) -> bool {
        self.size == capped_size(fed_bytes(self.running))
    }

    pub fn new() -> (d: ContentDigest)
        ensures
            d.wf(),
            d@ == Seq::<u8>::empty(),
    {
        ContentDigest { running: start_digest(), size: 0 }
    }

    /// Adds a piece of content.
    pub fn feed(&mut self, bytes: &[u8])
        requires
            old(self).wf(),
        ensures
            final(self).wf(),
            final(self)@ == old(self)@ + bytes@,
    {
        let more: usize = bytes.len();
        feed_digest(&mut self.running, bytes);
        self.size = self.size.saturating_add(more as u64);
    }

    pub fn size(&self) -> (r: u64)
        requires
            self.wf(),
        ensures
            r == capped_size(self@),
    {
        self.size
    }

    /// The digest of the content in hexadecimal form, and its size.
    pub fn finish(self) -> (r: (String, u64))
        requires
            self.wf(),
        ensures
            r.0@ == sha256_hex(self@),
            r.1 == capped_size(self@),
            is_sha256_hex(r.0@),
    {
        let size: u64 = self.size;
        let bytes = finish_digest(self.running);
        proof {
            lemma_hex_form(bytes@);
        }
        (hex_text(bytes.as_slice()), size)
    }
}

/// The digest of some bytes in hexadecimal form.
pub fn sha256_hex_text(bytes: &[u8]) -> (r: String)
    ensures
        r@ == sha256_hex(bytes@),
        is_sha256_hex(r@),
{
    let mut d = ContentDigest::new();
    d.feed(bytes);
    proof {
        assert(d@ =~= bytes@);
    }
    d.finish().0
}

/// The value of a lower-case hexadecimal digit.
pub open spec fn digit_value(c: char) -> int {
    if '0' <= c <= '9' {
        c as u32 - '0' as u32
    } else {
        c as u32 - 'a' as u32 + 10
    }
}

/// Two digits stand for each byte, the higher one first, so that the bytes can be read
/// back.
pub proof fn lemma_hex_tells_the_bytes(bytes: Seq<u8>, i: int)
    requires
        0 <= i < bytes.len(),
    ensures
        hex(bytes).len() == 2 * bytes.len(),
        digit_value(hex(bytes)[2 * i]) * 16 + digit_value(hex(bytes)[2 * i + 1]) == bytes[i],
        ('0' <= hex(bytes)[2 * i] <= '9') || ('a' <= hex(bytes)[2 * i] <= 'f'),
        ('0' <= hex(bytes)[2 * i + 1] <= '9') || ('a' <= hex(bytes)[2 * i + 1] <= 'f'),
{
    assert((2 * i) / 2 == i && (2 * i) % 2 == 0);
    assert((2 * i + 1) / 2 == i && (2 * i + 1) % 2 == 1);
}

/// The size of a content is its length, as far as a `u64` counts.
pub proof fn lemma_size_of_a_content(content: Seq<u8>)
    ensures
        content.len() <= u64::MAX ==> capped_size(content) == content.len(),
        content.len() > u64::MAX ==> capped_size(content) == u64::MAX,
{
}

} // verus!
