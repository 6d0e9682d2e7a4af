//! Content hashes of files.
//!
//! Two hashes are kept per file: the *fast* hash, of at most the first and the
//! last 64 KiB, which finds candidates quickly, and the *full* hash of the
//! whole content, which decides. Both are BLAKE3 hashes written as 64
//! lower-case hexadecimal digits. An MD5 hash is offered too, for comparison
//! with other tools. Reading the file is left to the caller: this module
//! decides what to read and hashes what it is given.
use vstd::prelude::*;
use crate::text::{hex_lower, hex_string};

verus! {

// ---------------------------------------------------------------------------
// BLAKE3
// ---------------------------------------------------------------------------

/// `blake3::Hasher`, carried through as an opaque value.
#[verifier::external_type_specification]
#[verifier::external_body]
pub struct ExBlake3Hasher(blake3::Hasher);

/// The bytes that a BLAKE3 hasher has been fed, in order.
pub uninterp spec fn blake3_input(h: blake3::Hasher) -> Seq<u8>;

/// The 32-byte BLAKE3 hash of `input`.
pub uninterp spec fn blake3_digest(input: Seq<u8>) -> Seq<u8>;

/// `blake3::Hasher::new`: a hasher that has been fed nothing.
#[verifier::external_body]
fn blake3_new() -> (h: blake3::Hasher)
    ensures
        blake3_input(h) == Seq::<u8>::empty(),
{
    blake3::Hasher::new()
}

/// `blake3::Hasher::update`: feeds `data` after what the hasher has had. The
/// crate documents a run of updates as equivalent to hashing the
/// concatenation of their inputs.
#[verifier::external_body]
fn blake3_update(h: &mut blake3::Hasher, data: &[u8])
    ensures
        blake3_input(*final(h)) == blake3_input(*old(h)) + data@,
{
    h.update(data);
}

/// `blake3::Hasher::finalize` with `Hash::as_bytes`: the hash of everything
/// fed so far, as its 32 bytes. The hasher is left as it was.
#[verifier::external_body]
fn blake3_finalize(h: &blake3::Hasher) -> (r: [u8; 32])
    ensures
        r@ == blake3_digest(blake3_input(*h)),
{
    *h.finalize().as_bytes()
}

/// The text form of the BLAKE3 hash of `content`.
pub open spec fn blake3_hex(content: Seq<u8>) -> Seq<char> {
    hex_lower(blake3_digest(content))
}

/// A BLAKE3 hash computed over content that arrives in pieces.
pub struct ContentHasher {
    hasher: blake3::Hasher,
}

impl View for ContentHasher {
    type V = Seq<u8>;

    /// The content fed so far.
    closed spec fn view(&self) -> Seq<u8> {
        blake3_input(self.hasher)
    }
}

impl ContentHasher {
    /// A hasher that has seen no content.
    pub fn new() -> (r: Self)
        ensures
            r@ == Seq::<u8>::empty(),
    {
        ContentHasher { hasher: blake3_new() }
    }

    /// Feeds the next piece of content.
    pub fn update(&mut self, data: &[u8])
        ensures
            final(self)@ == old(self)@ + data@,
    {
        blake3_update(&mut self.hasher, data);
    }

    /// The hash of the content fed so far, as 64 lower-case hexadecimal digits.
    pub fn finish_hex(&self) -> (r: String)
        ensures
            r@ == blake3_hex(self@),
            r@.len() == 64,
    {
        let digest = blake3_finalize(&self.hasher);
        hex_string(&digest)
    }
}

/// Number of bytes that the fast hash reads at each end of a file.
pub const FAST_HASH_CHUNK_SIZE: u64 = 65536;

/// Which bytes of a file the fast hash reads: the first `head_len` bytes and,
/// for a file longer than two chunks, the last chunk from `tail_start` on.
pub struct FastHashPlan {
    pub head_len: u64,
    pub tail_start: Option<u64>,
}

/// The part of `content` that the fast hash covers: its first chunk (or all of
/// it, when shorter) and, when it is longer than two chunks, its last chunk.
pub open spec fn fast_sample(content: Seq<u8>) -> Seq<u8> {
    let n = content.len();
    let head = if n < FAST_HASH_CHUNK_SIZE {
        content
    } else {
        content.take(FAST_HASH_CHUNK_SIZE as int)
    };
    if n > 2 * FAST_HASH_CHUNK_SIZE {
        head + content.skip(n - FAST_HASH_CHUNK_SIZE)
    } else {
        head
    }
}

/// The plan for a file of `file_size` bytes: its first chunk (or all of it,
/// when shorter) and, when it is longer than two chunks, its last chunk.
pub open spec fn plan_for(file_size: u64) -> FastHashPlan {
    FastHashPlan {
        head_len: if file_size < FAST_HASH_CHUNK_SIZE {
            file_size
        } else {
            FAST_HASH_CHUNK_SIZE
        },
        tail_start: if file_size > 2 * FAST_HASH_CHUNK_SIZE {
            Some((file_size - FAST_HASH_CHUNK_SIZE) as u64)
        } else {
            None
        },
    }
}

/// The bytes of `content` that `plan` names: its head, then its tail if any.
pub open spec fn read_per_plan(content: Seq<u8>, plan: FastHashPlan) -> Seq<u8> {
    content.take(plan.head_len as int) + match plan.tail_start {
        Some(start) => content.skip(start as int),
        None => Seq::<u8>::empty(),
    }
}

/// The bytes to read from a file of `file_size` bytes for its fast hash.
pub fn fast_hash_plan(file_size: u64) -> (r: FastHashPlan)
    ensures
        r == plan_for(file_size),
{
    let head_len = if file_size < FAST_HASH_CHUNK_SIZE {
        file_size
    } else {
        FAST_HASH_CHUNK_SIZE
    };
    let tail_start = if file_size > FAST_HASH_CHUNK_SIZE * 2 {
        Some(file_size - FAST_HASH_CHUNK_SIZE)
    } else {
        None
    };
    FastHashPlan { head_len, tail_start }
}

/// Reading a file as its plan says gives exactly the part of its content that
/// the fast hash covers.
pub proof fn lemma_plan_reads_fast_sample(content: Seq<u8>)
    requires
        content.len() <= u64::MAX,
    ensures
        read_per_plan(content, plan_for(content.len() as u64)) == fast_sample(content),
{
    let n = content.len();
    if n < FAST_HASH_CHUNK_SIZE {
        assert(content.take(n as int) =~= content);
    }
    assert(read_per_plan(content, plan_for(n as u64)) =~= fast_sample(content));
}

/// The fast hash from the bytes read as the plan says: `head` is the start of
/// the file and `tail`, empty when the plan has no tail, its end.
pub fn fast_hash_hex(head: &[u8], tail: &[u8]) -> (r: String)
    ensures
        r@ == blake3_hex(head@ + tail@),
        r@.len() == 64,
{
    let mut h = ContentHasher::new();
    h.update(head);
    h.update(tail);
    assert(Seq::<u8>::empty() + head@ + tail@ =~= head@ + tail@);
    h.finish_hex()
}

/// The full hash of `content`.
pub fn full_hash_hex(content: &[u8]) -> (r: String)
    ensures
        r@ == blake3_hex(content@),
        r@.len() == 64,
{
    let mut h = ContentHasher::new();
    h.update(content);
    assert(Seq::<u8>::empty() + content@ =~= content@);
    h.finish_hex()
}

/// The fast hash of a file that fits in one chunk is its full hash.
pub proof fn lemma_small_file_fast_is_full(content: Seq<u8>)
    requires
        content.len() <= FAST_HASH_CHUNK_SIZE,
    ensures
        blake3_hex(fast_sample(content)) == blake3_hex(content),
{
    assert(fast_sample(content) =~= content);
}

// ---------------------------------------------------------------------------
// MD5
// ---------------------------------------------------------------------------

/// `md5::Context`, carried through as an opaque value.
#[verifier::external_type_specification]
#[verifier::external_body]
pub struct ExMd5Context(md5::Context);

/// The bytes that an MD5 context has consumed, in order.
pub uninterp spec fn md5_input(c: md5::Context) -> Seq<u8>;

/// The 16-byte MD5 digest of `input`.
pub uninterp spec fn md5_digest(input: Seq<u8>) -> Seq<u8>;

/// `md5::Context::new`: a context that has consumed nothing.
#[verifier::external_body]
fn md5_new() -> (c: md5::Context)
    ensures
        md5_input(c) == Seq::<u8>::empty(),
{
    md5::Context::new()
}

/// `md5::Context::consume`: consumes `data` after what came before.
#[verifier::external_body]
fn md5_consume(c: &mut md5::Context, data: &[u8])
    ensures
        md5_input(*final(c)) == md5_input(*old(c)) + data@,
{
    c.consume(data);
}

/// `md5::Context::compute`: the digest of everything consumed, as its 16
/// bytes.
#[verifier::external_body]
fn md5_compute(c: md5::Context) -> (r: [u8; 16])
    ensures
        r@ == md5_digest(md5_input(c)),
{
    c.compute().0
}

/// An MD5 digest computed over content that arrives in pieces.
pub struct Md5Hasher {
    context: md5::Context,
}

impl View for Md5Hasher {
    type V = Seq<u8>;

    /// The content fed so far.
    closed spec fn view(&self) -> Seq<u8> {
        md5_input(self.context)
    }
}

impl Md5Hasher {
    /// A hasher that has seen no content.
    pub fn new() -> (r: Self)
        ensures
            r@ == Seq::<u8>::empty(),
    {
        Md5Hasher { context: md5_new() }
    }

    /// Feeds the next piece of content.
    pub fn update(&mut self, data: &[u8])
        ensures
            final(self)@ == old(self)@ + data@,
    {
        md5_consume(&mut self.context, data);
    }

    /// The digest of the content fed so far, as 32 lower-case hexadecimal
    /// digits, as `format!("{:x}", digest)` writes it.
    pub fn finish_hex(self) -> (r: String)
        ensures
            r@ == hex_lower(md5_digest(self@)),
            r@.len() == 32,
    {
        let digest = md5_compute(self.context);
        hex_string(&digest)
    }
}

/// The MD5 digest of `content` in hexadecimal.
pub fn md5_hex(content: &[u8]) -> (r: String)
    ensures
        r@ == hex_lower(md5_digest(content@)),
        r@.len() == 32,
{
    let mut h = Md5Hasher::new();
    h.update(content);
    assert(Seq::<u8>::empty() + content@ =~= content@);
    h.finish_hex()
}

} // verus!
