//! Content signatures: a CRC-32 over the whole content (strict) or over a
//! geometrically sparse sample of it (fuzzy).

use vstd::prelude::*;
use vstd::arithmetic::power2::{lemma_pow2_pos, lemma_pow2_unfold, pow2};
use vstd::math::min;
use vstd::slice::slice_subrange;

verus! {

/// Number of bytes read and folded into a signature at a time.
pub const CHUNK_SIZE: usize = 4096;

/// The CRC-32 (IEEE polynomial) register that `crc::crc32::update` returns
/// when it starts from `value` and folds in `bytes`.
pub uninterp spec fn crc32_ieee(value: u32, bytes: Seq<u8>) -> u32;

/// Calls `crc::crc32::update` with the IEEE table.
///
/// Trusted: the result is the named register `crc32_ieee(value, bytes)`.  Two
/// facts of the byte-by-byte fold in the crate's source are stated with it:
/// folding in nothing leaves the register as it was, and folding `bytes` into
/// a register that already stands for `earlier` gives the register for
/// `earlier` followed by `bytes`.
#[verifier::external_body]
fn crc32_update(value: u32, bytes: &[u8]) -> (r: u32)
    ensures
        r == crc32_ieee(value, bytes@),
        bytes@.len() == 0 ==> r == value,
        forall|seed: u32, earlier: Seq<u8>|
            value == #[trigger] crc32_ieee(seed, earlier) ==> r == crc32_ieee(
                seed,
                earlier + bytes@,
            ),
{
    crc::crc32::update(value, &crc::crc32::IEEE_TABLE, bytes)
}

/// Signature of a file under strict comparison: the checksum of every byte.
pub open spec fn strict_signature(content: Seq<u8>) -> u32 {
    crc32_ieee(0, content)
}

/// Offset at which the last region folded into a fuzzy signature starts.
pub open spec fn spec_tail_offset(size: int, chunk: int) -> int {
    size - min(size, chunk)
}

/// The bytes that fuzzy sampling takes from offset `at` onwards: a chunk at
/// `at`, then a chunk at twice the end of that chunk, and so on, for as long
/// as a whole chunk ends strictly before the end of the content.
pub open spec fn fuzzy_head(content: Seq<u8>, at: int, chunk: int) -> Seq<u8>
    decreases
        if at < content.len() {
            content.len() - at
        } else {
            0
        },
{
    if chunk > 0 && 0 <= at && at + chunk < content.len() {
        content.subrange(at, at + chunk) + fuzzy_head(content, 2 * (at + chunk), chunk)
    } else {
        Seq::empty()
    }
}

/// How many chunks fuzzy sampling takes from offset `at` onwards, before the
/// closing read, in a file of `size` bytes.
pub open spec fn sample_count(size: int, at: int, chunk: int) -> nat
    decreases
        if at < size {
            size - at
        } else {
            0
        },
{
    if chunk > 0 && 0 <= at && at + chunk < size {
        1 + sample_count(size, 2 * (at + chunk), chunk)
    } else {
        0
    }
}

/// All bytes that enter a fuzzy signature: the sparse head samples, then the
/// last `min(len, chunk)` bytes of the content.
pub open spec fn fuzzy_sample(content: Seq<u8>, chunk: int) -> Seq<u8> {
    fuzzy_head(content, 0, chunk) + content.subrange(
        spec_tail_offset(content.len() as int, chunk),
        content.len() as int,
    )
}

/// Signature of a file under fuzzy comparison.
pub open spec fn fuzzy_signature(content: Seq<u8>) -> u32 {
    crc32_ieee(0, fuzzy_sample(content, CHUNK_SIZE as int))
}

/// A streaming CRC-32 over everything written to it so far.
pub struct ContentDigest {
    value: u32,
    fed: Ghost<Seq<u8>>,
}

impl View for ContentDigest {
    type V = Seq<u8>;

    /// The bytes written so far, in order.
    closed spec fn view(&self) -> Seq<u8> {
        self.fed@
    }
}

impl ContentDigest {
    #[verifier::type_invariant]
    spec fn register_matches(&self) -> bool {
        self.value == crc32_ieee(0, self.fed@)
    }

    /// A digest that has seen no bytes.
    pub fn new() -> (d: Self)
        ensures
            d@ == Seq::<u8>::empty(),
    {
        let nothing: Vec<u8> = Vec::new();
        let value = crc32_update(0, nothing.as_slice());
        ContentDigest { value, fed: Ghost(Seq::empty()) }
    }

    /// Folds `bytes` in after everything written before.
    pub fn write(&mut self, bytes: &[u8])
        ensures
            final(self)@ == old(self)@ + bytes@,
    {
        proof {
            use_type_invariant(&*self);
        }
        let value = crc32_update(self.value, bytes);
        let ghost fed = self.fed@ + bytes@;
        *self = ContentDigest { value, fed: Ghost(fed) };
    }

    /// The checksum of everything written so far.
    pub fn sum32(&self) -> (r: u32)
        ensures
            r == crc32_ieee(0, self@),
    {
        proof {
            use_type_invariant(self);
        }
        self.value
    }
}

/// The head samples are whole chunks, as many as `sample_count` says.
pub proof fn lemma_fuzzy_head_len(content: Seq<u8>, at: int, chunk: int)
    ensures
        fuzzy_head(content, at, chunk).len() == sample_count(content.len() as int, at, chunk)
            * chunk,
    decreases
        if at < content.len() {
            content.len() - at
        } else {
            0
        },
{
    if chunk > 0 && 0 <= at && at + chunk < content.len() {
        let rest = sample_count(content.len() as int, 2 * (at + chunk), chunk);
        lemma_fuzzy_head_len(content, 2 * (at + chunk), chunk);
        assert((1 + rest) * chunk == chunk + rest * chunk) by (nonlinear_arith);
    } else {
        assert(0 * chunk == 0) by (nonlinear_arith);
    }
}

/// Sampling that has reached its `k`-th offset, `2 * chunk * (2^k - 1)`,
/// takes `n` more chunks, where `n` is the one number with
/// `chunk * (2^(k+n) - 1) < size <= chunk * (2^(k+n+1) - 1)`, or none if
/// already `size <= chunk * (2^(k+1) - 1)`.
pub proof fn lemma_sample_count_from(size: int, chunk: int, k: nat)
    requires
        chunk > 0,
    ensures
        ({
            let n = sample_count(size, 2 * chunk * (pow2(k) - 1), chunk);
            &&& n > 0 ==> chunk * (pow2(k + n) - 1) < size
            &&& size <= chunk * (pow2(k + n + 1) - 1)
        }),
    decreases
        if 2 * chunk * (pow2(k) - 1) < size {
            size - 2 * chunk * (pow2(k) - 1)
        } else {
            0
        },
{
    let p = pow2(k) as int;
    let at = 2 * chunk * (p - 1);
    lemma_pow2_pos(k);
    lemma_pow2_unfold(k + 1);
    assert(pow2(k + 1) == 2 * p);
    assert(at >= 0) by (nonlinear_arith)
        requires
            at == 2 * chunk * (p - 1),
            chunk > 0,
            p >= 1,
    ;
    assert(chunk * (2 * p - 1) == at + chunk) by (nonlinear_arith)
        requires
            at == 2 * chunk * (p - 1),
    ;
    assert(2 * chunk * (2 * p - 1) == 2 * (at + chunk)) by (nonlinear_arith)
        requires
            at == 2 * chunk * (p - 1),
    ;
    if at + chunk < size {
        lemma_sample_count_from(size, chunk, k + 1);
        let rest = sample_count(size, 2 * (at + chunk), chunk);
        assert(k + 1 + rest == k + (1 + rest));
        assert(k + 1 + rest + 1 == k + (1 + rest) + 1);
    }
}

/// The number `n` of chunks that fuzzy sampling takes before its closing read
/// grows with the logarithm of the size: none for a file of at most one
/// chunk, and otherwise `chunk * 2^(n-1) < size`, that is, `n` is at most the
/// base-2 logarithm of `size / chunk`, rounded up.
pub proof fn lemma_fuzzy_sampling_bound(size: int, chunk: int)
    requires
        chunk > 0,
    ensures
        ({
            let n = sample_count(size, 0, chunk);
            &&& n == 0 <==> size <= chunk
            &&& n > 0 ==> chunk * pow2((n - 1) as nat) < size
            &&& n > 0 ==> chunk * (pow2(n) - 1) < size <= chunk * (pow2(n + 1) - 1)
        }),
{
    let n = sample_count(size, 0, chunk);
    lemma_sample_count_from(size, chunk, 0);
    assert(pow2(0) == 1) by {
        vstd::arithmetic::power2::lemma2_to64();
    }
    assert(2 * chunk * (pow2(0) - 1) == 0) by (nonlinear_arith)
        requires
            pow2(0) == 1,
    ;
    assert(0 + n == n);
    if n > 0 {
        let h = pow2((n - 1) as nat) as int;
        lemma_pow2_unfold(n);
        lemma_pow2_pos((n - 1) as nat);
        assert(chunk * h <= chunk * (2 * h - 1)) by (nonlinear_arith)
            requires
                chunk > 0,
                h >= 1,
        ;
    }
}

/// How two files of equal size are compared.
#[derive(Debug)]
pub enum Comparison {
    /// Compare a sparse sample of the content.
    Fuzzy,
    /// Compare all of the content.
    Strict,
}

/// The sampling plan of a fuzzy signature, driven by whoever holds the file.
///
/// While `next_offset` names an offset, the holder reads a chunk there and
/// hands it to `feed`; then it reads from `tail_offset` to the end of the
/// file and hands that to `finish`.
pub struct FuzzySampler {
    size: u64,
    offset: u64,
    digest: ContentDigest,
}

impl FuzzySampler {
    /// Size in bytes of the file being sampled.
    pub closed spec fn size(&self) -> u64 {
        self.size
    }

    /// Offset at which the next head sample would start.
    pub closed spec fn offset(&self) -> u64 {
        self.offset
    }

    /// The bytes sampled so far.
    pub closed spec fn sampled(&self) -> Seq<u8> {
        self.digest@
    }

    /// The plan for a file of `size` bytes, before any read.
    pub fn new(size: u64) -> (s: Self)
        ensures
            s.size() == size,
            s.offset() == 0,
            s.sampled() == Seq::<u8>::empty(),
    {
        FuzzySampler { size, offset: 0, digest: ContentDigest::new() }
    }

    /// The offset of the next head sample, or `None` once a whole chunk
    /// starting at the current offset would no longer end before the end of
    /// the file.
    pub fn next_offset(&self) -> (next: Option<u64>)
        ensures
            next == if self.offset() + CHUNK_SIZE < self.size() {
                Some(self.offset())
            } else {
                None
            },
    {
        if self.size > CHUNK_SIZE as u64 && self.offset < self.size - CHUNK_SIZE as u64 {
            Some(self.offset)
        } else {
            None
        }
    }

    /// Folds in the bytes read at the current offset and moves the offset to
    /// twice the end of what was read (held at `u64::MAX` where that would
    /// not fit).
    pub fn feed(&mut self, bytes: &[u8])
        ensures
            final(self).size() == old(self).size(),
            final(self).sampled() == old(self).sampled() + bytes@,
            final(self).offset() == if 2 * (old(self).offset() + bytes@.len()) <= u64::MAX {
                2 * (old(self).offset() + bytes@.len())
            } else {
                u64::MAX as int
            },
    {
        self.digest.write(bytes);
        let read: u64 = bytes.len() as u64;
        self.offset = if read <= u64::MAX - self.offset && self.offset + read <= u64::MAX / 2 {
            2 * (self.offset + read)
        } else {
            u64::MAX
        };
    }

    /// Where the closing read starts: `min(size, CHUNK_SIZE)` bytes before
    /// the end of the file.
    pub fn tail_offset(&self) -> (at: u64)
        ensures
            at == spec_tail_offset(self.size() as int, CHUNK_SIZE as int),
    {
        if self.size <= CHUNK_SIZE as u64 {
            0
        } else {
            self.size - CHUNK_SIZE as u64
        }
    }

    /// Folds in the closing read and gives the signature of all that was
    /// sampled.
    pub fn finish(self, tail: &[u8]) -> (signature: u32)
        ensures
            signature == crc32_ieee(0, self.sampled() + tail@),
    {
        let mut digest = self.digest;
        digest.write(tail);
        digest.sum32()
    }
}

/// Fuzzy signature of content held in memory.
pub fn calculate_fuzzy_hash(content: &[u8]) -> (signature: u32)
    ensures
        signature == fuzzy_signature(content@),
{
    let len: usize = content.len();
    let mut sampler = FuzzySampler::new(len as u64);
    loop
        invariant
            len == content@.len(),
            sampler.size() == len,
            sampler.sampled() + fuzzy_head(content@, sampler.offset() as int, CHUNK_SIZE as int)
                == fuzzy_head(content@, 0, CHUNK_SIZE as int),
        ensures
            sampler.offset() + CHUNK_SIZE >= len,
        decreases
            if sampler.offset() < len {
                len - sampler.offset()
            } else {
                0
            },
    {
        let at: usize = match sampler.next_offset() {
            Some(at) => at as usize,
            None => {
                break ;
            },
        };
        let chunk = slice_subrange(content, at, at + CHUNK_SIZE);
        proof {
            assert(sampler.sampled() + chunk@ + fuzzy_head(
                content@,
                2 * (at + CHUNK_SIZE),
                CHUNK_SIZE as int,
            ) =~= sampler.sampled() + fuzzy_head(content@, at as int, CHUNK_SIZE as int));
        }
        sampler.feed(chunk);
    }
    let tail = slice_subrange(content, sampler.tail_offset() as usize, len);
    assert(sampler.sampled() + tail@ =~= fuzzy_sample(content@, CHUNK_SIZE as int));
    sampler.finish(tail)
}

/// Strict signature of content held in memory, folded chunk by chunk.
pub fn calculate_hash(content: &[u8]) -> (signature: u32)
    ensures
        signature == strict_signature(content@),
{
    let len: usize = content.len();
    let mut digest = ContentDigest::new();
    let mut done: usize = 0;
    while done < len
        invariant
            len == content@.len(),
            done <= len,
            digest@ == content@.take(done as int),
        decreases len - done,
    {
        let end: usize = if len - done > CHUNK_SIZE {
            done + CHUNK_SIZE
        } else {
            len
        };
        let chunk = slice_subrange(content, done, end);
        digest.write(chunk);
        assert(content@.take(done as int) + chunk@ =~= content@.take(end as int));
        done = end;
    }
    assert(content@.take(len as int) =~= content@);
    digest.sum32()
}

impl Comparison {
    /// The signature that this way of comparing gives to `content`.
    pub open spec fn spec_signature(&self, content: Seq<u8>) -> u32 {
        match self {
            Comparison::Fuzzy => fuzzy_signature(content),
            Comparison::Strict => strict_signature(content),
        }
    }

    /// Signature of content held in memory.
    pub fn signature(&self, content: &[u8]) -> (signature: u32)
        ensures
            signature == self.spec_signature(content@),
    {
        match self {
            Comparison::Fuzzy => calculate_fuzzy_hash(content),
            Comparison::Strict => calculate_hash(content),
        }
    }
}

/// A file of at most one chunk is hashed whole: its fuzzy signature is its
/// strict signature.
pub proof fn lemma_small_file_hashed_whole(content: Seq<u8>)
    requires
        content.len() <= CHUNK_SIZE,
    ensures
        fuzzy_sample(content, CHUNK_SIZE as int) == content,
        fuzzy_signature(content) == strict_signature(content),
{
    assert(fuzzy_sample(content, CHUNK_SIZE as int) =~= content);
}

/// Whether head sampling from offset `at` onwards folds in the byte at
/// `position` of a file of `size` bytes.
pub open spec fn in_head(size: int, at: int, chunk: int, position: int) -> bool
    decreases
        if at < size {
            size - at
        } else {
            0
        },
{
    chunk > 0 && 0 <= at && at + chunk < size && (at <= position < at + chunk || in_head(
        size,
        2 * (at + chunk),
        chunk,
        position,
    ))
}

/// Whether a fuzzy signature depends on the byte at `position` of a file of
/// `size` bytes.
pub open spec fn is_sampled(size: int, chunk: int, position: int) -> bool {
    in_head(size, 0, chunk, position) || spec_tail_offset(size, chunk) <= position < size
}

proof fn lemma_heads_agree(one: Seq<u8>, other: Seq<u8>, at: int, chunk: int)
    requires
        one.len() == other.len(),
        forall|p: int|
            0 <= p < one.len() && in_head(one.len() as int, at, chunk, p) ==> one[p] == other[p],
    ensures
        fuzzy_head(one, at, chunk) == fuzzy_head(other, at, chunk),
    decreases
        if at < one.len() {
            one.len() - at
        } else {
            0
        },
{
    if chunk > 0 && 0 <= at && at + chunk < one.len() {
        let next = 2 * (at + chunk);
        assert forall|p: int|
            0 <= p < one.len() && in_head(one.len() as int, next, chunk, p) implies one[p]
            == other[p] by {
            assert(in_head(one.len() as int, at, chunk, p));
        }
        lemma_heads_agree(one, other, next, chunk);
        assert forall|p: int| at <= p < at + chunk implies one[p] == other[p] by {
            assert(in_head(one.len() as int, at, chunk, p));
        }
        assert(one.subrange(at, at + chunk) =~= other.subrange(at, at + chunk));
    }
}

/// A fuzzy signature depends on the sampled bytes alone: two files of one
/// size that agree wherever sampling reads have the same signature, however
/// they differ elsewhere.
pub proof fn lemma_fuzzy_reads_samples_only(one: Seq<u8>, other: Seq<u8>)
    requires
        one.len() == other.len(),
        forall|p: int|
            0 <= p < one.len() && is_sampled(one.len() as int, CHUNK_SIZE as int, p) ==> one[p]
                == other[p],
    ensures
        fuzzy_signature(one) == fuzzy_signature(other),
{
    let chunk = CHUNK_SIZE as int;
    let len = one.len() as int;
    lemma_heads_agree(one, other, 0, chunk);
    assert(one.subrange(spec_tail_offset(len, chunk), len) =~= other.subrange(
        spec_tail_offset(len, chunk),
        len,
    ));
}

/// Files with the same bytes have the same signature, whatever their size
/// and whichever way they are compared.
pub proof fn lemma_equal_bytes_equal_signature(comparison: Comparison, one: Seq<u8>, other: Seq<u8>)
    requires
        one.len() == other.len(),
        forall|i: int| 0 <= i < one.len() ==> one[i] == other[i],
    ensures
        comparison.spec_signature(one) == comparison.spec_signature(other),
{
    assert(one =~= other);
}

} // verus!
