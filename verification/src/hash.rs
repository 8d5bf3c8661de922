//! Content hashing.
//!
//! Two modes share the contract `content -> digest`, digests being compared
//! for equality only. The strict digest covers the whole content; the fuzzy
//! digest covers an exponentially thinning sample plus a tail block, so the
//! number of bytes it reads grows only logarithmically with the file size.

use vstd::arithmetic::power2::{lemma2_to64, lemma_pow2_pos, lemma_pow2_unfold, pow2};
use vstd::prelude::*;

verus! {

/// The sampling granularity of the fuzzy digest, in bytes. The exponential
/// stride below is sensitive to this exact value: changing it changes every
/// fuzzy digest.
pub const CHUNK_SIZE: u64 = 4096;

/// The checksum of a byte sequence, as the CRC-32/ISO-HDLC algorithm of the
/// `crc` crate defines it. It depends on the bytes alone.
pub uninterp spec fn crc32_of(bytes: Seq<u8>) -> u32;

/// Relies on `crc::Crc::<u32>::new(&CRC_32_ISO_HDLC)` and its `checksum`
/// method: the checksum is a function of the input bytes alone, and for the
/// ISO-HDLC parameters (init and xorout both all-ones, reflected in and out)
/// the checksum of an empty input is zero.
#[verifier::external_body]
fn crc32(bytes: &[u8]) -> (r: u32)
    ensures
        r == crc32_of(bytes@),
        bytes@.len() == 0 ==> r == 0,
{
    crc::Crc::<u32>::new(&crc::CRC_32_ISO_HDLC).checksum(bytes)
}

/// The 64-bit checksum of a byte sequence, as the CRC-64/XZ algorithm of
/// the `crc` crate defines it. It depends on the bytes alone.
pub uninterp spec fn crc64_of(bytes: Seq<u8>) -> u64;

/// Relies on `crc::Crc::<u64>::new(&CRC_64_XZ)` and its `checksum` method:
/// the checksum is a function of the input bytes alone, and for the XZ
/// parameters (init and xorout both all-ones, reflected in and out) the
/// checksum of an empty input is zero.
#[verifier::external_body]
fn crc64(bytes: &[u8]) -> (r: u64)
    ensures
        r == crc64_of(bytes@),
        bytes@.len() == 0 ==> r == 0,
{
    crc::Crc::<u64>::new(&crc::CRC_64_XZ).checksum(bytes)
}

/// The digest of a whole content: every byte is covered.
pub fn strict_hash(content: &Vec<u8>) -> (r: u32)
    ensures
        r == crc32_of(content@),
        content@.len() == 0 ==> r == 0,
{
    crc32(content.as_slice())
}

/// The offsets sampled by the fuzzy digest of a content of length `size`,
/// starting from offset `o`: while a whole chunk starting at the offset fits
/// strictly inside the content, the chunk is sampled and the offset moves to
/// twice the end of that chunk.
pub open spec fn fuzzy_offsets_from(o: nat, size: nat) -> Seq<nat>
    decreases (if o < size {
        size - o
    } else {
        0
    }),
{
    let c = CHUNK_SIZE as nat;
    if o + c < size {
        seq![o] + fuzzy_offsets_from(2 * (o + c), size)
    } else {
        Seq::empty()
    }
}

/// The length of the tail block: the last `CHUNK_SIZE` bytes, or the whole
/// content when it is shorter.
pub open spec fn fuzzy_tail_len(size: nat) -> nat {
    let c = CHUNK_SIZE as nat;
    if size < c {
        size
    } else {
        c
    }
}

/// The bytes of the exponentially thinning sample taken from offset `o` on.
pub open spec fn fuzzy_sample_from(content: Seq<u8>, o: nat) -> Seq<u8>
    decreases (if o < content.len() {
        content.len() - o
    } else {
        0
    }),
{
    let c = CHUNK_SIZE as nat;
    if o + c < content.len() {
        content.subrange(o as int, (o + c) as int) + fuzzy_sample_from(content, 2 * (o + c))
    } else {
        Seq::empty()
    }
}

/// Everything the fuzzy digest covers: the thinning sample, then the tail
/// block. For an empty content this is empty.
pub open spec fn fuzzy_sample(content: Seq<u8>) -> Seq<u8> {
    let size = content.len();
    fuzzy_sample_from(content, 0) + content.subrange(
        (size - fuzzy_tail_len(size)) as int,
        size as int,
    )
}

/// The fuzzy digest of a whole content held in memory.
///
/// For an empty content the sample is empty and the digest is zero, as the
/// mode's definition asks.
pub fn fuzzy_hash(content: &Vec<u8>) -> (r: u64)
    ensures
        r == crc64_of(fuzzy_sample(content@)),
        content@.len() == 0 ==> r == 0,
{
    let len: usize = content.len();
    let chunk: usize = CHUNK_SIZE as usize;
    let mut sample: Vec<u8> = Vec::new();
    let mut offset: usize = 0;
    loop
        invariant
            len == content@.len(),
            chunk == CHUNK_SIZE,
            sample@ + fuzzy_sample_from(content@, offset as nat) == fuzzy_sample_from(
                content@,
                0,
            ),
        ensures
            sample@ == fuzzy_sample_from(content@, 0),
        decreases (if offset < len {
            len - offset
        } else {
            0
        }),
    {
        if !(offset < len && len - offset > chunk) {
            assert(fuzzy_sample_from(content@, offset as nat) == Seq::<u8>::empty());
            assert(sample@ + Seq::<u8>::empty() =~= sample@);
            break ;
        }
        assert((offset as nat) + (CHUNK_SIZE as nat) < content@.len());
        let ghost base = sample@;
        let ghost piece = content@.subrange(offset as int, offset as int + chunk as int);
        let ghost rest = fuzzy_sample_from(content@, 2 * ((offset as nat) + (CHUNK_SIZE as nat)));
        assert(fuzzy_sample_from(content@, offset as nat) == piece + rest);
        let mut j: usize = 0;
        while j < chunk
            invariant
                len == content@.len(),
                chunk == CHUNK_SIZE,
                offset + chunk < len,
                j <= chunk,
                piece == content@.subrange(offset as int, offset as int + chunk as int),
                sample@ == base + content@.subrange(offset as int, offset as int + j as int),
            decreases chunk - j,
        {
            sample.push(content[offset + j]);
            assert(content@.subrange(offset as int, offset as int + j as int + 1)
                == content@.subrange(offset as int, offset as int + j as int).push(
                content@[offset as int + j as int],
            ));
            j = j + 1;
        }
        assert(sample@ == base + piece);
        assert((base + piece) + rest =~= base + (piece + rest));
        let next: usize = offset + chunk;
        if next > usize::MAX / 2 {
            assert(2 * (next as nat) >= content@.len());
            assert(rest =~= Seq::<u8>::empty());
            assert(sample@ + Seq::<u8>::empty() =~= sample@);
            assert(sample@ == fuzzy_sample_from(content@, 0));
            offset = len;
            assert(fuzzy_sample_from(content@, offset as nat) == Seq::<u8>::empty());
            break ;
        }
        offset = 2 * next;
    }
    assert(sample@ == fuzzy_sample_from(content@, 0));
    // The tail block: the last CHUNK_SIZE bytes, or all of a shorter content.
    let tail: usize = if len < chunk {
        len
    } else {
        chunk
    };
    assert(tail as nat == fuzzy_tail_len(content@.len()));
    let mut k: usize = len - tail;
    while k < len
        invariant
            len == content@.len(),
            len - tail <= k <= len,
            tail <= len,
            sample@ == fuzzy_sample_from(content@, 0) + content@.subrange(
                (len - tail) as int,
                k as int,
            ),
        decreases len - k,
    {
        sample.push(content[k]);
        assert(content@.subrange((len - tail) as int, k as int + 1) == content@.subrange(
            (len - tail) as int,
            k as int,
        ).push(content@[k as int]));
        k = k + 1;
    }
    assert(sample@ == fuzzy_sample(content@));
    assert(content@.len() == 0 ==> sample@.len() == 0);
    crc64(sample.as_slice())
}

/// The offsets the fuzzy digest samples for a content of length `size`, for
/// callers that read the chunks from a file instead of holding the content in
/// memory. Each offset is the start of a chunk of exactly `CHUNK_SIZE` bytes
/// lying strictly inside the content; the tail block is not listed.
pub fn fuzzy_offsets(size: u64) -> (r: Vec<u64>)
    ensures
        r@.map_values(|x: u64| x as nat) == fuzzy_offsets_from(0, size as nat),
        forall|i: int| 0 <= i < r@.len() ==> r@[i] + CHUNK_SIZE < size,
{
    let mut r: Vec<u64> = Vec::new();
    let mut offset: u64 = 0;
    loop
        invariant
            fuzzy_offsets_from(0, size as nat) == r@.map_values(|x: u64| x as nat)
                + fuzzy_offsets_from(offset as nat, size as nat),
            forall|i: int| 0 <= i < r@.len() ==> r@[i] + CHUNK_SIZE < size,
        ensures
            fuzzy_offsets_from(0, size as nat) == r@.map_values(|x: u64| x as nat),
            forall|i: int| 0 <= i < r@.len() ==> r@[i] + CHUNK_SIZE < size,
        decreases (if offset < size {
            size - offset
        } else {
            0
        }),
    {
        if !(offset < size && size - offset > CHUNK_SIZE) {
            assert(fuzzy_offsets_from(offset as nat, size as nat) == Seq::<nat>::empty());
            assert(r@.map_values(|x: u64| x as nat) + Seq::<nat>::empty() =~= r@.map_values(
                |x: u64| x as nat,
            ));
            break ;
        }
        assert((offset as nat) + (CHUNK_SIZE as nat) < size as nat);
        let ghost old_map = r@.map_values(|x: u64| x as nat);
        let ghost rest = fuzzy_offsets_from(
            2 * ((offset as nat) + (CHUNK_SIZE as nat)),
            size as nat,
        );
        assert(fuzzy_offsets_from(offset as nat, size as nat) == seq![offset as nat] + rest);
        r.push(offset);
        assert(r@.map_values(|x: u64| x as nat) =~= old_map.push(offset as nat));
        assert(old_map.push(offset as nat) + rest =~= old_map + (seq![offset as nat] + rest));
        let next: u64 = offset + CHUNK_SIZE;
        if next > u64::MAX / 2 {
            assert(2 * (next as nat) >= size as nat);
            assert(rest =~= Seq::<nat>::empty());
            assert(r@.map_values(|x: u64| x as nat) + Seq::<nat>::empty() =~= r@.map_values(
                |x: u64| x as nat,
            ));
            offset = size;
            assert(fuzzy_offsets_from(offset as nat, size as nat) == Seq::<nat>::empty());
            break ;
        }
        offset = 2 * next;
    }
    assert(fuzzy_offsets_from(0, size as nat) =~= r@.map_values(|x: u64| x as nat));
    r
}

/// The concatenation of a list of byte chunks, in order.
pub open spec fn concat_chunks(chunks: Seq<Vec<u8>>) -> Seq<u8>
    decreases chunks.len(),
{
    if chunks.len() == 0 {
        Seq::empty()
    } else {
        concat_chunks(chunks.drop_last()) + chunks.last()@
    }
}

/// The strict digest of the concatenation of a list of chunks, for callers
/// that read a whole content from a file piecewise.
pub fn hash_chunks(chunks: &Vec<Vec<u8>>) -> (r: u32)
    ensures
        r == crc32_of(concat_chunks(chunks@)),
{
    let flat = concat_all(chunks);
    crc32(flat.as_slice())
}

/// The fuzzy digest of the concatenation of a list of chunks, for callers
/// that gathered the planned sample chunks and the tail block from a file.
pub fn fuzzy_hash_chunks(chunks: &Vec<Vec<u8>>) -> (r: u64)
    ensures
        r == crc64_of(concat_chunks(chunks@)),
{
    let flat = concat_all(chunks);
    crc64(flat.as_slice())
}

/// Concatenates a list of byte chunks.
fn concat_all(chunks: &Vec<Vec<u8>>) -> (r: Vec<u8>)
    ensures
        r@ == concat_chunks(chunks@),
{
    let mut flat: Vec<u8> = Vec::new();
    let mut i: usize = 0;
    while i < chunks.len()
        invariant
            i <= chunks@.len(),
            flat@ == concat_chunks(chunks@.take(i as int)),
        decreases chunks@.len() - i,
    {
        let ghost base = flat@;
        let mut j: usize = 0;
        let chunk_len: usize = chunks[i].len();
        while j < chunk_len
            invariant
                i < chunks@.len(),
                j <= chunk_len,
                chunk_len == chunks@[i as int]@.len(),
                flat@ == base + chunks@[i as int]@.take(j as int),
            decreases chunk_len - j,
        {
            flat.push(chunks[i][j]);
            assert(chunks@[i as int]@.take(j as int + 1) == chunks@[i as int]@.take(
                j as int,
            ).push(chunks@[i as int]@[j as int]));
            j = j + 1;
        }
        proof {
            assert(chunks@[i as int]@.take(chunk_len as int) =~= chunks@[i as int]@);
            assert(chunks@.take(i + 1).drop_last() =~= chunks@.take(i as int));
            assert(chunks@.take(i + 1).last() == chunks@[i as int]);
            assert(concat_chunks(chunks@.take(i + 1)) == concat_chunks(chunks@.take(i as int))
                + chunks@[i as int]@);
        }
        i = i + 1;
    }
    proof {
        assert(chunks@.take(chunks@.len() as int) =~= chunks@);
    }
    flat
}

/// The bytes of a content at a list of chunk starts, one `CHUNK_SIZE` chunk
/// each, concatenated in order.
pub open spec fn slices_at(content: Seq<u8>, offs: Seq<nat>) -> Seq<u8>
    decreases offs.len(),
{
    if offs.len() == 0 {
        Seq::empty()
    } else {
        content.subrange(offs[0] as int, offs[0] as int + CHUNK_SIZE as int) + slices_at(
            content,
            offs.skip(1),
        )
    }
}

/// Reading the planned chunks out of the content reproduces the thinning
/// sample from that offset on.
proof fn lemma_slices_at_offsets(content: Seq<u8>, o: nat)
    ensures
        slices_at(content, fuzzy_offsets_from(o, content.len())) == fuzzy_sample_from(content, o),
    decreases (if o < content.len() {
        content.len() - o
    } else {
        0
    }),
{
    let c = CHUNK_SIZE as nat;
    if o + c < content.len() {
        lemma_slices_at_offsets(content, 2 * (o + c));
        let offs = fuzzy_offsets_from(o, content.len());
        let rest = fuzzy_offsets_from(2 * (o + c), content.len());
        assert(offs[0] == o);
        assert(offs.skip(1) =~= rest);
    }
}

/// A caller that reads the planned chunks and then the tail block gathers
/// exactly the bytes the fuzzy digest covers: digesting those chunks
/// piecewise equals digesting the content in memory.
pub proof fn lemma_fuzzy_plan_covers_sample(content: Seq<u8>)
    ensures
        slices_at(content, fuzzy_offsets_from(0, content.len())) + content.subrange(
            (content.len() - fuzzy_tail_len(content.len())) as int,
            content.len() as int,
        ) == fuzzy_sample(content),
{
    lemma_slices_at_offsets(content, 0);
}

/// How many chunk starts the thinning sample has: each one lies past twice
/// the end of the one before, so with `n` sampled chunks the content is
/// longer than `(2^n - 1) * CHUNK_SIZE`.
proof fn lemma_offsets_growth(o: nat, size: nat)
    ensures
        ({
            let n = fuzzy_offsets_from(o, size).len();
            n >= 1 ==> pow2((n - 1) as nat) * o + (pow2(n) - 1) * (CHUNK_SIZE as nat) < size
        }),
    decreases (if o < size {
        size - o
    } else {
        0
    }),
{
    let c = CHUNK_SIZE as nat;
    let n = fuzzy_offsets_from(o, size).len();
    if o + c < size {
        let o2 = 2 * (o + c);
        lemma_offsets_growth(o2, size);
        let m = fuzzy_offsets_from(o2, size).len();
        assert(n == m + 1);
        lemma2_to64();
        if m == 0 {
            assert(pow2(0) * o + (pow2(1) - 1) * c < size) by (nonlinear_arith)
                requires
                    pow2(0) == 1,
                    pow2(1) == 2,
                    o + c < size,
            ;
        } else {
            assert(pow2((m - 1) as nat) * o2 + (pow2(m) - 1) * c < size);
            lemma_pow2_unfold(m);
            lemma_pow2_unfold((m + 1) as nat);
            lemma_pow2_pos((m - 1) as nat);
            assert(pow2(m) * o + (pow2((m + 1) as nat) - 1) * c < size) by (nonlinear_arith)
                requires
                    pow2((m - 1) as nat) * (2 * (o + c)) + (pow2(m) - 1) * c < size,
                    pow2(m) == 2 * pow2((m - 1) as nat),
                    pow2((m + 1) as nat) == 2 * pow2(m),
                    pow2((m - 1) as nat) >= 1,
            ;
        }
    }
}

/// The thinning sample is exactly one chunk per sampled offset.
proof fn lemma_sample_from_len(content: Seq<u8>, o: nat)
    ensures
        fuzzy_sample_from(content, o).len() == fuzzy_offsets_from(o, content.len()).len() * (
        CHUNK_SIZE as nat),
    decreases (if o < content.len() {
        content.len() - o
    } else {
        0
    }),
{
    let c = CHUNK_SIZE as nat;
    if o + c < content.len() {
        lemma_sample_from_len(content, 2 * (o + c));
        let m = fuzzy_offsets_from(2 * (o + c), content.len()).len();
        assert((m + 1) * c == m * c + c) by (nonlinear_arith);
    }
}

/// The size bound of the fuzzy digest: with `n` sampled chunks the content is
/// longer than `(2^n - 1) * CHUNK_SIZE` bytes, so `n` grows only as the
/// logarithm of the content's length, and the digest covers exactly
/// `n * CHUNK_SIZE` bytes plus one tail block of at most `CHUNK_SIZE` bytes.
pub proof fn lemma_fuzzy_sample_bound(content: Seq<u8>)
    ensures
        ({
            let n = fuzzy_offsets_from(0, content.len()).len();
            &&& fuzzy_sample(content).len() == n * (CHUNK_SIZE as nat) + fuzzy_tail_len(
                content.len(),
            )
            &&& fuzzy_tail_len(content.len()) <= CHUNK_SIZE
            &&& n >= 1 ==> (pow2(n) - 1) * (CHUNK_SIZE as nat) < content.len()
        }),
{
    let n = fuzzy_offsets_from(0, content.len()).len();
    lemma_sample_from_len(content, 0);
    lemma_offsets_growth(0, content.len());
    if n >= 1 {
        assert(pow2((n - 1) as nat) * 0 == 0) by (nonlinear_arith);
    }
}

} // verus!
