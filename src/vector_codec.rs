//! Persisted form of an embedding: each component is a 32-bit IEEE-754
//! value, stored as its bit pattern in four little-endian bytes.

use vstd::prelude::*;

verus! {

/// The four little-endian bytes of one word.
pub open spec fn word_bytes(w: u32) -> Seq<u8> {
    seq![(w & 0xff) as u8, ((w >> 8u32) & 0xff) as u8, ((w >> 16u32) & 0xff) as u8, (w >> 24u32) as u8]
}

/// The word whose little-endian bytes are `b0, b1, b2, b3`.
pub open spec fn bytes_word(b0: u8, b1: u8, b2: u8, b3: u8) -> u32 {
    (b0 as u32) | ((b1 as u32) << 8u32) | ((b2 as u32) << 16u32) | ((b3 as u32) << 24u32)
}

/// `b` is the encoding of `v`: four bytes per word, in order.
pub open spec fn encodes(v: Seq<u32>, b: Seq<u8>) -> bool {
    &&& b.len() == 4 * v.len()
    &&& forall|i: int, j: int|
        0 <= i < v.len() && 0 <= j < 4 ==> #[trigger] b[4 * i + j] == #[trigger] word_bytes(
            v[i],
        )[j]
}

/// Why a stored blob could not be read back as a vector.
#[derive(Debug, Clone, Copy, PartialEq, Eq, Structural)]
pub enum VectorDecodeError {
    /// The blob's length is not a multiple of four bytes.
    RaggedLength,
}

proof fn lemma_word_round_trip(w: u32)
    ensures
        bytes_word(word_bytes(w)[0], word_bytes(w)[1], word_bytes(w)[2], word_bytes(w)[3]) == w,
{
    let b0 = (w & 0xff) as u8;
    let b1 = ((w >> 8u32) & 0xff) as u8;
    let b2 = ((w >> 16u32) & 0xff) as u8;
    let b3 = (w >> 24u32) as u8;
    assert(((w & 0xff) as u8) as u32 == w & 0xff) by (bit_vector);
    assert((((w >> 8u32) & 0xff) as u8) as u32 == (w >> 8u32) & 0xff) by (bit_vector);
    assert((((w >> 16u32) & 0xff) as u8) as u32 == (w >> 16u32) & 0xff) by (bit_vector);
    assert(((w >> 24u32) as u8) as u32 == w >> 24u32) by (bit_vector);
    assert((w & 0xff) | (((w >> 8u32) & 0xff) << 8u32) | (((w >> 16u32) & 0xff) << 16u32) | ((w
        >> 24u32) << 24u32) == w) by (bit_vector);
}

proof fn lemma_bytes_round_trip(b0: u8, b1: u8, b2: u8, b3: u8)
    ensures
        word_bytes(bytes_word(b0, b1, b2, b3)) == seq![b0, b1, b2, b3],
{
    let w = bytes_word(b0, b1, b2, b3);
    let x0 = b0 as u32;
    let x1 = b1 as u32;
    let x2 = b2 as u32;
    let x3 = b3 as u32;
    assert(x0 < 256 && x1 < 256 && x2 < 256 && x3 < 256);
    assert(x0 < 256 && x1 < 256 && x2 < 256 && x3 < 256 ==> {
        let w = x0 | (x1 << 8u32) | (x2 << 16u32) | (x3 << 24u32);
        &&& w & 0xff == x0
        &&& (w >> 8u32) & 0xff == x1
        &&& (w >> 16u32) & 0xff == x2
        &&& w >> 24u32 == x3
    }) by (bit_vector);
    assert(word_bytes(w) =~= seq![b0, b1, b2, b3]);
}

/// Encodes a vector of 32-bit words as little-endian bytes.
pub fn encode_vector(v: &Vec<u32>) -> (r: Vec<u8>)
    requires
        4 * v@.len() <= usize::MAX,
    ensures
        encodes(v@, r@),
{
    let mut out: Vec<u8> = Vec::new();
    let mut i: usize = 0;
    while i < v.len()
        invariant
            i <= v@.len(),
            4 * v@.len() <= usize::MAX,
            out@.len() == 4 * i,
            forall|k: int, j: int|
                0 <= k < i && 0 <= j < 4 ==> #[trigger] out@[4 * k + j] == #[trigger] word_bytes(
                    v@[k],
                )[j],
        decreases v.len() - i,
    {
        let w = v[i];
        out.push((w & 0xff) as u8);
        out.push(((w >> 8u32) & 0xff) as u8);
        out.push(((w >> 16u32) & 0xff) as u8);
        out.push((w >> 24u32) as u8);
        assert forall|k: int, j: int|
            0 <= k < i + 1 && 0 <= j < 4 implies #[trigger] out@[4 * k + j] == #[trigger] word_bytes(
            v@[k],
        )[j] by {
            if k == i {
                assert(4 * k + j >= 4 * i);
            } else {
                assert(4 * k + j < 4 * i);
            }
        }
        i = i + 1;
    }
    out
}

/// Decodes little-endian bytes into 32-bit words; a blob whose length is
/// not a multiple of four is rejected.
pub fn decode_vector(b: &Vec<u8>) -> (r: Result<Vec<u32>, VectorDecodeError>)
    ensures
        b@.len() % 4 != 0 <==> r is Err,
        r matches Ok(v) ==> encodes(v@, b@),
{
    if b.len() % 4 != 0 {
        return Err(VectorDecodeError::RaggedLength);
    }
    let total = b.len();
    let n = total / 4;
    let mut out: Vec<u32> = Vec::new();
    let mut i: usize = 0;
    while i < n
        invariant
            i <= n,
            n * 4 == b@.len(),
            total == b@.len(),
            out@.len() == i,
            forall|k: int| 0 <= k < i ==> #[trigger] out@[k] == bytes_word(
                b@[4 * k],
                b@[4 * k + 1],
                b@[4 * k + 2],
                b@[4 * k + 3],
            ),
        decreases n - i,
    {
        assert(4 * i + 3 < b@.len());
        let w = (b[4 * i] as u32) | ((b[4 * i + 1] as u32) << 8u32) | ((b[4 * i + 2] as u32)
            << 16u32) | ((b[4 * i + 3] as u32) << 24u32);
        out.push(w);
        i = i + 1;
    }
    assert forall|k: int, j: int| 0 <= k < out@.len() && 0 <= j < 4 implies #[trigger] b@[4 * k
        + j] == #[trigger] word_bytes(out@[k])[j] by {
        lemma_bytes_round_trip(b@[4 * k], b@[4 * k + 1], b@[4 * k + 2], b@[4 * k + 3]);
        assert(seq![b@[4 * k], b@[4 * k + 1], b@[4 * k + 2], b@[4 * k + 3]][j] == b@[4 * k + j]);
    }
    Ok(out)
}

/// The encoding determines the vector: decoding what `encode_vector`
/// produced gives back the same words, and a blob that decodes encodes
/// back to itself.
pub proof fn lemma_codec_round_trip(v: Seq<u32>, b: Seq<u8>)
    requires
        encodes(v, b),
    ensures
        b.len() % 4 == 0,
        forall|i: int|
            0 <= i < v.len() ==> #[trigger] v[i] == bytes_word(
                b[4 * i],
                b[4 * i + 1],
                b[4 * i + 2],
                b[4 * i + 3],
            ),
{
    assert forall|i: int| 0 <= i < v.len() implies #[trigger] v[i] == bytes_word(
        b[4 * i],
        b[4 * i + 1],
        b[4 * i + 2],
        b[4 * i + 3],
    ) by {
        lemma_word_round_trip(v[i]);
        assert(b[4 * i + 0] == word_bytes(v[i])[0]);
        assert(b[4 * i + 1] == word_bytes(v[i])[1]);
        assert(b[4 * i + 2] == word_bytes(v[i])[2]);
        assert(b[4 * i + 3] == word_bytes(v[i])[3]);
    }
}

} // verus!
