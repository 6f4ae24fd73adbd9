//! Similarity ranking: thresholding, ordering and truncation of scored
//! candidates.
//!
//! Scores arrive as order keys: `similarity_key` maps the bit pattern of a
//! 32-bit IEEE-754 score to an unsigned integer whose order is the numeric
//! order of the scores (for non-NaN values), so that ranking needs no
//! floating point.

use vstd::prelude::*;
use vstd::set_lib::{set_int_range, lemma_int_range, lemma_len_subset};

verus! {

/// The order key of a 32-bit float given by its bit pattern: negative values
/// have all bits flipped, non-negative ones get the sign bit set, and
/// negative zero is keyed as positive zero.
pub open spec fn key_of(bits: u32) -> u32 {
    if bits == 0x8000_0000u32 {
        0x8000_0000u32
    } else if bits & 0x8000_0000u32 != 0 {
        !bits
    } else {
        bits | 0x8000_0000u32
    }
}

/// Executable form of [`key_of`].
pub fn similarity_key(bits: u32) -> (r: u32)
    ensures
        r == key_of(bits),
{
    if bits == 0x8000_0000u32 {
        0x8000_0000u32
    } else if bits & 0x8000_0000u32 != 0 {
        !bits
    } else {
        bits | 0x8000_0000u32
    }
}

/// Candidate `p` ranks before candidate `q`: higher key first, then lower
/// position.
pub open spec fn ranks_before(keys: Seq<u128>, p: int, q: int) -> bool {
    keys[p] > keys[q] || (keys[p] == keys[q] && p < q)
}

/// Candidate `p` passes the threshold.
pub open spec fn passes(keys: Seq<u128>, threshold: u128, p: int) -> bool {
    0 <= p < keys.len() && keys[p] >= threshold
}

/// `out` is the ranking of the candidates of `keys` that pass `threshold`,
/// cut at `limit`: only passing candidates, in strict rank order, at most
/// `limit` of them, and any passing candidate left out ranks after all that
/// were kept, which can only happen when `limit` entries were kept.
pub open spec fn is_ranking(keys: Seq<u128>, threshold: u128, limit: int, out: Seq<usize>) -> bool {
    &&& forall|i: int| 0 <= i < out.len() ==> passes(keys, threshold, #[trigger] out[i] as int)
    &&& forall|i: int, j: int|
        0 <= i < j < out.len() ==> ranks_before(keys, #[trigger] out[i] as int, #[trigger] out[j] as int)
    &&& out.len() <= limit
    &&& forall|p: int|
        passes(keys, threshold, p) && !out.contains(p as usize) ==> out.len() == limit && (out.len()
            > 0 ==> ranks_before(keys, out.last() as int, p))
}

/// Positions of the candidates whose key is at least `threshold`, best
/// first (higher key, then lower position), at most `limit` of them.
pub fn rank_by_score(keys: &Vec<u128>, threshold: u128, limit: usize) -> (r: Vec<usize>)
    ensures
        is_ranking(keys@, threshold, limit as int, r@),
{
    let n = keys.len();
    let mut out: Vec<usize> = Vec::new();
    loop
        invariant
            n == keys@.len(),
            out@.len() <= limit,
            forall|i: int| 0 <= i < out@.len() ==> passes(keys@, threshold, #[trigger] out@[i] as int),
            forall|i: int, j: int|
                0 <= i < j < out@.len() ==> ranks_before(
                    keys@,
                    #[trigger] out@[i] as int,
                    #[trigger] out@[j] as int,
                ),
            forall|p: int|
                passes(keys@, threshold, p) && !out@.contains(p as usize) ==> (out@.len() > 0
                    ==> ranks_before(keys@, out@.last() as int, p)),
        ensures
            is_ranking(keys@, threshold, limit as int, out@),
        decreases limit - out@.len(),
    {
        if out.len() >= limit {
            break ;
        }
        let has_last = out.len() > 0;
        let last: usize = if has_last {
            out[out.len() - 1]
        } else {
            0
        };
        if has_last {
            assert(passes(keys@, threshold, out@[out@.len() - 1] as int));
        }
        let mut best: Option<usize> = None;
        let mut q: usize = 0;
        while q < n
            invariant
                n == keys@.len(),
                q <= n,
                has_last == (out@.len() > 0),
                has_last ==> last == out@.last(),
                has_last ==> (last as int) < keys@.len(),
                best matches Some(b) ==> b < q && passes(keys@, threshold, b as int) && (!has_last
                    || ranks_before(keys@, last as int, b as int)),
                forall|x: int|
                    0 <= x < q && passes(keys@, threshold, x) && (!has_last || ranks_before(
                        keys@,
                        last as int,
                        x,
                    )) ==> (best matches Some(b) && (b == x || ranks_before(keys@, b as int, x))),
            decreases n - q,
        {
            let kq = keys[q];
            if kq >= threshold {
                let after_last = !has_last || keys[last] > kq || (keys[last] == kq && last < q);
                if after_last {
                    let better = match best {
                        None => true,
                        Some(b) => kq > keys[b] || (kq == keys[b] && q < b),
                    };
                    if better {
                        best = Some(q);
                    }
                }
            }
            q = q + 1;
        }
        match best {
            None => {
                assert forall|p: int|
                    passes(keys@, threshold, p) && !out@.contains(p as usize) implies out@.len()
                    == limit as int && (out@.len() > 0 ==> ranks_before(
                    keys@,
                    out@.last() as int,
                    p,
                )) by {
                    assert(false);
                }
                break ;
            },
            Some(b) => {
                let ghost old_out = out@;
                out.push(b);
                assert forall|p: int|
                    passes(keys@, threshold, p) && !out@.contains(p as usize) implies (out@.len()
                    > 0 ==> ranks_before(keys@, out@.last() as int, p)) by {
                    assert(!old_out.contains(p as usize)) by {
                        if old_out.contains(p as usize) {
                            let k = choose|k: int| 0 <= k < old_out.len() && old_out[k] == p as usize;
                            assert(out@[k] == p as usize);
                        }
                    }
                    assert(out@[out@.len() - 1] == b);
                    if p != b as int {
                    } else {
                        assert(out@.contains(p as usize));
                    }
                }
                assert forall|i: int, j: int|
                    0 <= i < j < out@.len() implies ranks_before(
                    keys@,
                    #[trigger] out@[i] as int,
                    #[trigger] out@[j] as int,
                ) by {
                    if j == out@.len() - 1 && i < j {
                        assert(out@[i] == old_out[i]);
                        if i < old_out.len() - 1 {
                            assert(ranks_before(keys@, old_out[i] as int, old_out[old_out.len() - 1] as int));
                        }
                    } else {
                        assert(out@[i] == old_out[i]);
                        assert(out@[j] == old_out[j]);
                    }
                }
            },
        }
    }
    out
}

/// Entries of a strict ranking are distinct positions below `n`, so there
/// are at most `n` of them.
proof fn lemma_ranking_len(keys: Seq<u128>, out: Seq<usize>)
    requires
        forall|i: int| 0 <= i < out.len() ==> #[trigger] out[i] < keys.len(),
        forall|i: int, j: int|
            0 <= i < j < out.len() ==> ranks_before(keys, #[trigger] out[i] as int, #[trigger] out[j] as int),
    ensures
        out.len() <= keys.len(),
{
    let s = out.map_values(|p: usize| p as int);
    assert forall|i: int, j: int| 0 <= i < s.len() && 0 <= j < s.len() && i != j implies s[i] != s[j] by {
        if i < j {
            assert(ranks_before(keys, out[i] as int, out[j] as int));
        } else {
            assert(ranks_before(keys, out[j] as int, out[i] as int));
        }
    }
    assert(s.no_duplicates());
    s.unique_seq_to_set();
    lemma_int_range(0, keys.len() as int);
    assert(s.to_set().subset_of(set_int_range(0, keys.len() as int)));
    lemma_len_subset(s.to_set(), set_int_range(0, keys.len() as int));
}

/// With a threshold no candidate falls below and a limit of at least the
/// number of candidates, the ranking returns every candidate, ordered by
/// non-increasing key.
pub proof fn lemma_full_ranking(keys: Seq<u128>, threshold: u128, limit: int, out: Seq<usize>)
    requires
        is_ranking(keys, threshold, limit, out),
        limit > keys.len(),
        keys.len() <= usize::MAX,
        forall|p: int| 0 <= p < keys.len() ==> #[trigger] keys[p] >= threshold,
    ensures
        forall|p: int| 0 <= p < keys.len() ==> #[trigger] out.contains(p as usize),
        out.len() == keys.len(),
        forall|i: int, j: int| 0 <= i < j < out.len() ==> keys[#[trigger] out[i] as int] >= keys[#[trigger] out[j] as int],
{
    lemma_ranking_len(keys, out);
    assert forall|p: int| 0 <= p < keys.len() implies #[trigger] out.contains(p as usize) by {
        assert(passes(keys, threshold, p));
    }
    let s = out.map_values(|p: usize| p as int);
    assert forall|i: int, j: int| 0 <= i < s.len() && 0 <= j < s.len() && i != j implies s[i] != s[j] by {
        if i < j {
            assert(ranks_before(keys, out[i] as int, out[j] as int));
        } else {
            assert(ranks_before(keys, out[j] as int, out[i] as int));
        }
    }
    s.unique_seq_to_set();
    lemma_int_range(0, keys.len() as int);
    assert forall|x: int| set_int_range(0, keys.len() as int).contains(x) implies s.to_set().contains(x) by {
        assert(out.contains(x as usize));
        let k = choose|k: int| 0 <= k < out.len() && out[k] == x as usize;
        assert(s[k] == x);
    }
    lemma_len_subset(set_int_range(0, keys.len() as int), s.to_set());
    assert forall|i: int, j: int| 0 <= i < j < out.len() implies keys[#[trigger] out[i] as int] >= keys[#[trigger] out[j] as int] by {
        assert(ranks_before(keys, out[i] as int, out[j] as int));
    }
}

} // verus!
