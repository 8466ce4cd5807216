use vstd::prelude::*;

use crate::sorting::{is_sorted_by, lemma_insert_at, lemma_sort_by, sort_by};

verus! {

/// The position of an `f32`, given by its bits, in the total order of `f32::total_cmp`
/// (negative NaN, negative numbers, -0, +0, positive numbers, positive NaN): the sign
/// bit set flips every bit, otherwise the sign bit is set.
pub open spec fn total_order_key(bits: u32) -> u32 {
    if bits >= 0x8000_0000 {
        (0xFFFF_FFFFu32 - bits) as u32
    } else {
        (bits + 0x8000_0000u32) as u32
    }
}

/// The position of the `f32` whose bits are `bits` in the total order of `f32`s.
pub fn order_key(bits: u32) -> (r: u32)
    ensures
        r == total_order_key(bits),
{
    if bits >= 0x8000_0000 {
        0xFFFF_FFFF - bits
    } else {
        bits + 0x8000_0000
    }
}

/// The keys of a sequence of score bits.
pub open spec fn keys_of(score_bits: Seq<u32>) -> Seq<u32> {
    score_bits.map_values(|b: u32| total_order_key(b))
}

/// Candidate `x` must come after candidate `y` when its score is lower.
pub open spec fn score_after(keys: Seq<u32>) -> spec_fn(usize, usize) -> bool {
    |x: usize, y: usize| x < keys.len() && y < keys.len() && keys[x as int] < keys[y as int]
}

/// The positions `0..n`, in order.
pub open spec fn positions(n: nat) -> Seq<usize> {
    Seq::new(n, |i: int| i as usize)
}

/// The top `k` of candidates scored `score_bits`: positions sorted by descending score,
/// candidates of equal score in their order, cut to `k`.
pub open spec fn top_k(score_bits: Seq<u32>, k: usize) -> Seq<usize> {
    let sorted = sort_by(positions(score_bits.len()), score_after(keys_of(score_bits)));
    if k < sorted.len() {
        sorted.take(k as int)
    } else {
        sorted
    }
}

/// Ranks candidates by their similarity scores, given as the bits of each `f32` score:
/// returns the positions of the `top_k` best, best first, ties in candidate order.
pub fn rank_top_k(score_bits: &Vec<u32>, top_k_count: usize) -> (r: Vec<usize>)
    ensures
        r@ == top_k(score_bits@, top_k_count),
{
    let ghost keys_spec = keys_of(score_bits@);
    let ghost after = score_after(keys_spec);
    let mut keys: Vec<u32> = Vec::new();
    let mut i: usize = 0;
    while i < score_bits.len()
        invariant
            i <= score_bits@.len(),
            keys_spec == keys_of(score_bits@),
            keys@ == keys_spec.take(i as int),
        decreases score_bits@.len() - i,
    {
        keys.push(order_key(score_bits[i]));
        i = i + 1;
        assert(keys@ =~= keys_spec.take(i as int));
    }
    assert(keys@ =~= keys_spec);
    let n = keys.len();
    let mut out: Vec<usize> = Vec::new();
    let mut i: usize = 0;
    while i < n
        invariant
            i <= n,
            n == keys@.len(),
            keys@ == keys_spec,
            after == score_after(keys_spec),
            out@ == sort_by(positions(n as nat).take(i as int), after),
            forall|k: int| 0 <= k < out@.len() ==> #[trigger] out@[k] < n,
        decreases n - i,
    {
        let mut j: usize = out.len();
        loop
            invariant
                j <= out@.len(),
                i < n,
                n == keys@.len(),
                keys@ == keys_spec,
                after == score_after(keys_spec),
                forall|k: int| 0 <= k < out@.len() ==> #[trigger] out@[k] < n,
                forall|k: int| j <= k < out@.len() ==> after(#[trigger] out@[k], i),
            ensures
                j <= out@.len(),
                forall|k: int| j <= k < out@.len() ==> after(#[trigger] out@[k], i),
                j > 0 ==> !after(out@[j - 1], i),
            decreases j,
        {
            if j == 0 {
                break ;
            }
            if keys[out[j - 1]] < keys[i] {
                j = j - 1;
            } else {
                break ;
            }
        }
        proof {
            let p = positions(n as nat);
            lemma_insert_at(out@, i, after, j as int);
            assert(p.take(i + 1).drop_last() =~= p.take(i as int));
            assert(p.take(i + 1).last() == i);
        }
        out.insert(j, i);
        i = i + 1;
    }
    assert(positions(n as nat).take(n as int) =~= positions(score_bits@.len()));
    if top_k_count < out.len() {
        out.truncate(top_k_count);
    }
    out
}

/// Ranking gives at most `k` candidates, all of them when there are fewer, each once,
/// sorted by descending score.
pub proof fn lemma_top_k(score_bits: Seq<u32>, k: usize)
    requires
        score_bits.len() <= usize::MAX,
    ensures
        top_k(score_bits, k).len() == (if k < score_bits.len() {
            k as int
        } else {
            score_bits.len() as int
        }),
        top_k(score_bits, k).no_duplicates(),
        forall|i: int|
            0 <= i < top_k(score_bits, k).len() ==> #[trigger] top_k(score_bits, k)[i]
                < score_bits.len(),
        forall|i: int, j: int|
            0 <= i < j < top_k(score_bits, k).len() ==> keys_of(score_bits)[top_k(
                score_bits,
                k,
            )[i] as int] >= keys_of(score_bits)[#[trigger] top_k(score_bits, k)[j] as int]
                && #[trigger] top_k(score_bits, k)[i] < score_bits.len(),
{
    broadcast use vstd::seq_lib::group_seq_properties;
    broadcast use vstd::multiset::group_multiset_axioms;

    let keys = keys_of(score_bits);
    let after = score_after(keys);
    let p = positions(score_bits.len());
    lemma_sort_by(p, after);
    let sorted = sort_by(p, after);
    assert(p.no_duplicates());
    p.lemma_multiset_has_no_duplicates();
    sorted.lemma_multiset_has_no_duplicates_conv();
    assert forall|i: int| 0 <= i < sorted.len() implies #[trigger] sorted[i] < score_bits.len() by {
        assert(sorted.to_multiset().count(sorted[i]) > 0);
        assert(p.contains(sorted[i]));
    }
    assert forall|i: int, j: int| 0 <= i < j < sorted.len() implies keys[#[trigger] sorted[i] as int]
        >= keys[#[trigger] sorted[j] as int] by {
        lemma_sorted_descending(sorted, keys, i, j);
    }
    let r = top_k(score_bits, k);
    assert forall|i: int| 0 <= i < r.len() implies #[trigger] r[i] < score_bits.len() by {
        assert(r[i] == sorted[i]);
    }
    assert forall|i: int, j: int| 0 <= i < j < r.len() implies keys[r[i] as int]
        >= keys[#[trigger] r[j] as int] && #[trigger] r[i] < score_bits.len() by {
        assert(r[i] == sorted[i] && r[j] == sorted[j]);
    }
}

proof fn lemma_sorted_descending(s: Seq<usize>, keys: Seq<u32>, i: int, j: int)
    requires
        is_sorted_by(s, score_after(keys)),
        forall|m: int| 0 <= m < s.len() ==> #[trigger] s[m] < keys.len(),
        0 <= i < j < s.len(),
    ensures
        keys[s[i] as int] >= keys[s[j] as int],
    decreases j - i,
{
    assert(!score_after(keys)(s[j - 1], s[j]));
    assert(s[j - 1] < keys.len() && s[j] < keys.len());
    if j - 1 > i {
        lemma_sorted_descending(s, keys, i, j - 1);
    }
}

} // verus!
