//! The mathematical model of the accumulator.
//!
//! A state is a sequence of levels, each a sequence of digests (byte
//! sequences). The functions here say what a well-paired state looks like,
//! which digests are its peaks, how the peaks fold into a root, and how an
//! inclusion proof is generated and walked.

use vstd::prelude::*;

use vstd::arithmetic::div_mod::{
    lemma_div_basics, lemma_div_denominator, lemma_fundamental_div_mod,
    lemma_fundamental_div_mod_converse,
};
use vstd::arithmetic::power2::{lemma2_to64, lemma_pow2_unfold, pow2};

use crate::arith::{lemma_half_lt, lemma_halve_quotient, lemma_nonempty_level_below_height};
use crate::hashing::{combine, HashType};

verus! {

/// The pairing invariant between one level and the level above it: the upper
/// level holds exactly one node for every completed pair of the lower level,
/// and each such node is the combination of its two children, left first.
pub open spec fn level_complete(alg: HashType, lower: Seq<Seq<u8>>, upper: Seq<Seq<u8>>) -> bool {
    &&& upper.len() == lower.len() / 2
    &&& forall|j: int|
        0 <= j < upper.len() ==> #[trigger] upper[j] == combine(alg, lower[2 * j], lower[2 * j + 1])
}

/// The state of the one level that still owes a fold during carry
/// propagation: the lower level ends in an even, unconsumed pair, and the
/// upper level holds one node fewer than the lower level's pair count, each
/// matching its pair of children.
pub open spec fn level_pending(alg: HashType, lower: Seq<Seq<u8>>, upper: Seq<Seq<u8>>) -> bool {
    &&& lower.len() % 2 == 0
    &&& lower.len() >= 2
    &&& upper.len() + 1 == lower.len() / 2
    &&& forall|j: int|
        0 <= j < upper.len() ==> #[trigger] upper[j] == combine(alg, lower[2 * j], lower[2 * j + 1])
}

/// In a chain of fully paired levels, level `k` holds the leaf count divided
/// by `2^k`: each level is half as long as the one below it.
pub proof fn lemma_level_len(s: Seq<Seq<Seq<u8>>>, alg: HashType, k: int, m: int)
    requires
        0 <= k <= m,
        m < s.len(),
        forall|j: int| 0 <= j < m ==> level_complete(alg, #[trigger] s[j], s[j + 1]),
    ensures
        s[k].len() == s[0].len() / pow2(k as nat),
    decreases k,
{
    if k == 0 {
        assert(pow2(0) == 1) by {
            lemma2_to64();
        }
        lemma_div_basics(s[0].len() as int);
    } else {
        lemma_level_len(s, alg, k - 1, m);
        assert(level_complete(alg, s[k - 1], s[k]));
        lemma_halve_quotient(s[0].len(), (k - 1) as nat);
    }
}

/// Appending one node to a fully paired level leaves its pair with the level
/// above either still complete (new length odd, or too short to pair) or
/// owing exactly one fold (new length an even pair).
pub proof fn lemma_push_keeps_or_owes(
    alg: HashType,
    lower0: Seq<Seq<u8>>,
    upper: Seq<Seq<u8>>,
    x: Seq<u8>,
)
    requires
        level_complete(alg, lower0, upper),
    ensures
        ({
            let lower = lower0.push(x);
            if lower.len() % 2 == 0 && lower.len() >= 2 {
                level_pending(alg, lower, upper)
            } else {
                level_complete(alg, lower, upper)
            }
        }),
{
    let lower = lower0.push(x);
    assert forall|j: int| 0 <= j < upper.len() implies #[trigger] upper[j] == combine(
        alg,
        lower[2 * j],
        lower[2 * j + 1],
    ) by {
        assert(upper[j] == combine(alg, lower0[2 * j], lower0[2 * j + 1]));
        assert(2 * j + 1 < lower0.len());
    }
}

/// Folding the owed pair of a pending level into the level above restores
/// the pairing invariant between the two.
pub proof fn lemma_fold_completes(alg: HashType, lower: Seq<Seq<u8>>, upper0: Seq<Seq<u8>>)
    requires
        level_pending(alg, lower, upper0),
    ensures
        level_complete(
            alg,
            lower,
            upper0.push(combine(alg, lower[lower.len() - 2], lower[lower.len() - 1])),
        ),
{
    let parent = combine(alg, lower[lower.len() - 2], lower[lower.len() - 1]);
    let upper = upper0.push(parent);
    assert forall|j: int| 0 <= j < upper.len() implies #[trigger] upper[j] == combine(
        alg,
        lower[2 * j],
        lower[2 * j + 1],
    ) by {
        if j < upper0.len() {
            assert(upper[j] == upper0[j]);
        } else {
            assert(j == upper0.len());
            assert(2 * j == lower.len() - 2);
        }
    }
}

/// The peaks among levels `0 .. k`, in increasing level order: the last entry
/// of every level whose length is odd.
pub open spec fn peaks_upto(s: Seq<Seq<Seq<u8>>>, k: int) -> Seq<Seq<u8>>
    decreases k,
{
    if k <= 0 {
        Seq::empty()
    } else {
        peaks_upto(s, k - 1)
            + if s[k - 1].len() % 2 == 1 {
                seq![s[k - 1].last()]
            } else {
                Seq::empty()
            }
    }
}

/// The last entry of any odd level below `k` appears among the peaks of
/// levels `0 .. k`.
pub proof fn lemma_peak_in_peaks_upto(s: Seq<Seq<Seq<u8>>>, t: int, k: int)
    requires
        0 <= t < k,
        s[t].len() % 2 == 1,
    ensures
        peaks_upto(s, k).contains(s[t].last()),
    decreases k,
{
    if t == k - 1 {
        let ps = peaks_upto(s, k);
        assert(ps[ps.len() - 1] == s[t].last());
    } else {
        lemma_peak_in_peaks_upto(s, t, k - 1);
        let ps = peaks_upto(s, k - 1);
        let i = choose|i: int| 0 <= i < ps.len() && ps[i] == s[t].last();
        assert(peaks_upto(s, k)[i] == s[t].last());
    }
}

/// Every leaf count from one up to the capacity has a level whose length is
/// exactly one: the level of the count's highest set bit.
pub proof fn lemma_top_level_exists(n: nat, h: nat)
    requires
        1 <= n < pow2(h),
    ensures
        exists|t: nat| t < h && #[trigger] (n / pow2(t)) == 1,
    decreases n,
{
    lemma2_to64();
    if n == 1 {
        if h == 0 {
            assert(false);
        }
        assert(n / pow2(0) == 1) by {
            lemma_div_basics(1);
        }
        assert(0 < h && n / pow2(0) == 1);
    } else {
        if h <= 1 {
            assert(false);
        }
        let p = pow2((h - 1) as nat);
        assert(pow2(h) == 2 * p) by {
            lemma_pow2_unfold(h);
        }
        assert((2 * p - 1) / 2 == p - 1) by {
            lemma_fundamental_div_mod_converse(2 * p - 1, 2, p - 1, 1);
        }
        assert(n / 2 <= (2 * p - 1) / 2) by {
            vstd::arithmetic::div_mod::lemma_div_is_ordered(n as int, 2 * p - 1, 2);
        }
        lemma_top_level_exists(n / 2, (h - 1) as nat);
        let t = choose|t: nat| t < h - 1 && #[trigger] ((n / 2) / pow2(t)) == 1;
        assert(n / 2 / pow2(t) == n / pow2(t + 1)) by {
            vstd::arithmetic::power2::lemma_pow2_pos(t);
            lemma_div_denominator(n as int, 2, pow2(t) as int);
            lemma_pow2_unfold(t + 1);
        }
        assert(t + 1 < h && n / pow2(t + 1) == 1);
    }
}

/// Folding one more peak into a left-to-right fold combines the fold of the
/// prefix with that peak as the right child.
pub proof fn lemma_fold_peaks_take_step(alg: HashType, peaks: Seq<Seq<u8>>, i: int)
    requires
        1 <= i < peaks.len(),
    ensures
        fold_peaks(alg, peaks.take(i + 1)) == combine(
            alg,
            fold_peaks(alg, peaks.take(i)),
            peaks[i],
        ),
{
    let front = peaks.take(i + 1);
    assert(front.drop_last() =~= peaks.take(i));
    assert(front.last() == peaks[i]);
}

/// Folds a peak sequence left-to-right into a single digest: the first
/// (lowest-level) peak seeds the accumulator and each later peak is folded in
/// as the right child. The low-to-high order is a deliberate, load-bearing
/// choice of this structure: reordering changes the root whenever there is
/// more than one peak.
pub open spec fn fold_peaks(alg: HashType, peaks: Seq<Seq<u8>>) -> Seq<u8>
    decreases peaks.len(),
{
    if peaks.len() == 0 {
        Seq::empty()
    } else if peaks.len() == 1 {
        peaks[0]
    } else {
        combine(alg, fold_peaks(alg, peaks.drop_last()), peaks.last())
    }
}

/// The sibling digests collected on the way from position `idx` of level
/// `level` up to (but not including) the peak that contains it. The walk
/// stops when the current node is unpaired: the last node of its level, at an
/// even index.
pub open spec fn sibling_path(s: Seq<Seq<Seq<u8>>>, level: int, idx: int) -> Seq<Seq<u8>>
    decreases s.len() - level,
{
    if level < 0 || level >= s.len() {
        Seq::empty()
    } else if idx + 1 == s[level].len() && idx % 2 == 0 {
        Seq::empty()
    } else {
        let sib: int = if idx % 2 == 0 {
            idx + 1
        } else {
            idx - 1
        };
        seq![s[level][sib]] + sibling_path(s, level + 1, idx / 2)
    }
}

/// Recombines a leaf with the sibling digests of a proof, in order: at an
/// even index the current digest is the left child, at an odd index the
/// right; the index is halved after every step.
pub open spec fn walk(alg: HashType, node: Seq<u8>, proof: Seq<Seq<u8>>, idx: int) -> Seq<u8>
    decreases proof.len(),
{
    if proof.len() == 0 {
        node
    } else {
        let parent = if idx % 2 == 0 {
            combine(alg, node, proof[0])
        } else {
            combine(alg, proof[0], node)
        };
        walk(alg, parent, proof.drop_first(), idx / 2)
    }
}

/// Two fully paired states with the same algorithm, the same number of
/// levels and the same leaf level agree on every level: the leaves determine
/// the whole structure.
pub proof fn lemma_levels_agree(
    sa: Seq<Seq<Seq<u8>>>,
    sb: Seq<Seq<Seq<u8>>>,
    alg: HashType,
    k: int,
)
    requires
        sa.len() == sb.len(),
        0 <= k < sa.len(),
        sa[0] == sb[0],
        forall|j: int| 0 <= j && j + 1 < sa.len() ==> level_complete(alg, #[trigger] sa[j], sa[j + 1]),
        forall|j: int| 0 <= j && j + 1 < sb.len() ==> level_complete(alg, #[trigger] sb[j], sb[j + 1]),
    ensures
        sa[k] == sb[k],
    decreases k,
{
    if k > 0 {
        lemma_levels_agree(sa, sb, alg, k - 1);
        assert(level_complete(alg, sa[k - 1], sa[k]));
        assert(level_complete(alg, sb[k - 1], sb[k]));
        assert(sa[k] =~= sb[k]);
    }
}

/// Levels of even length contribute no peak: scanning them adds nothing.
pub proof fn lemma_peaks_upto_skip_even(s: Seq<Seq<Seq<u8>>>, lo: int, hi: int)
    requires
        0 <= lo <= hi,
        forall|k: int| lo <= k < hi ==> #[trigger] s[k].len() % 2 != 1,
    ensures
        peaks_upto(s, hi) == peaks_upto(s, lo),
    decreases hi - lo,
{
    if hi > lo {
        lemma_peaks_upto_skip_even(s, lo, hi - 1);
        assert(peaks_upto(s, hi) =~= peaks_upto(s, hi - 1));
    }
}

/// Walking a leaf up through its sibling path lands on the last entry of
/// some odd level at or above it: the peak that contains the leaf.
pub proof fn lemma_walk_reaches_peak(
    s: Seq<Seq<Seq<u8>>>,
    alg: HashType,
    n: nat,
    level: int,
    idx: int,
)
    requires
        1 <= n < pow2(s.len() as nat),
        n == s[0].len(),
        forall|k: int| 0 <= k && k + 1 < s.len() ==> level_complete(alg, #[trigger] s[k], s[k + 1]),
        0 <= level < s.len(),
        s[level].len() == n / pow2(level as nat),
        0 <= idx < s[level].len(),
    ensures
        exists|p: int|
            level <= p < s.len() && #[trigger] s[p].len() % 2 == 1 && walk(
                alg,
                s[level][idx],
                sibling_path(s, level, idx),
                idx,
            ) == s[p].last(),
    decreases s.len() - level,
{
    let len = s[level].len() as int;
    if idx + 1 == len && idx % 2 == 0 {
        lemma_fundamental_div_mod(len, 2);
        assert(s[level].len() % 2 == 1);
        assert(walk(alg, s[level][idx], sibling_path(s, level, idx), idx) == s[level].last());
    } else {
        lemma_half_lt(idx, len);
        lemma_halve_quotient(n, level as nat);
        lemma_nonempty_level_below_height(n, (level + 1) as nat, s.len() as nat);
        assert(level + 1 < s.len());
        assert(level_complete(alg, s[level], s[level + 1]));
        let m = idx / 2;
        lemma_fundamental_div_mod(idx, 2);
        let sib: int = if idx % 2 == 0 {
            idx + 1
        } else {
            idx - 1
        };
        let rest = sibling_path(s, level + 1, m);
        let whole = sibling_path(s, level, idx);
        assert(whole == seq![s[level][sib]] + rest);
        assert(whole[0] == s[level][sib]);
        let parent = if idx % 2 == 0 {
            combine(alg, s[level][idx], whole[0])
        } else {
            combine(alg, whole[0], s[level][idx])
        };
        assert(parent == combine(alg, s[level][2 * m], s[level][2 * m + 1]));
        assert(parent == s[level + 1][m]);
        assert(whole.drop_first() =~= rest);
        assert(walk(alg, s[level][idx], whole, idx) == walk(alg, s[level + 1][m], rest, m));
        lemma_walk_reaches_peak(s, alg, n, level + 1, m);
    }
}

/// The two-part acceptance check of proof verification: the digest walked up
/// from the leaf must appear among the caller-supplied peaks, and those same
/// peaks, folded low-to-high, must equal the claimed root. The peaks are
/// trusted as supplied; they are not derived from the root or the proof.
pub open spec fn proof_accepted(
    alg: HashType,
    root: Seq<u8>,
    peaks: Seq<Seq<u8>>,
    proof: Seq<Seq<u8>>,
    leaf: Seq<u8>,
    idx: int,
) -> bool {
    &&& peaks.contains(walk(alg, leaf, proof, idx))
    &&& root == fold_peaks(alg, peaks)
}

} // verus!
