//! Properties of the accumulator as a whole, stated over the spec-level
//! model that the methods' contracts use: determinism of the root, the exact
//! shape of small accumulators, and the round trip from proof generation to
//! proof verification.

use vstd::prelude::*;

use vstd::arithmetic::div_mod::{
    lemma_basic_div, lemma_div_basics, lemma_fundamental_div_mod_converse,
};
use vstd::arithmetic::power2::{lemma2_to64, pow2};

use crate::arith::lemma_pow2_mono;
use crate::hashing::combine;
use crate::mmr::MerkleMountainRange;
use crate::model::{
    fold_peaks, lemma_level_len, lemma_levels_agree, lemma_peak_in_peaks_upto,
    lemma_peaks_upto_skip_even, lemma_walk_reaches_peak, level_complete, peaks_upto,
    proof_accepted, sibling_path,
};

verus! {

/// Determinism: two well-formed accumulators built with the same algorithm
/// and height that have received the same leaves agree level for level, and
/// so on their peaks and their root. Queries take the accumulator by shared
/// reference and change nothing, so no interleaving of queries can disturb
/// this.
pub proof fn lemma_root_deterministic(a: MerkleMountainRange, b: MerkleMountainRange)
    requires
        a.wf(),
        b.wf(),
        a.algorithm() == b.algorithm(),
        a.height() == b.height(),
        a.leaves() == b.leaves(),
    ensures
        a.levels() == b.levels(),
        a.spec_peaks() == b.spec_peaks(),
        a.spec_root() == b.spec_root(),
{
    assert forall|k: int| 0 <= k < a.height() implies a.levels()[k] == b.levels()[k] by {
        lemma_levels_agree(a.levels(), b.levels(), a.algorithm(), k);
    }
    assert(a.levels() =~~= b.levels());
}

/// A single leaf is its own peak and its own root: the one peak at level 0
/// folds to itself.
pub proof fn lemma_single_leaf_root(m: MerkleMountainRange, leaf: Seq<u8>)
    requires
        m.wf(),
        m.leaves() =~= seq![leaf],
    ensures
        m.spec_peaks() == seq![leaf],
        m.spec_root() == leaf,
{
    let s = m.levels();
    let h = m.height() as int;
    assert(m.leaves().len() == 1);
    assert(h >= 1);
    assert(s[0] == m.leaves());
    assert(s[0].len() == 1);
    lemma2_to64();
    assert forall|k: int| 1 <= k < h implies #[trigger] s[k].len() % 2 != 1 by {
        lemma_level_len(s, m.algorithm(), k, h - 1);
        lemma_pow2_mono(1, k as nat);
        lemma_basic_div(1, pow2(k as nat) as int);
    }
    lemma_peaks_upto_skip_even(s, 1, h);
    assert(s[0].last() == leaf);
    assert(peaks_upto(s, 0) =~= Seq::<Seq<u8>>::empty());
    assert(peaks_upto(s, 1) =~= seq![leaf]);
    assert(m.spec_peaks() =~= seq![leaf]);
}

/// Two leaves leave level 0 fully paired: the only peak is their
/// combination at level 1, and it is the root.
pub proof fn lemma_two_leaves_root(m: MerkleMountainRange, l0: Seq<u8>, l1: Seq<u8>)
    requires
        m.wf(),
        m.leaves() =~= seq![l0, l1],
    ensures
        m.spec_peaks() == seq![combine(m.algorithm(), l0, l1)],
        m.spec_root() == combine(m.algorithm(), l0, l1),
{
    let s = m.levels();
    let h = m.height() as int;
    let alg = m.algorithm();
    assert(m.leaves().len() == 2);
    assert(h >= 1);
    assert(s[0] == m.leaves());
    assert(s[0].len() == 2);
    assert(m.leaf_count() == 2);
    lemma2_to64();
    assert(h >= 2) by {
        if h < 2 {
            lemma_pow2_mono(m.height(), 1);
        }
    }
    lemma_level_len(s, alg, 1, h - 1);
    lemma_div_basics(2);
    assert(s[1].len() == 1);
    assert(level_complete(alg, s[0], s[1]));
    assert(s[1][0] == combine(alg, l0, l1));
    assert forall|k: int| 2 <= k < h implies #[trigger] s[k].len() % 2 != 1 by {
        lemma_level_len(s, alg, k, h - 1);
        lemma_pow2_mono(2, k as nat);
        lemma_basic_div(2, pow2(k as nat) as int);
    }
    lemma_peaks_upto_skip_even(s, 2, h);
    assert(peaks_upto(s, 0) =~= Seq::<Seq<u8>>::empty());
    assert(peaks_upto(s, 1) =~= Seq::<Seq<u8>>::empty());
    assert(m.spec_peaks() =~= seq![combine(alg, l0, l1)]);
}

/// Three leaves: the third leaf stands alone as the peak at level 0, the
/// earlier pair keeps its peak at level 1, and the root combines the
/// level-0 peak (first, as the left child) with the level-1 peak.
pub proof fn lemma_three_leaves_root(
    m: MerkleMountainRange,
    l0: Seq<u8>,
    l1: Seq<u8>,
    l2: Seq<u8>,
)
    requires
        m.wf(),
        m.leaves() =~= seq![l0, l1, l2],
    ensures
        m.spec_peaks() == seq![l2, combine(m.algorithm(), l0, l1)],
        m.spec_root() == combine(m.algorithm(), l2, combine(m.algorithm(), l0, l1)),
{
    let s = m.levels();
    let h = m.height() as int;
    let alg = m.algorithm();
    assert(m.leaves().len() == 3);
    assert(h >= 1);
    assert(s[0] == m.leaves());
    assert(s[0].len() == 3);
    assert(m.leaf_count() == 3);
    lemma2_to64();
    assert(h >= 2) by {
        if h < 2 {
            lemma_pow2_mono(m.height(), 1);
        }
    }
    lemma_level_len(s, alg, 1, h - 1);
    assert(3nat / 2 == 1) by {
        lemma_fundamental_div_mod_converse(3, 2, 1, 1);
    }
    assert(s[1].len() == 1);
    assert(level_complete(alg, s[0], s[1]));
    assert(s[1][0] == combine(alg, l0, l1));
    assert forall|k: int| 2 <= k < h implies #[trigger] s[k].len() % 2 != 1 by {
        lemma_level_len(s, alg, k, h - 1);
        lemma_pow2_mono(2, k as nat);
        lemma_basic_div(3, pow2(k as nat) as int);
    }
    lemma_peaks_upto_skip_even(s, 2, h);
    let peaks = m.spec_peaks();
    assert(peaks_upto(s, 0) =~= Seq::<Seq<u8>>::empty());
    assert(peaks_upto(s, 1) =~= seq![l2]);
    assert(peaks =~= seq![l2, combine(alg, l0, l1)]);
    assert(peaks.drop_last() =~= seq![l2]);
    assert(fold_peaks(alg, seq![l2]) == l2);
}

/// The binary-counter shape of a well-formed accumulator: level `k` holds
/// the leaf count divided by `2^k` nodes, so a level is a peak (odd length)
/// exactly when bit `k` of the leaf count is set.
pub proof fn lemma_peaks_follow_leaf_count_bits(m: MerkleMountainRange)
    requires
        m.wf(),
    ensures
        forall|k: int|
            0 <= k < m.height() ==> #[trigger] m.levels()[k].len() == m.leaf_count() / pow2(
                k as nat,
            ),
        forall|k: int|
            0 <= k < m.height() ==> (#[trigger] m.levels()[k].len() % 2 == 1 <==> (m.leaf_count()
                / pow2(k as nat)) % 2 == 1),
{
    let s = m.levels();
    assert forall|k: int| 0 <= k < m.height() implies #[trigger] s[k].len() == m.leaf_count()
        / pow2(k as nat) by {
        lemma_level_len(s, m.algorithm(), k, m.height() as int - 1);
    }
}

/// The proof round trip: for every leaf of a non-empty accumulator, the
/// sibling path that proof generation returns is accepted by proof
/// verification against the accumulator's own root and peaks.
pub proof fn lemma_proof_round_trip(m: MerkleMountainRange, i: int)
    requires
        m.wf(),
        0 <= i < m.leaf_count(),
    ensures
        proof_accepted(
            m.algorithm(),
            m.spec_root(),
            m.spec_peaks(),
            sibling_path(m.levels(), 0, i),
            m.leaves()[i],
            i,
        ),
{
    let s = m.levels();
    let n = m.leaf_count();
    let h = m.height() as int;
    lemma2_to64();
    lemma_div_basics(n as int);
    lemma_walk_reaches_peak(s, m.algorithm(), n, 0, i);
    let p = choose|p: int|
        0 <= p < s.len() && #[trigger] s[p].len() % 2 == 1 && crate::model::walk(
            m.algorithm(),
            s[0][i],
            sibling_path(s, 0, i),
            i,
        ) == s[p].last();
    lemma_peak_in_peaks_upto(s, p, h);
}

} // verus!
