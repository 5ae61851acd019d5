//! The accumulator itself: an owned stack of levels, appended to one leaf at
//! a time, with carry-propagation pairing, peak and root queries, and the
//! inclusion-proof surface.

use vstd::prelude::*;

use vstd::arithmetic::power2::{
    lemma2_to64, lemma2_to64_rest, lemma_pow2_pos, lemma_pow2_strictly_increases,
    lemma_pow2_unfold, pow2,
};

use crate::arith::{
    lemma_full_pair_below_height, lemma_half_lt, lemma_halve_quotient,
    lemma_nonempty_level_below_height, lemma_pow2_mono,
};
use crate::digest::{digests_view, lemma_digest_len, Digest};
use crate::hashing::{combine_digests, digest_bytes, hash_of, HashType};
use crate::model::{
    fold_peaks, lemma_fold_completes, lemma_fold_peaks_take_step, lemma_level_len,
    lemma_peak_in_peaks_upto, lemma_push_keeps_or_owes, lemma_top_level_exists, level_complete,
    level_pending, peaks_upto, proof_accepted, sibling_path, walk,
};

verus! {

broadcast use lemma_digest_len;

/// The error an append reports instead of growing past the configured
/// capacity: an accumulator of height `h` holds at most `2^h - 1` leaves.
#[derive(Clone, Copy, Debug, PartialEq, Eq, Structural)]
pub enum MmrError {
    CapacityExceeded,
}

/// An append-only Merkle Mountain Range over a fixed hash algorithm.
///
/// `layers[0]` holds the leaf digests; `layers[k]` for `k > 0` holds one
/// digest for every completed pair of `layers[k - 1]`. Levels only grow, and
/// only at the end.
pub struct MerkleMountainRange {
    layers: Vec<Vec<Digest>>,
    max_height: usize,
    hash_type: HashType,
}

impl MerkleMountainRange {
    /// The levels of the accumulator as plain byte sequences.
    pub closed spec fn levels(self) -> Seq<Seq<Seq<u8>>> {
        self.layers@.map_values(|l: Vec<Digest>| digests_view(l@))
    }

    /// The configured capacity bound: the number of levels.
    pub closed spec fn height(self) -> nat {
        self.max_height as nat
    }

    /// The hash algorithm fixed at construction.
    pub closed spec fn algorithm(self) -> HashType {
        self.hash_type
    }

    /// The number of leaves ever appended.
    pub open spec fn leaf_count(self) -> nat {
        if self.height() == 0 {
            0
        } else {
            self.levels()[0].len()
        }
    }

    /// Well-formedness: one stored level per unit of height, every adjacent
    /// pair of levels fully paired, and the leaf count within capacity.
    pub open spec fn wf(self) -> bool {
        &&& self.levels().len() == self.height()
        &&& forall|k: int|
            0 <= k && k + 1 < self.height() ==> level_complete(
                self.algorithm(),
                #[trigger] self.levels()[k],
                self.levels()[k + 1],
            )
        &&& self.leaf_count() < pow2(self.height())
    }

    /// Creates an empty accumulator with `max_height` levels and a hash
    /// algorithm, both fixed for its lifetime.
    pub fn new(max_height: usize, hash_type: HashType) -> (m: MerkleMountainRange)
        ensures
            m.wf(),
            m.height() == max_height,
            m.algorithm() == hash_type,
            m.leaf_count() == 0,
            forall|k: int| 0 <= k < max_height ==> #[trigger] m.levels()[k].len() == 0,
    {
        let mut layers: Vec<Vec<Digest>> = Vec::new();
        let mut i: usize = 0;
        while i < max_height
            invariant
                i <= max_height,
                layers@.len() == i,
                forall|k: int| 0 <= k < i ==> #[trigger] layers@[k]@.len() == 0,
            decreases max_height - i,
        {
            layers.push(Vec::new());
            i += 1;
        }
        let m = MerkleMountainRange { layers, max_height, hash_type };
        proof {
            lemma_pow2_pos(max_height as nat);
            assert forall|k: int| 0 <= k < max_height implies #[trigger] m.levels()[k].len()
                == 0 by {
                assert(m.levels()[k] == digests_view(m.layers@[k]@));
            }
        }
        m
    }

    /// Applies the accumulator's algorithm to an arbitrary-length byte
    /// slice, returning the digest a leaf of that data would hold.
    pub fn compute_hash(&self, data: &[u8]) -> (d: Digest)
        ensures
            d@ == hash_of(self.algorithm(), data@),
    {
        digest_bytes(self.hash_type, data)
    }

    /// The leaf digests appended so far, oldest first.
    pub open spec fn leaves(self) -> Seq<Seq<u8>> {
        if self.height() == 0 {
            Seq::empty()
        } else {
            self.levels()[0]
        }
    }

    /// The current peak digests, in increasing level order: the last entry
    /// of every level whose length is odd.
    pub open spec fn spec_peaks(self) -> Seq<Seq<u8>> {
        peaks_upto(self.levels(), self.height() as int)
    }

    /// The root digest of the current state: the peaks folded low-to-high.
    /// Meaningful only while at least one leaf has been appended.
    pub open spec fn spec_root(self) -> Seq<u8> {
        fold_peaks(self.algorithm(), self.spec_peaks())
    }

    /// A non-empty accumulator has at least one peak: the level of the leaf
    /// count's highest set bit holds exactly one node.
    pub proof fn lemma_peaks_nonempty(self)
        requires
            self.wf(),
            self.leaf_count() > 0,
        ensures
            self.spec_peaks().len() >= 1,
    {
        let s = self.levels();
        let n = self.leaf_count();
        let h = self.height();
        lemma_top_level_exists(n, h);
        let t = choose|t: nat| t < h && #[trigger] (n / pow2(t)) == 1;
        lemma_level_len(s, self.algorithm(), t as int, h as int - 1);
        assert(s[t as int].len() == 1);
        lemma_peak_in_peaks_upto(s, t as int, h as int);
    }

    /// The carry state of the pair at level `k` while an append propagates:
    /// either the pair is complete, or the level ends in an even pair whose
    /// fold is still owed to the level above.
    pub open spec fn carry_state(alg: HashType, s: Seq<Seq<Seq<u8>>>, k: int) -> bool {
        if s[k].len() % 2 == 0 && s[k].len() >= 2 {
            level_pending(alg, s[k], s[k + 1])
        } else {
            level_complete(alg, s[k], s[k + 1])
        }
    }

    /// Appends one leaf digest at level 0 and folds newly completed pairs
    /// upward until a level is left with an unpaired node. Reports a
    /// capacity-exceeded error, leaving the state untouched, instead of
    /// growing past `2^height - 1` leaves.
    pub fn append_leaf(&mut self, leaf: Digest) -> (result: Result<(), MmrError>)
        requires
            old(self).wf(),
        ensures
            final(self).wf(),
            final(self).height() == old(self).height(),
            final(self).algorithm() == old(self).algorithm(),
            match result {
                Ok(()) => {
                    &&& old(self).leaf_count() + 1 < pow2(old(self).height())
                    &&& final(self).leaf_count() == old(self).leaf_count() + 1
                    &&& final(self).leaves() == old(self).leaves().push(leaf@)
                },
                Err(e) => {
                    &&& e == MmrError::CapacityExceeded
                    &&& old(self).leaf_count() + 1 >= pow2(old(self).height())
                    &&& *final(self) == *old(self)
                },
            },
    {
        if self.max_height == 0 {
            proof {
                assert(pow2(0) == 1) by {
                    lemma2_to64();
                }
            }
            return Err(MmrError::CapacityExceeded);
        }
        let count = self.layers[0].len();
        if capacity_reached(count, self.max_height) {
            return Err(MmrError::CapacityExceeded);
        }
        let ghost pre = self.levels();
        self.layers[0].push(leaf);
        proof {
            let post = self.levels();
            assert(post[0] =~= pre[0].push(leaf@));
            assert forall|t: int| 1 <= t < post.len() implies post[t] == pre[t] by {}
            if self.max_height > 1 {
                lemma_push_keeps_or_owes(self.hash_type, pre[0], pre[1], leaf@);
            }
        }
        self.build_peaks();
        Ok(())
    }

    /// Appends a leaf holding the digest of `data` under the accumulator's
    /// algorithm; otherwise exactly like appending the digest itself.
    pub fn append_data(&mut self, data: &[u8]) -> (result: Result<(), MmrError>)
        requires
            old(self).wf(),
        ensures
            final(self).wf(),
            final(self).height() == old(self).height(),
            final(self).algorithm() == old(self).algorithm(),
            match result {
                Ok(()) => {
                    &&& old(self).leaf_count() + 1 < pow2(old(self).height())
                    &&& final(self).leaf_count() == old(self).leaf_count() + 1
                    &&& final(self).leaves() == old(self).leaves().push(
                        hash_of(old(self).algorithm(), data@),
                    )
                },
                Err(e) => {
                    &&& e == MmrError::CapacityExceeded
                    &&& old(self).leaf_count() + 1 >= pow2(old(self).height())
                    &&& *final(self) == *old(self)
                },
            },
    {
        let d = self.compute_hash(data);
        self.append_leaf(d)
    }

    /// The digest at position `index` of level `level`, if the level exists
    /// and holds that many nodes; the absent value otherwise.
    pub fn get_node(&self, level: usize, index: usize) -> (result: Option<Digest>)
        requires
            self.wf(),
        ensures
            match result {
                Some(d) => {
                    &&& level < self.height()
                    &&& index < self.levels()[level as int].len()
                    &&& d@ == self.levels()[level as int][index as int]
                },
                None => level >= self.height() || index >= self.levels()[level as int].len(),
            },
    {
        if level >= self.max_height {
            return None;
        }
        if index < self.layers[level].len() {
            Some(self.layers[level][index])
        } else {
            None
        }
    }

    /// A read-only view of one whole level, if it exists: the snapshot a
    /// rendering collaborator draws from.
    pub fn get_level(&self, level: usize) -> (result: Option<&Vec<Digest>>)
        requires
            self.wf(),
        ensures
            match result {
                Some(nodes) => {
                    &&& level < self.height()
                    &&& digests_view(nodes@) == self.levels()[level as int]
                },
                None => level >= self.height(),
            },
    {
        if level >= self.max_height {
            return None;
        }
        Some(&self.layers[level])
    }

    /// The current peaks in increasing level order, or the absent value on
    /// an empty accumulator.
    pub fn get_peaks(&self) -> (result: Option<Vec<Digest>>)
        requires
            self.wf(),
        ensures
            match result {
                Some(peaks) => {
                    &&& self.leaf_count() > 0
                    &&& digests_view(peaks@) == self.spec_peaks()
                    &&& peaks@.len() >= 1
                },
                None => self.leaf_count() == 0,
            },
    {
        if self.max_height == 0 {
            return None;
        }
        if self.layers[0].len() == 0 {
            return None;
        }
        let mut peaks: Vec<Digest> = Vec::new();
        let mut level: usize = 0;
        while level < self.max_height
            invariant
                self.wf(),
                level <= self.max_height,
                digests_view(peaks@) =~= peaks_upto(self.levels(), level as int),
            decreases self.max_height - level,
        {
            let len = self.layers[level].len();
            if len % 2 == 1 {
                peaks.push(self.layers[level][len - 1]);
            }
            level += 1;
        }
        proof {
            self.lemma_peaks_nonempty();
        }
        Some(peaks)
    }

    /// The root digest: the peaks folded left-to-right, lowest level first,
    /// each higher peak combined in as the right child. The absent value on
    /// an empty accumulator.
    pub fn compute_root(&self) -> (result: Option<Digest>)
        requires
            self.wf(),
        ensures
            match result {
                Some(root) => {
                    &&& self.leaf_count() > 0
                    &&& root@ == self.spec_root()
                },
                None => self.leaf_count() == 0,
            },
    {
        let peaks = match self.get_peaks() {
            None => {
                return None;
            },
            Some(peaks) => peaks,
        };
        let mut root = peaks[0];
        let ghost view = digests_view(peaks@);
        proof {
            assert(view.take(1) =~= seq![view[0]]);
        }
        let mut i: usize = 1;
        while i < peaks.len()
            invariant
                1 <= i <= peaks.len(),
                view == digests_view(peaks@),
                view == self.spec_peaks(),
                root@ == fold_peaks(self.algorithm(), view.take(i as int)),
                self.hash_type == self.algorithm(),
            decreases peaks.len() - i,
        {
            proof {
                lemma_fold_peaks_take_step(self.algorithm(), view, i as int);
            }
            root = combine_digests(self.hash_type, &root, &peaks[i]);
            i += 1;
        }
        proof {
            assert(view.take(peaks@.len() as int) =~= view);
        }
        Some(root)
    }

    /// The highest level holding any node: the position of the leaf count's
    /// highest set bit. The absent value on an empty accumulator.
    pub fn top_level(&self) -> (result: Option<usize>)
        requires
            self.wf(),
        ensures
            match result {
                Some(top) => {
                    &&& self.leaf_count() > 0
                    &&& top < self.height()
                    &&& pow2(top as nat) <= self.leaf_count() < pow2(top as nat + 1)
                    &&& self.levels()[top as int].len() >= 1
                    &&& forall|k: int|
                        top < k < self.height() ==> #[trigger] self.levels()[k].len() == 0
                },
                None => self.leaf_count() == 0,
            },
    {
        if self.max_height == 0 {
            return None;
        }
        let n = self.layers[0].len();
        if n == 0 {
            return None;
        }
        proof {
            lemma2_to64();
            vstd::arithmetic::div_mod::lemma_div_basics(n as int);
        }
        let mut top: usize = 0;
        let mut m: usize = n;
        while m >= 2
            invariant
                self.wf(),
                n == self.leaf_count(),
                m == n as nat / pow2(top as nat),
                m >= 1,
                pow2(top as nat) <= n,
            decreases m,
        {
            proof {
                crate::arith::lemma_halve_quotient(n as nat, top as nat);
                lemma_full_pair_below_height(n as nat, top as nat, self.height());
                lemma_nonempty_level_below_height(n as nat, top as nat + 1, self.height());
            }
            m = m / 2;
            top = top + 1;
        }
        proof {
            lemma_pow2_pos(top as nat);
            crate::arith::lemma_quotient_one(n as nat, pow2(top as nat));
            lemma_pow2_unfold(top as nat + 1);
            lemma_nonempty_level_below_height(n as nat, top as nat, self.height());
            lemma_level_len(self.levels(), self.algorithm(), top as int, self.height() as int - 1);
            assert forall|k: int| top < k < self.height() implies #[trigger] self.levels()[k].len()
                == 0 by {
                lemma_level_len(self.levels(), self.algorithm(), k, self.height() as int - 1);
                lemma_pow2_mono(top as nat + 1, k as nat);
                vstd::arithmetic::div_mod::lemma_basic_div(n as int, pow2(k as nat) as int);
            }
        }
        Some(top)
    }

    /// The sibling digests needed to recompute, from the leaf at
    /// `leaf_index`, the peak that contains it: one sibling per level, from
    /// the leaf's level up to (but not including) that peak. The absent
    /// value when no such leaf exists.
    pub fn generate_proof(&self, leaf_index: usize) -> (result: Option<Vec<Digest>>)
        requires
            self.wf(),
        ensures
            match result {
                Some(path) => {
                    &&& leaf_index < self.leaf_count()
                    &&& digests_view(path@) == sibling_path(self.levels(), 0, leaf_index as int)
                },
                None => leaf_index >= self.leaf_count(),
            },
    {
        if self.max_height == 0 {
            return None;
        }
        if leaf_index >= self.layers[0].len() {
            return None;
        }
        let ghost s = self.levels();
        let ghost n = self.leaf_count();
        let mut path: Vec<Digest> = Vec::new();
        let mut level: usize = 0;
        let mut idx: usize = leaf_index;
        proof {
            lemma2_to64();
            vstd::arithmetic::div_mod::lemma_div_basics(n as int);
        }
        loop
            invariant
                self.wf(),
                s == self.levels(),
                n == self.leaf_count(),
                0 <= level < self.height(),
                idx < s[level as int].len(),
                s[level as int].len() == n / pow2(level as nat),
                sibling_path(s, 0, leaf_index as int) =~= digests_view(path@) + sibling_path(
                    s,
                    level as int,
                    idx as int,
                ),
            ensures
                digests_view(path@) =~= sibling_path(s, 0, leaf_index as int),
            decreases self.height() - level,
        {
            let len = self.layers[level].len();
            if idx == len - 1 && idx % 2 == 0 {
                break;
            }
            proof {
                lemma_half_lt(idx as int, len as int);
                lemma_halve_quotient(n, level as nat);
                lemma_nonempty_level_below_height(n, level as nat + 1, self.height());
            }
            let sibling = if idx % 2 == 0 {
                self.layers[level][idx + 1]
            } else {
                self.layers[level][idx - 1]
            };
            proof {
                assert(digests_view(path@.push(sibling)) =~= digests_view(path@) + seq![
                    sibling@,
                ]);
            }
            path.push(sibling);
            idx = idx / 2;
            level = level + 1;
        }
        Some(path)
    }

    /// Checks an inclusion proof in two parts: the leaf is walked up through
    /// the sibling digests of `path` and the resulting digest must appear
    /// among the caller-supplied `peaks`; independently, those peaks, folded
    /// low-to-high, must equal `root`. Both parts trust the supplied peaks:
    /// the check is only as strong as their provenance, since the peaks are
    /// not derived from the root or from the proof itself.
    pub fn verify_proof(
        &self,
        root: Digest,
        peaks: &[Digest],
        path: &[Digest],
        leaf: Digest,
        leaf_index: usize,
    ) -> (result: bool)
        requires
            peaks@.len() >= 1,
        ensures
            result == proof_accepted(
                self.algorithm(),
                root@,
                digests_view(peaks@),
                digests_view(path@),
                leaf@,
                leaf_index as int,
            ),
    {
        let ghost alg = self.algorithm();
        let ghost path_view = digests_view(path@);
        let mut current = leaf;
        let mut idx: usize = leaf_index;
        let mut i: usize = 0;
        proof {
            assert(path_view.skip(0) =~= path_view);
        }
        while i < path.len()
            invariant
                i <= path@.len(),
                path_view == digests_view(path@),
                alg == self.algorithm(),
                walk(alg, leaf@, path_view, leaf_index as int) == walk(
                    alg,
                    current@,
                    path_view.skip(i as int),
                    idx as int,
                ),
            decreases path@.len() - i,
        {
            let sibling = path[i];
            current = if idx % 2 == 0 {
                combine_digests(self.hash_type, &current, &sibling)
            } else {
                combine_digests(self.hash_type, &sibling, &current)
            };
            idx = idx / 2;
            i += 1;
            proof {
                assert(path_view.skip(i - 1).drop_first() =~= path_view.skip(i as int));
            }
        }
        proof {
            assert(path_view.skip(path@.len() as int) =~= Seq::<Seq<u8>>::empty());
        }
        let mut found = false;
        let mut j: usize = 0;
        while j < peaks.len()
            invariant
                j <= peaks@.len(),
                found <==> exists|t: int|
                    0 <= t < j && #[trigger] digests_view(peaks@)[t] == current@,
            decreases peaks@.len() - j,
        {
            proof {
                assert(digests_view(peaks@)[j as int] == peaks@[j as int]@);
            }
            if peaks[j].equals(&current) {
                found = true;
            }
            j += 1;
        }
        let ghost peaks_view = digests_view(peaks@);
        let mut folded = peaks[0];
        proof {
            assert(peaks_view.take(1) =~= seq![peaks_view[0]]);
        }
        let mut p: usize = 1;
        while p < peaks.len()
            invariant
                1 <= p <= peaks@.len(),
                peaks_view == digests_view(peaks@),
                alg == self.algorithm(),
                folded@ == fold_peaks(alg, peaks_view.take(p as int)),
            decreases peaks@.len() - p,
        {
            proof {
                lemma_fold_peaks_take_step(alg, peaks_view, p as int);
            }
            folded = combine_digests(self.hash_type, &folded, &peaks[p]);
            p += 1;
        }
        proof {
            assert(peaks_view.take(peaks@.len() as int) =~= peaks_view);
        }
        found && root.equals(&folded)
    }

    /// Carry propagation: starting at level 0, as long as the current level
    /// ends in an unconsumed even pair, fold that pair into one node of the
    /// level above and move up; stop at the first level left with an odd or
    /// empty tail.
    fn build_peaks(&mut self)
        requires
            old(self).levels().len() == old(self).height(),
            old(self).height() >= 1,
            1 <= old(self).leaf_count(),
            old(self).leaf_count() < pow2(old(self).height()),
            forall|k: int|
                1 <= k && k + 1 < old(self).height() ==> level_complete(
                    old(self).algorithm(),
                    #[trigger] old(self).levels()[k],
                    old(self).levels()[k + 1],
                ),
            old(self).height() > 1 ==> Self::carry_state(
                old(self).algorithm(),
                old(self).levels(),
                0,
            ),
        ensures
            final(self).wf(),
            final(self).height() == old(self).height(),
            final(self).algorithm() == old(self).algorithm(),
            final(self).levels()[0] == old(self).levels()[0],
    {
        let ghost alg = self.hash_type;
        let ghost h = self.max_height as int;
        let ghost n = self.levels()[0].len();
        let ghost level0 = self.levels()[0];
        let mut level: usize = 0;
        loop
            invariant
                self.hash_type == alg,
                self.max_height as int == h,
                self.layers@.len() == h,
                0 <= level < h,
                self.levels()[0] == level0,
                n == level0.len(),
                1 <= n < pow2(h as nat),
                forall|k: int|
                    0 <= k < level ==> level_complete(
                        alg,
                        #[trigger] self.levels()[k],
                        self.levels()[k + 1],
                    ),
                forall|k: int|
                    level < k && k + 1 < h ==> level_complete(
                        alg,
                        #[trigger] self.levels()[k],
                        self.levels()[k + 1],
                    ),
                level + 1 < h ==> Self::carry_state(alg, self.levels(), level as int),
            ensures
                self.hash_type == alg,
                self.max_height as int == h,
                self.layers@.len() == h,
                self.levels()[0] == level0,
                forall|k: int|
                    0 <= k && k + 1 < h ==> level_complete(
                        alg,
                        #[trigger] self.levels()[k],
                        self.levels()[k + 1],
                    ),
            decreases h - level,
        {
            let len = self.layers[level].len();
            if len < 2 || len % 2 != 0 {
                break;
            }
            proof {
                lemma_level_len(self.levels(), alg, level as int, level as int);
                lemma_full_pair_below_height(n, level as nat, self.max_height as nat);
            }
            let left = self.layers[level][len - 2];
            let right = self.layers[level][len - 1];
            let parent = combine_digests(self.hash_type, &left, &right);
            let ghost pre = self.levels();
            self.layers[level + 1].push(parent);
            proof {
                let post = self.levels();
                assert(post[level + 1] =~= pre[level + 1].push(parent@));
                assert forall|t: int| 0 <= t < h && t != level + 1 implies post[t] == pre[t] by {}
                assert(level_complete(alg, post[level as int], post[level + 1])) by {
                    lemma_fold_completes(alg, pre[level as int], pre[level + 1]);
                }
                if level + 2 < h {
                    lemma_push_keeps_or_owes(alg, pre[level + 1], pre[level + 2], parent@);
                }
            }
            level = level + 1;
        }
    }
}

/// Whether one more leaf would not fit: with `count` leaves stored and
/// `height` levels configured, reports whether `count + 1` reaches `2^height`.
fn capacity_reached(count: usize, height: usize) -> (r: bool)
    requires
        count < pow2(height as nat),
    ensures
        r <==> count + 1 >= pow2(height as nat),
{
    if height >= 64 {
        proof {
            lemma2_to64();
            if height > 64 {
                lemma_pow2_strictly_increases(64, height as nat);
            }
            assert(count <= u64::MAX);
        }
        count as u64 == u64::MAX && height == 64
    } else {
        proof {
            lemma2_to64();
        }
        let mut cap: u64 = 1;
        let mut i: usize = 0;
        while i < height
            invariant
                i <= height < 64,
                cap == pow2(i as nat),
            decreases height - i,
        {
            proof {
                lemma_pow2_mono((i + 1) as nat, 63);
                lemma2_to64_rest();
                lemma_pow2_unfold((i + 1) as nat);
            }
            cap = cap * 2;
            i += 1;
        }
        proof {
            lemma_pow2_mono(height as nat, 63);
            lemma2_to64_rest();
        }
        count as u64 + 1 >= cap
    }
}

} // verus!
