//! Rolling hash fingerprints over windows of consecutive lines.
//!
//! Each window of `min_match` consecutive line hashes is fingerprinted by
//! the XOR of its members; sliding the window by one line removes the
//! outgoing hash and adds the incoming one.
use vstd::prelude::*;

use crate::paths::{path_eq, same_path};
pub use crate::grouping::DuplicateGroup;

verus! {

/// XOR of the hashes `s[lo..hi]` (zero when the range is empty).
pub open spec fn xor_range(s: Seq<u64>, lo: int, hi: int) -> u64
    decreases hi - lo,
{
    if hi <= lo {
        0u64
    } else {
        xor_range(s, lo, hi - 1) ^ s[hi - 1]
    }
}

/// The XOR of a range can also be unfolded from its first element.
pub proof fn lemma_xor_range_front(s: Seq<u64>, lo: int, hi: int)
    requires
        lo < hi,
    ensures
        xor_range(s, lo, hi) == s[lo] ^ xor_range(s, lo + 1, hi),
    decreases hi - lo,
{
    if hi == lo + 1 {
        let a = s[lo];
        assert(xor_range(s, lo, lo) == 0u64);
        assert(xor_range(s, lo + 1, lo + 1) == 0u64);
        assert(0u64 ^ a == a && a ^ 0u64 == a) by (bit_vector);
    } else {
        lemma_xor_range_front(s, lo, hi - 1);
        let a = s[lo];
        let b = xor_range(s, lo + 1, hi - 1);
        let c = s[hi - 1];
        assert((a ^ b) ^ c == a ^ (b ^ c)) by (bit_vector);
    }
}

/// Sliding a window by one position: the new fingerprint is the old one with
/// the outgoing hash removed and the incoming hash added.
pub proof fn lemma_xor_range_slide(s: Seq<u64>, lo: int, hi: int)
    requires
        lo < hi,
    ensures
        xor_range(s, lo + 1, hi + 1) == (xor_range(s, lo, hi) ^ s[lo]) ^ s[hi],
{
    lemma_xor_range_front(s, lo, hi);
    let a = s[lo];
    let b = xor_range(s, lo + 1, hi);
    assert((a ^ b) ^ a == b) by (bit_vector);
}

/// A range's fingerprint depends only on the hashes inside it.
pub proof fn lemma_xor_range_local(s: Seq<u64>, t: Seq<u64>, lo: int, hi: int)
    requires
        forall|i: int| lo <= i < hi ==> s[i] == t[i],
    ensures
        xor_range(s, lo, hi) == xor_range(t, lo, hi),
    decreases hi - lo,
{
    if lo < hi {
        lemma_xor_range_local(s, t, lo, hi - 1);
    }
}

/// XOR is commutative: swapping two neighbouring lines inside a window does
/// not change its fingerprint, so reordered lines are not told apart.
pub proof fn lemma_xor_range_swap_invariant(s: Seq<u64>, lo: int, hi: int, k: int)
    requires
        0 <= lo <= k,
        k + 1 < hi,
        hi <= s.len(),
    ensures
        xor_range(s.update(k, s[k + 1]).update(k + 1, s[k]), lo, hi) == xor_range(s, lo, hi),
    decreases hi - lo,
{
    let t = s.update(k, s[k + 1]).update(k + 1, s[k]);
    if hi - 1 > k + 1 {
        lemma_xor_range_swap_invariant(s, lo, hi - 1, k);
        assert(t[hi - 1] == s[hi - 1]);
    } else {
        lemma_xor_range_local(s, t, lo, k);
        let p = xor_range(s, lo, k);
        let a = s[k];
        let b = s[k + 1];
        assert(xor_range(s, lo, k + 1) == p ^ a);
        assert(xor_range(t, lo, k + 1) == p ^ b);
        assert(xor_range(s, lo, k + 2) == (p ^ a) ^ b);
        assert(xor_range(t, lo, k + 2) == (p ^ b) ^ a);
        assert((p ^ a) ^ b == (p ^ b) ^ a) by (bit_vector);
    }
}

/// XOR of all the hashes of `s`.
pub open spec fn xor_all(s: Seq<u64>) -> u64 {
    xor_range(s, 0, s.len() as int)
}

proof fn lemma_xor_all_push(q: Seq<u64>, e: u64)
    ensures
        xor_all(q.push(e)) == xor_all(q) ^ e,
{
    lemma_xor_range_local(q.push(e), q, 0, q.len() as int);
}

proof fn lemma_xor_all_remove(s: Seq<u64>, p: int)
    requires
        0 <= p < s.len(),
    ensures
        xor_all(s) == xor_all(s.remove(p)) ^ s[p],
    decreases s.len(),
{
    let n = s.len() - 1;
    let t = s.drop_last();
    assert(s =~= t.push(s[n]));
    lemma_xor_all_push(t, s[n]);
    if p == n {
        assert(s.remove(p) =~= t);
    } else {
        lemma_xor_all_remove(t, p);
        assert(s.remove(p) =~= t.remove(p).push(s[n]));
        lemma_xor_all_push(t.remove(p), s[n]);
        let x = xor_all(t.remove(p));
        let a = s[p];
        let b = s[n];
        assert(t[p] == s[p]);
        assert((x ^ a) ^ b == (x ^ b) ^ a) by (bit_vector);
    }
}

/// Reordering hashes does not change their XOR.
pub proof fn lemma_xor_all_permutation(a: Seq<u64>, b: Seq<u64>)
    requires
        a.to_multiset() == b.to_multiset(),
    ensures
        xor_all(a) == xor_all(b),
    decreases a.len(),
{
    broadcast use vstd::seq_lib::group_to_multiset_ensures;
    broadcast use vstd::multiset::group_multiset_axioms;

    if a.len() == 0 {
        assert(b.to_multiset().len() == 0);
    } else {
        let n = a.len() - 1;
        let e = a[n];
        let t = a.drop_last();
        assert(a =~= t.push(e));
        assert(a.to_multiset() =~= t.to_multiset().insert(e));
        assert(a.to_multiset().count(e) > 0);
        assert(b.contains(e));
        let p = choose|p: int| 0 <= p < b.len() && b[p] == e;
        assert(b.remove(p).to_multiset() == b.to_multiset().remove(e));
        assert(t.to_multiset() =~= b.remove(p).to_multiset());
        lemma_xor_all_permutation(t, b.remove(p));
        lemma_xor_all_remove(b, p);
        lemma_xor_all_push(t, e);
    }
}

proof fn lemma_xor_range_subrange(s: Seq<u64>, lo: int, hi: int)
    requires
        0 <= lo <= hi <= s.len(),
    ensures
        xor_range(s, lo, hi) == xor_all(s.subrange(lo, hi)),
    decreases hi - lo,
{
    if lo < hi {
        lemma_xor_range_subrange(s, lo, hi - 1);
        assert(s.subrange(lo, hi) =~= s.subrange(lo, hi - 1).push(s[hi - 1]));
        lemma_xor_all_push(s.subrange(lo, hi - 1), s[hi - 1]);
    } else {
        assert(s.subrange(lo, hi).len() == 0);
    }
}

/// The fingerprint of a window ignores the order of its lines: two windows
/// holding the same hashes, in any order, get the same fingerprint.
pub proof fn lemma_window_order_ignored(s1: Seq<u64>, s2: Seq<u64>, lo: int, hi: int)
    requires
        0 <= lo <= hi,
        hi <= s1.len(),
        hi <= s2.len(),
        s1.subrange(lo, hi).to_multiset() == s2.subrange(lo, hi).to_multiset(),
    ensures
        xor_range(s1, lo, hi) == xor_range(s2, lo, hi),
{
    lemma_xor_range_subrange(s1, lo, hi);
    lemma_xor_range_subrange(s2, lo, hi);
    lemma_xor_all_permutation(s1.subrange(lo, hi), s2.subrange(lo, hi));
}

/// No two of `names` name the same path.
pub open spec fn distinct_paths(names: Seq<Seq<char>>) -> bool {
    forall|i: int, j: int| 0 <= i < j < names.len() ==> !#[trigger] same_path(names[i], names[j])
}

/// Some entry of `names` names the same path as `p`.
pub open spec fn path_known(names: Seq<Seq<char>>, p: Seq<char>) -> bool {
    exists|k: int| 0 <= k < names.len() && #[trigger] same_path(names[k], p)
}

/// Maps file paths to compact sequential numbers and back.
///
/// File numbers are 0-based and assigned in registration order; no path
/// is registered twice, paths being compared as std's `Path` compares them.
pub struct FileRegistry {
    num_to_name: Vec<String>,
}

impl FileRegistry {
    /// The registered paths, indexed by their file number.
    pub closed spec fn names(&self) -> Seq<Seq<char>> {
        self.num_to_name@.map_values(|s: String| s@)
    }

    #[verifier::type_invariant]
    closed spec fn distinct_names(&self) -> bool {
        distinct_paths(self.names())
    }

    /// Creates an empty file registry.
    pub fn new() -> (reg: Self)
        ensures
            reg.names() == Seq::<Seq<char>>::empty(),
            distinct_paths(reg.names()),
    {
        let reg = FileRegistry { num_to_name: Vec::new() };
        assert(reg.names() =~= Seq::<Seq<char>>::empty());
        reg
    }

    /// Registers a file path and returns its assigned number.
    /// If the path is already registered, returns the existing number.
    pub fn register(&mut self, path: String) -> (num: usize)
        ensures
            num < final(self).names().len(),
            same_path(final(self).names()[num as int], path@),
            forall|k: int| 0 <= k < num ==> !#[trigger] same_path(old(self).names()[k], path@),
            forall|k: int|
                0 <= k < final(self).names().len() && #[trigger] same_path(final(self).names()[k], path@)
                    ==> k == num,
            distinct_paths(final(self).names()),
            path_known(old(self).names(), path@) ==> {
                &&& final(self).names() == old(self).names()
                &&& num < old(self).names().len()
            },
            !path_known(old(self).names(), path@) ==> {
                &&& final(self).names() == old(self).names().push(path@)
                &&& num == old(self).names().len()
            },
    {
        proof {
            use_type_invariant(&*self);
        }
        let ghost names = self.names();
        let n = self.num_to_name.len();
        let mut i: usize = 0;
        while i < n
            invariant
                n == self.num_to_name@.len(),
                names == self.names(),
                distinct_paths(names),
                i <= n,
                forall|k: int| 0 <= k < i ==> !#[trigger] same_path(names[k], path@),
            decreases n - i,
        {
            if path_eq(self.num_to_name[i].as_str(), path.as_str()) {
                assert(names[i as int] == self.num_to_name@[i as int]@);
                assert(same_path(names[i as int], path@));
                assert forall|k: int| 0 <= k < names.len() && #[trigger] same_path(names[k], path@) implies k
                    == i by {
                    assert(same_path(path@, names[k]));
                    assert(same_path(names[i as int], names[k]));
                    if k < i {
                        assert(!same_path(names[k], names[i as int]));
                    } else if k > i {
                        assert(!same_path(names[i as int], names[k]));
                    }
                }
                return i;
            }
            assert(names[i as int] == self.num_to_name@[i as int]@);
            i = i + 1;
        }
        assert(!path_known(names, path@));
        let mut v: Vec<String> = Vec::new();
        std::mem::swap(&mut v, &mut self.num_to_name);
        v.push(path);
        assert(v@.map_values(|s: String| s@) =~= names.push(path@));
        proof {
            let nn = names.push(path@);
            assert forall|a: int, b: int| 0 <= a < b < nn.len() implies !#[trigger] same_path(
                nn[a],
                nn[b],
            ) by {
                if b == names.len() {
                    assert(nn[a] == names[a]);
                    assert(nn[b] == path@);
                } else {
                    assert(nn[a] == names[a]);
                    assert(nn[b] == names[b]);
                }
            }
        }
        self.num_to_name = v;
        assert(self.names() =~= names.push(path@));
        n
    }

    /// Returns the path for a given file number.
    pub fn get_path(&self, file_num: usize) -> (path: &str)
        requires
            file_num < self.names().len(),
        ensures
            path@ == self.names()[file_num as int],
    {
        self.num_to_name[file_num].as_str()
    }

    /// Returns the number of registered files.
    pub fn len(&self) -> (n: usize)
        ensures
            n == self.names().len(),
    {
        self.num_to_name.len()
    }
}

/// A window of consecutive lines and its rolling fingerprint.
#[derive(Debug, Clone, Copy, PartialEq, Eq, Structural)]
pub struct BlockDescriptor {
    /// XOR of per-line hashes for this window.
    pub hash: u64,
    /// File number from the FileRegistry.
    pub file_num: usize,
    /// Starting line index (0-based, inclusive).
    pub start: usize,
    /// Ending line index (0-based, exclusive).
    pub end: usize,
}

/// Computes rolling XOR hash blocks over a sliding window of `min_match` lines.
///
/// Returns one `BlockDescriptor` per window position. If the file has fewer
/// than `min_match` lines, or `min_match` is zero, returns an empty Vec.
pub fn compute_rolling_hashes(hashes: &[u64], file_num: usize, min_match: usize) -> (blocks: Vec<
    BlockDescriptor,
>)
    ensures
        (hashes@.len() < min_match || min_match == 0) ==> blocks@.len() == 0,
        (min_match > 0 && hashes@.len() >= min_match) ==> blocks@.len() == hashes@.len()
            - min_match + 1,
        forall|i: int|
            #![trigger blocks@[i]]
            0 <= i < blocks@.len() ==> {
                &&& blocks@[i].hash == xor_range(hashes@, i, i + min_match)
                &&& blocks@[i].file_num == file_num
                &&& blocks@[i].start == i
                &&& blocks@[i].end == i + min_match
            },
{
    let n: usize = hashes.len();
    if n < min_match || min_match == 0 {
        return Vec::new();
    }
    let num_blocks: usize = n - min_match + 1;
    let mut blocks: Vec<BlockDescriptor> = Vec::with_capacity(num_blocks);

    // The first window's hash
    let mut current_hash: u64 = 0;
    let mut k: usize = 0;
    while k < min_match
        invariant
            k <= min_match <= n,
            n == hashes@.len(),
            current_hash == xor_range(hashes@, 0, k as int),
        decreases min_match - k,
    {
        current_hash = current_hash ^ hashes[k];
        k = k + 1;
    }
    blocks.push(BlockDescriptor { hash: current_hash, file_num, start: 0, end: min_match });

    // Slide the window: remove the outgoing line, add the incoming line
    let mut i: usize = 1;
    while i < num_blocks
        invariant
            1 <= i <= num_blocks,
            num_blocks == n - min_match + 1,
            0 < min_match <= n,
            n == hashes@.len(),
            blocks@.len() == i,
            current_hash == xor_range(hashes@, i - 1, i - 1 + min_match),
            forall|j: int|
                #![trigger blocks@[j]]
                0 <= j < blocks@.len() ==> {
                    &&& blocks@[j].hash == xor_range(hashes@, j, j + min_match)
                    &&& blocks@[j].file_num == file_num
                    &&& blocks@[j].start == j
                    &&& blocks@[j].end == j + min_match
                },
        decreases num_blocks - i,
    {
        proof {
            lemma_xor_range_slide(hashes@, i - 1, i - 1 + min_match);
        }
        current_hash = current_hash ^ hashes[i - 1];
        current_hash = current_hash ^ hashes[i + min_match - 1];
        blocks.push(BlockDescriptor { hash: current_hash, file_num, start: i, end: i + min_match });
        i = i + 1;
    }
    assert(blocks@.len() == num_blocks);
    blocks
}

} // verus!
