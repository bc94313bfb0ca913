//! Disjoint-set structure used to consolidate matched regions.
//!
//! Every element carries the label of its set; `union` relabels one set
//! with the label of the other, so two elements are in the same set exactly
//! when their labels agree.
use vstd::prelude::*;

verus! {

/// The labels after merging the set of `b` into the set of `a`.
pub open spec fn relabel(l: Seq<usize>, a: int, b: int) -> Seq<usize> {
    Seq::new(l.len(), |i: int| if l[i] == l[b] { l[a] } else { l[i] })
}

/// The labels of `n` elements, each first alone in its set, after applying
/// the merges in `unions` in order.
pub open spec fn labels_after(unions: Seq<(usize, usize)>, n: nat) -> Seq<usize>
    decreases unions.len(),
{
    if unions.len() == 0 {
        Seq::new(n, |i: int| i as usize)
    } else {
        relabel(labels_after(unions.drop_last(), n), unions.last().0 as int, unions.last().1 as int)
    }
}

/// Every merge joins elements below `n`.
pub open spec fn unions_within(unions: Seq<(usize, usize)>, n: nat) -> bool {
    forall|k: int| 0 <= k < unions.len() ==> #[trigger] unions[k].0 < n && unions[k].1 < n
}

/// A labelling `f` that puts the two ends of every merge in one class.
pub open spec fn respects(f: spec_fn(int) -> int, unions: Seq<(usize, usize)>) -> bool {
    forall|k: int| 0 <= k < unions.len() ==> f(#[trigger] unions[k].0 as int) == f(unions[k].1 as int)
}

/// `i` and `j` are joined by a chain of merges: every labelling that keeps
/// each merged pair together also keeps `i` and `j` together.
pub open spec fn connected(unions: Seq<(usize, usize)>, i: int, j: int) -> bool {
    forall|f: spec_fn(int) -> int| #[trigger] respects(f, unions) ==> f(i) == f(j)
}

proof fn lemma_labels_len(unions: Seq<(usize, usize)>, n: nat)
    ensures
        labels_after(unions, n).len() == n,
    decreases unions.len(),
{
    if unions.len() > 0 {
        lemma_labels_len(unions.drop_last(), n);
    }
}

/// Every label names an element: labels stay below `n`.
pub proof fn lemma_labels_bounded(unions: Seq<(usize, usize)>, n: nat)
    requires
        n <= usize::MAX,
        unions_within(unions, n),
    ensures
        labels_after(unions, n).len() == n,
        forall|i: int| 0 <= i < n ==> (#[trigger] labels_after(unions, n)[i]) < n,
    decreases unions.len(),
{
    lemma_labels_len(unions, n);
    if unions.len() > 0 {
        let pre = unions.drop_last();
        assert(unions_within(pre, n)) by {
            assert forall|k: int| 0 <= k < pre.len() implies #[trigger] pre[k].0 < n && pre[k].1 < n by {
                assert(pre[k] == unions[k]);
            }
        }
        lemma_labels_bounded(pre, n);
        let last = unions[unions.len() - 1];
        assert(last.0 < n && last.1 < n);
    }
}

/// The merged labelling keeps every merged pair together.
pub proof fn lemma_labels_respect(unions: Seq<(usize, usize)>, n: nat)
    requires
        unions_within(unions, n),
    ensures
        respects(|x: int| labels_after(unions, n)[x] as int, unions),
    decreases unions.len(),
{
    lemma_labels_len(unions, n);
    if unions.len() > 0 {
        let pre = unions.drop_last();
        assert(unions_within(pre, n)) by {
            assert forall|k: int| 0 <= k < pre.len() implies #[trigger] pre[k].0 < n && pre[k].1 < n by {
                assert(pre[k] == unions[k]);
            }
        }
        lemma_labels_respect(pre, n);
        lemma_labels_len(pre, n);
        let old_l = labels_after(pre, n);
        let new_l = labels_after(unions, n);
        let f = |x: int| new_l[x] as int;
        let g = |x: int| old_l[x] as int;
        assert forall|k: int| 0 <= k < unions.len() implies f(#[trigger] unions[k].0 as int) == f(
            unions[k].1 as int,
        ) by {
            let c = unions[k].0 as int;
            let d = unions[k].1 as int;
            assert(c < n && d < n);
            if k < pre.len() {
                assert(pre[k] == unions[k]);
                assert(g(pre[k].0 as int) == g(pre[k].1 as int));
                assert(old_l[c] == old_l[d]);
            }
        }
    }
}

/// Elements with equal labels are joined by a chain of merges.
pub proof fn lemma_labels_finest(
    unions: Seq<(usize, usize)>,
    n: nat,
    f: spec_fn(int) -> int,
    i: int,
    j: int,
)
    requires
        n <= usize::MAX,
        unions_within(unions, n),
        respects(f, unions),
        0 <= i < n,
        0 <= j < n,
        labels_after(unions, n)[i] == labels_after(unions, n)[j],
    ensures
        f(i) == f(j),
    decreases unions.len(),
{
    lemma_labels_len(unions, n);
    if unions.len() > 0 {
        let pre = unions.drop_last();
        assert(unions_within(pre, n)) by {
            assert forall|k: int| 0 <= k < pre.len() implies #[trigger] pre[k].0 < n && pre[k].1 < n by {
                assert(pre[k] == unions[k]);
            }
        }
        assert(respects(f, pre)) by {
            assert forall|k: int| 0 <= k < pre.len() implies f(#[trigger] pre[k].0 as int) == f(
                pre[k].1 as int,
            ) by {
                assert(pre[k] == unions[k]);
                assert(f(unions[k].0 as int) == f(unions[k].1 as int));
            }
        }
        lemma_labels_len(pre, n);
        let old_l = labels_after(pre, n);
        let a = unions.last().0 as int;
        let b = unions.last().1 as int;
        assert(a < n && b < n) by {
            assert(unions[unions.len() - 1].0 < n);
        }
        assert(f(a) == f(b)) by {
            assert(f(unions[unions.len() - 1].0 as int) == f(unions[unions.len() - 1].1 as int));
        }
        let bi = old_l[i] == old_l[b];
        let bj = old_l[j] == old_l[b];
        if bi && bj {
            lemma_labels_finest(pre, n, f, i, j);
        } else if bi && !bj {
            lemma_labels_finest(pre, n, f, i, b);
            lemma_labels_finest(pre, n, f, j, a);
        } else if !bi && bj {
            lemma_labels_finest(pre, n, f, j, b);
            lemma_labels_finest(pre, n, f, i, a);
        } else {
            lemma_labels_finest(pre, n, f, i, j);
        }
    }
}

/// Two elements carry the same label exactly when a chain of merges joins
/// them.
pub proof fn lemma_labels_connected(unions: Seq<(usize, usize)>, n: nat, i: int, j: int)
    requires
        n <= usize::MAX,
        unions_within(unions, n),
        0 <= i < n,
        0 <= j < n,
    ensures
        (labels_after(unions, n)[i] == labels_after(unions, n)[j]) <==> connected(unions, i, j),
{
    let l = labels_after(unions, n);
    if l[i] == l[j] {
        assert forall|f: spec_fn(int) -> int| #[trigger] respects(f, unions) implies f(i) == f(j) by {
            lemma_labels_finest(unions, n, f, i, j);
        }
    }
    if connected(unions, i, j) {
        lemma_labels_respect(unions, n);
        let lf = |x: int| l[x] as int;
        assert(respects(lf, unions));
        assert(lf(i) == lf(j));
    }
}

/// Disjoint sets over the elements `0..n`.
pub struct UnionFind {
    labels: Vec<usize>,
}

impl UnionFind {
    /// The label of each element; equal labels mean the same set.
    pub closed spec fn labels(&self) -> Seq<usize> {
        self.labels@
    }

    /// Creates `n` singleton sets.
    pub fn new(n: usize) -> (uf: Self)
        ensures
            uf.labels() == labels_after(Seq::empty(), n as nat),
    {
        let mut labels: Vec<usize> = Vec::with_capacity(n);
        let mut i: usize = 0;
        while i < n
            invariant
                i <= n,
                labels@ == Seq::new(i as nat, |k: int| k as usize),
            decreases n - i,
        {
            labels.push(i);
            i = i + 1;
            assert(labels@ =~= Seq::new(i as nat, |k: int| k as usize));
        }
        UnionFind { labels }
    }

    /// Returns the label of the set that holds `i`.
    pub fn find(&self, i: usize) -> (r: usize)
        requires
            i < self.labels().len(),
        ensures
            r == self.labels()[i as int],
    {
        self.labels[i]
    }

    /// Merges the set that holds `b` into the set that holds `a`.
    pub fn union(&mut self, a: usize, b: usize)
        requires
            a < old(self).labels().len(),
            b < old(self).labels().len(),
        ensures
            final(self).labels() == relabel(old(self).labels(), a as int, b as int),
    {
        let ra = self.labels[a];
        let rb = self.labels[b];
        let n = self.labels.len();
        let ghost orig = self.labels@;
        let mut i: usize = 0;
        while i < n
            invariant
                n == orig.len(),
                self.labels@.len() == n,
                i <= n,
                ra == orig[a as int],
                rb == orig[b as int],
                forall|k: int|
                    0 <= k < n ==> #[trigger] self.labels@[k] == (if k < i {
                        relabel(orig, a as int, b as int)[k]
                    } else {
                        orig[k]
                    }),
            decreases n - i,
        {
            if self.labels[i] == rb {
                self.labels[i] = ra;
            }
            i = i + 1;
        }
        assert(self.labels@ =~= relabel(orig, a as int, b as int));
    }
}

/// `a` and `b` are the two ends, either way round, of some merge.
pub open spec fn merged(unions: Seq<(usize, usize)>, a: int, b: int) -> bool {
    exists|k: int|
        #![trigger unions[k]]
        0 <= k < unions.len() && ((unions[k].0 == a && unions[k].1 == b) || (unions[k].0 == b
            && unions[k].1 == a))
}

/// `p` is a walk from `i` to `j` along merges.
pub open spec fn merge_path(unions: Seq<(usize, usize)>, p: Seq<int>, i: int, j: int) -> bool {
    &&& p.len() > 0
    &&& p[0] == i
    &&& p.last() == j
    &&& forall|x: int| 0 <= x < p.len() - 1 ==> #[trigger] merged(unions, p[x], p[x + 1])
}

/// Some walk along merges leads from `i` to `j`.
pub open spec fn reachable(unions: Seq<(usize, usize)>, i: int, j: int) -> bool {
    exists|p: Seq<int>| #[trigger] merge_path(unions, p, i, j)
}

proof fn lemma_path_respected(unions: Seq<(usize, usize)>, f: spec_fn(int) -> int, p: Seq<int>, i: int, j: int)
    requires
        respects(f, unions),
        merge_path(unions, p, i, j),
    ensures
        f(i) == f(j),
    decreases p.len(),
{
    if p.len() > 1 {
        let q = p.drop_last();
        let m = p[p.len() - 2];
        assert forall|x: int| 0 <= x < q.len() - 1 implies #[trigger] merged(unions, q[x], q[x + 1]) by {
            assert(merged(unions, p[x], p[x + 1]));
        }
        assert(merge_path(unions, q, i, m));
        lemma_path_respected(unions, f, q, i, m);
        let x = p.len() - 2;
        assert(merged(unions, p[x], p[x + 1]));
        assert(p[x + 1] == j);
        let k = choose|k: int|
            #![trigger unions[k]]
            0 <= k < unions.len() && ((unions[k].0 == m && unions[k].1 == j) || (unions[k].0 == j
                && unions[k].1 == m));
        assert(f(unions[k].0 as int) == f(unions[k].1 as int));
    }
}

proof fn lemma_path_extend(unions: Seq<(usize, usize)>, p: Seq<int>, i: int, a: int, b: int)
    requires
        merge_path(unions, p, i, a),
        merged(unions, a, b),
    ensures
        merge_path(unions, p.push(b), i, b),
{
    let q = p.push(b);
    assert forall|x: int| 0 <= x < q.len() - 1 implies #[trigger] merged(unions, q[x], q[x + 1]) by {
        if x < p.len() - 1 {
            assert(q[x] == p[x] && q[x + 1] == p[x + 1]);
        } else {
            assert(q[x] == a && q[x + 1] == b);
        }
    }
}

/// Two indices are connected exactly when a walk along merges joins them:
/// the classes are the connected components of the graph of merges.
pub proof fn lemma_connected_iff_reachable(unions: Seq<(usize, usize)>, i: int, j: int)
    ensures
        connected(unions, i, j) <==> reachable(unions, i, j),
{
    if reachable(unions, i, j) {
        let p = choose|p: Seq<int>| #[trigger] merge_path(unions, p, i, j);
        assert forall|f: spec_fn(int) -> int| #[trigger] respects(f, unions) implies f(i) == f(j) by {
            lemma_path_respected(unions, f, p, i, j);
        }
    }
    if connected(unions, i, j) {
        let f = |x: int| if reachable(unions, i, x) { 1int } else { 0int };
        assert forall|k: int| 0 <= k < unions.len() implies f(#[trigger] unions[k].0 as int) == f(
            unions[k].1 as int,
        ) by {
            let a = unions[k].0 as int;
            let b = unions[k].1 as int;
            assert(merged(unions, a, b));
            assert(merged(unions, b, a));
            if reachable(unions, i, a) {
                let p = choose|p: Seq<int>| #[trigger] merge_path(unions, p, i, a);
                lemma_path_extend(unions, p, i, a, b);
            }
            if reachable(unions, i, b) {
                let p = choose|p: Seq<int>| #[trigger] merge_path(unions, p, i, b);
                lemma_path_extend(unions, p, i, b, a);
            }
        }
        assert(respects(f, unions));
        assert(merge_path(unions, seq![i], i, i));
        assert(f(i) == 1);
        assert(f(i) == f(j));
    }
}

} // verus!
