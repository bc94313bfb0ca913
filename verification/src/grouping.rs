//! Grouping of duplicate code regions using union-find.
//!
//! When N files share the same duplicated code region, pairwise comparison
//! produces N*(N-1)/2 results. This module consolidates those pairwise matches
//! into groups where each unique duplicate region appears once with all
//! participating file locations listed together.
use vstd::prelude::*;

use crate::paths::{path_eq, path_less, same_path, spec_path_less};
use crate::types::{ComparisonResult, LineRange};
use crate::union_find::{
    UnionFind, connected, labels_after, lemma_labels_bounded, lemma_labels_connected, respects,
    unions_within,
};

verus! {

/// Uniquely identifies a code region: (filename, start_line, end_line),
/// a 0-based half-open range.
pub type MatchKey = (String, usize, usize);

/// A region as plain values: (path, start, end).
pub type KeyView = (Seq<char>, usize, usize);

/// A connection between two regions found in the same run.
pub type Conn = (KeyView, KeyView);

/// The keys in order of first appearance, and the pairs of key indices to
/// unite.
pub type KeyTable = (Seq<KeyView>, Seq<(usize, usize)>);

/// A group of file locations that all contain the same duplicated code.
#[derive(Debug, Clone)]
pub struct DuplicateGroup {
    /// Number of duplicated lines in this region.
    pub line_count: usize,
    /// All file locations containing this duplicate, sorted for deterministic output.
    /// Each entry is (filename, start, end) using 0-based half-open ranges.
    pub locations: Vec<(String, usize, usize)>,
    /// The duplicated lines as written at the first location, once they
    /// have been read back for verbose output.
    pub content: Option<Vec<String>>,
}

/// Location within a duplicate group, for JSON output.
pub struct LocationInfo {
    pub file: String,
    pub start: usize,
    pub end: usize,
}

/// A duplicate group for JSON output.
pub struct GroupInfo {
    pub lines: usize,
    pub locations: Vec<LocationInfo>,
    pub content: Option<Vec<String>>,
}

pub open spec fn key_view(k: MatchKey) -> KeyView {
    (k.0@, k.1, k.2)
}

pub open spec fn keys_view(ks: Seq<MatchKey>) -> Seq<KeyView> {
    ks.map_values(|k: MatchKey| key_view(k))
}

/// The locations of a group as plain values.
pub open spec fn locations_view(g: DuplicateGroup) -> Seq<KeyView> {
    keys_view(g.locations@)
}

/// Every `Same` run holds two ranges that start no later than they end.
pub open spec fn runs_well_formed(results: Seq<ComparisonResult>) -> bool {
    forall|i: int, j: int|
        0 <= i < results.len() && 0 <= j < results[i].runs@.len() ==> match #[trigger] results[i].runs@[j] {
            LineRange::Same { r1, r2 } => r1.start <= r1.end && r2.start <= r2.end,
            LineRange::Diff { .. } => true,
        }
}

/// The connections made by the first `j` runs of `res`: one per `Same` run
/// whose first range spans at least `min_match` lines.
pub open spec fn run_conns(res: ComparisonResult, j: int, min_match: usize) -> Seq<Conn>
    decreases j,
{
    if j <= 0 {
        Seq::empty()
    } else {
        let prev = run_conns(res, j - 1, min_match);
        match res.runs@[j - 1] {
            LineRange::Same { r1, r2 } => if r1.end - r1.start >= min_match {
                prev.push(((res.f1.filename@, r1.start, r1.end), (res.f2.filename@, r2.start, r2.end)))
            } else {
                prev
            },
            LineRange::Diff { .. } => prev,
        }
    }
}

/// The connections made by the first `i` results, in order.
pub open spec fn all_conns(results: Seq<ComparisonResult>, i: int, min_match: usize) -> Seq<Conn>
    decreases i,
{
    if i <= 0 {
        Seq::empty()
    } else {
        all_conns(results, i - 1, min_match) + run_conns(
            results[i - 1],
            results[i - 1].runs@.len() as int,
            min_match,
        )
    }
}

/// `a` and `b` are one region: the same path, as std's `Path` compares
/// paths, and the same lines.
pub open spec fn key_equiv(a: KeyView, b: KeyView) -> bool {
    same_path(a.0, b.0) && a.1 == b.1 && a.2 == b.2
}

/// Some key of `keys` is the region `k`.
pub open spec fn key_known(keys: Seq<KeyView>, k: KeyView) -> bool {
    exists|i: int| 0 <= i < keys.len() && #[trigger] key_equiv(keys[i], k)
}

/// `i` is the first key of `keys` that is the region `k`.
pub open spec fn first_key(keys: Seq<KeyView>, k: KeyView, i: int) -> bool {
    &&& 0 <= i < keys.len()
    &&& key_equiv(keys[i], k)
    &&& forall|j: int| 0 <= j < i ==> !#[trigger] key_equiv(keys[j], k)
}

/// The index of the region `k` among `keys`, or the next free index when
/// it is new.
pub open spec fn find_key(keys: Seq<KeyView>, k: KeyView) -> int {
    if key_known(keys, k) {
        choose|i: int| first_key(keys, k, i)
    } else {
        keys.len() as int
    }
}

/// Appends `k` unless the region is already known.
pub open spec fn insert_key(keys: Seq<KeyView>, k: KeyView) -> Seq<KeyView> {
    if key_known(keys, k) {
        keys
    } else {
        keys.push(k)
    }
}

/// Registers both regions of a connection and records the pair to unite.
pub open spec fn add_conn(t: KeyTable, c: Conn) -> KeyTable {
    let i1 = find_key(t.0, c.0);
    let s1 = insert_key(t.0, c.0);
    let i2 = find_key(s1, c.1);
    (insert_key(s1, c.1), t.1.push((i1 as usize, i2 as usize)))
}

/// The key table built from a sequence of connections.
pub open spec fn key_table(conns: Seq<Conn>) -> KeyTable
    decreases conns.len(),
{
    if conns.len() == 0 {
        (Seq::empty(), Seq::empty())
    } else {
        add_conn(key_table(conns.drop_last()), conns.last())
    }
}

/// The key table of a list of comparison results.
pub open spec fn match_table(results: Seq<ComparisonResult>, min_match: usize) -> KeyTable {
    key_table(all_conns(results, results.len() as int, min_match))
}

/// Both regions of every connection start no later than they end.
pub open spec fn conns_well_formed(conns: Seq<Conn>) -> bool {
    forall|k: int|
        0 <= k < conns.len() ==> (#[trigger] conns[k]).0.1 <= conns[k].0.2 && conns[k].1.1
            <= conns[k].1.2
}

/// No two keys are one region.
pub open spec fn keys_distinct(keys: Seq<KeyView>) -> bool {
    forall|i: int, j: int| 0 <= i < j < keys.len() ==> !#[trigger] key_equiv(keys[i], keys[j])
}

/// The invariants of a key table: distinct regions, pairs within range,
/// and well-formed ranges.
pub open spec fn table_wf(t: KeyTable) -> bool {
    &&& keys_distinct(t.0)
    &&& unions_within(t.1, t.0.len())
    &&& forall|i: int| 0 <= i < t.0.len() ==> (#[trigger] t.0[i]).1 <= t.0[i].2
}

/// Distinct regions are in particular distinct values.
pub proof fn lemma_keys_no_duplicates(keys: Seq<KeyView>)
    requires
        keys_distinct(keys),
    ensures
        keys.no_duplicates(),
{
    assert forall|i: int, j: int| 0 <= i < keys.len() && 0 <= j < keys.len() && i != j implies keys[i]
        != keys[j] by {
        if i < j {
            assert(!key_equiv(keys[i], keys[j]));
        } else {
            assert(!key_equiv(keys[j], keys[i]));
        }
    }
}

proof fn lemma_first_key_exists(keys: Seq<KeyView>, k: KeyView, n: int) -> (i: int)
    requires
        0 <= n <= keys.len(),
        exists|j: int| 0 <= j < n && #[trigger] key_equiv(keys[j], k),
    ensures
        first_key(keys, k, i),
        i < n,
    decreases n,
{
    if exists|j: int| 0 <= j < n - 1 && #[trigger] key_equiv(keys[j], k) {
        lemma_first_key_exists(keys, k, n - 1)
    } else {
        let j = choose|j: int| 0 <= j < n && #[trigger] key_equiv(keys[j], k);
        assert(j == n - 1);
        n - 1
    }
}

proof fn lemma_find_key(keys: Seq<KeyView>, k: KeyView, i: int)
    requires
        first_key(keys, k, i),
    ensures
        find_key(keys, k) == i,
{
    assert(key_known(keys, k));
    let c = choose|c: int| first_key(keys, k, c);
    assert(first_key(keys, k, c));
    if c < i {
        assert(!key_equiv(keys[c], k));
    } else if i < c {
        assert(!key_equiv(keys[i], k));
    }
}

/// The index found for a region lies within the keys once it is inserted.
proof fn lemma_find_key_range(keys: Seq<KeyView>, k: KeyView)
    ensures
        0 <= find_key(keys, k) < insert_key(keys, k).len(),
        key_known(keys, k) ==> find_key(keys, k) < keys.len(),
{
    if key_known(keys, k) {
        let i = lemma_first_key_exists(keys, k, keys.len() as int);
        lemma_find_key(keys, k, i);
    }
}

proof fn lemma_insert_key_distinct(keys: Seq<KeyView>, k: KeyView)
    requires
        keys_distinct(keys),
    ensures
        keys_distinct(insert_key(keys, k)),
        forall|i: int| 0 <= i < keys.len() ==> insert_key(keys, k)[i] == keys[i],
{
    if !key_known(keys, k) {
        let s = keys.push(k);
        assert forall|i: int, j: int| 0 <= i < j < s.len() implies !#[trigger] key_equiv(s[i], s[j]) by {
            assert(s[i] == keys[i]);
            if j < keys.len() {
                assert(s[j] == keys[j]);
            } else {
                assert(s[j] == k);
            }
        }
    }
}

proof fn lemma_add_conn_wf(t: KeyTable, c: Conn)
    requires
        table_wf(t),
        c.0.1 <= c.0.2,
        c.1.1 <= c.1.2,
    ensures
        table_wf(add_conn(t, c)),
        add_conn(t, c).0.len() <= t.0.len() + 2,
{
    let s1 = insert_key(t.0, c.0);
    let s2 = insert_key(s1, c.1);
    let i1 = find_key(t.0, c.0);
    let i2 = find_key(s1, c.1);
    lemma_insert_key_distinct(t.0, c.0);
    lemma_insert_key_distinct(s1, c.1);
    lemma_find_key_range(t.0, c.0);
    lemma_find_key_range(s1, c.1);
    assert(0 <= i1 < s2.len());
    assert(0 <= i2 < s2.len());
    let u = t.1.push((i1 as usize, i2 as usize));
    assert(unions_within(u, s2.len())) by {
        assert forall|k: int| 0 <= k < u.len() implies #[trigger] u[k].0 < s2.len() && u[k].1
            < s2.len() by {
            if k < t.1.len() {
                assert(u[k] == t.1[k]);
                assert(t.1[k].0 < t.0.len() && t.1[k].1 < t.0.len());
            }
        }
    }
    assert forall|i: int| 0 <= i < s2.len() implies (#[trigger] s2[i]).1 <= s2[i].2 by {
        if i < t.0.len() {
            assert(s1[i] == t.0[i]);
            assert(s2[i] == s1[i]);
        } else if i < s1.len() {
            assert(s2[i] == s1[i]);
        }
    }
}

/// A key table built from well-formed connections is well formed.
pub proof fn lemma_key_table_wf(conns: Seq<Conn>)
    requires
        conns_well_formed(conns),
    ensures
        table_wf(key_table(conns)),
        key_table(conns).0.len() <= 2 * conns.len(),
    decreases conns.len(),
{
    if conns.len() > 0 {
        let pre = conns.drop_last();
        assert(conns_well_formed(pre)) by {
            assert forall|k: int| 0 <= k < pre.len() implies (#[trigger] pre[k]).0.1 <= pre[k].0.2
                && pre[k].1.1 <= pre[k].1.2 by {
                assert(pre[k] == conns[k]);
            }
        }
        lemma_key_table_wf(pre);
        let c = conns[conns.len() - 1];
        lemma_add_conn_wf(key_table(pre), c);
    }
}

proof fn lemma_run_conns_wf(res: ComparisonResult, j: int, min_match: usize)
    requires
        0 <= j <= res.runs@.len(),
        forall|jj: int| 0 <= jj < res.runs@.len() ==> match #[trigger] res.runs@[jj] {
            LineRange::Same { r1, r2 } => r1.start <= r1.end && r2.start <= r2.end,
            LineRange::Diff { .. } => true,
        },
    ensures
        conns_well_formed(run_conns(res, j, min_match)),
    decreases j,
{
    if j > 0 {
        lemma_run_conns_wf(res, j - 1, min_match);
        let prev = run_conns(res, j - 1, min_match);
        let cur = run_conns(res, j, min_match);
        assert forall|k: int| 0 <= k < cur.len() implies (#[trigger] cur[k]).0.1 <= cur[k].0.2
            && cur[k].1.1 <= cur[k].1.2 by {
            if k < prev.len() {
                assert(cur[k] == prev[k]);
            } else {
                let r = res.runs@[j - 1];
                assert(match r {
                    LineRange::Same { r1, r2 } => r1.start <= r1.end && r2.start <= r2.end,
                    LineRange::Diff { .. } => true,
                });
            }
        }
    }
}

/// Connections gathered from well-formed runs are well formed.
pub proof fn lemma_all_conns_wf(results: Seq<ComparisonResult>, i: int, min_match: usize)
    requires
        0 <= i <= results.len(),
        runs_well_formed(results),
    ensures
        conns_well_formed(all_conns(results, i, min_match)),
    decreases i,
{
    if i > 0 {
        lemma_all_conns_wf(results, i - 1, min_match);
        let res = results[i - 1];
        assert forall|jj: int| 0 <= jj < res.runs@.len() implies match #[trigger] res.runs@[jj] {
            LineRange::Same { r1, r2 } => r1.start <= r1.end && r2.start <= r2.end,
            LineRange::Diff { .. } => true,
        } by {
            assert(res.runs@[jj] == results[i - 1].runs@[jj]);
        }
        lemma_run_conns_wf(res, res.runs@.len() as int, min_match);
        let a = all_conns(results, i - 1, min_match);
        let b = run_conns(res, res.runs@.len() as int, min_match);
        assert forall|k: int| 0 <= k < (a + b).len() implies (#[trigger] (a + b)[k]).0.1 <= (a
            + b)[k].0.2 && (a + b)[k].1.1 <= (a + b)[k].1.2 by {
            if k < a.len() {
                assert((a + b)[k] == a[k]);
            } else {
                assert((a + b)[k] == b[k - a.len()]);
            }
        }
    }
}

/// Assigns an index to a MatchKey, inserting it if new; regions are told
/// apart as std's `Path` compares paths.
fn get_or_insert_key(key: MatchKey, keys: &mut Vec<MatchKey>) -> (idx: usize)
    requires
        keys_distinct(keys_view(old(keys)@)),
    ensures
        idx == find_key(keys_view(old(keys)@), key_view(key)),
        keys_view(final(keys)@) == insert_key(keys_view(old(keys)@), key_view(key)),
{
    let ghost kv = keys_view(keys@);
    let ghost k = key_view(key);
    let n = keys.len();
    let mut i: usize = 0;
    while i < n
        invariant
            n == keys@.len(),
            kv == keys_view(keys@),
            k == key_view(key),
            i <= n,
            forall|q: int| 0 <= q < i ==> !#[trigger] key_equiv(kv[q], k),
        decreases n - i,
    {
        assert(kv[i as int] == key_view(keys@[i as int]));
        if keys[i].1 == key.1 && keys[i].2 == key.2 && path_eq(keys[i].0.as_str(), key.0.as_str()) {
            proof {
                assert(key_equiv(kv[i as int], k));
                lemma_find_key(kv, k, i as int);
            }
            return i;
        }
        i = i + 1;
    }
    assert(!key_known(kv, k));
    keys.push(key);
    assert(keys_view(keys@) =~= kv.push(k));
    n
}

proof fn lemma_key_table_push(conns: Seq<Conn>, c: Conn)
    ensures
        key_table(conns.push(c)) == add_conn(key_table(conns), c),
{
    assert(conns.push(c).drop_last() =~= conns);
}

/// Collects the keys and the pairs to unite from all `Same` runs of at
/// least `min_match` lines.
fn collect_keys(results: &[ComparisonResult<'_>], min_match: usize) -> (out: (
    Vec<MatchKey>,
    Vec<(usize, usize)>,
))
    requires
        runs_well_formed(results@),
    ensures
        (keys_view(out.0@), out.1@) == match_table(results@, min_match),
        table_wf(match_table(results@, min_match)),
{
    let mut keys: Vec<MatchKey> = Vec::new();
    let mut unions: Vec<(usize, usize)> = Vec::new();
    let nr = results.len();
    let mut ri: usize = 0;
    proof {
        assert(keys_view(keys@) =~= Seq::<KeyView>::empty());
    }
    while ri < nr
        invariant
            nr == results@.len(),
            ri <= nr,
            runs_well_formed(results@),
            (keys_view(keys@), unions@) == key_table(all_conns(results@, ri as int, min_match)),
        decreases nr - ri,
    {
        let result = &results[ri];
        let nruns = result.runs.len();
        let mut j: usize = 0;
        proof {
            assert(all_conns(results@, ri as int, min_match) + run_conns(*result, 0, min_match)
                =~= all_conns(results@, ri as int, min_match));
        }
        while j < nruns
            invariant
                nr == results@.len(),
                ri < nr,
                *result == results@[ri as int],
                nruns == result.runs@.len(),
                j <= nruns,
                runs_well_formed(results@),
                (keys_view(keys@), unions@) == key_table(
                    all_conns(results@, ri as int, min_match) + run_conns(*result, j as int, min_match),
                ),
            decreases nruns - j,
        {
            let ghost prefix = all_conns(results@, ri as int, min_match) + run_conns(
                *result,
                j as int,
                min_match,
            );
            proof {
                lemma_all_conns_wf(results@, ri as int, min_match);
                assert forall|jj: int| 0 <= jj < result.runs@.len() implies match #[trigger] result.runs@[jj] {
                    LineRange::Same { r1, r2 } => r1.start <= r1.end && r2.start <= r2.end,
                    LineRange::Diff { .. } => true,
                } by {
                    assert(result.runs@[jj] == results@[ri as int].runs@[jj]);
                }
                lemma_run_conns_wf(*result, j as int, min_match);
                let a = all_conns(results@, ri as int, min_match);
                let b = run_conns(*result, j as int, min_match);
                assert forall|k: int| 0 <= k < (a + b).len() implies (#[trigger] (a + b)[k]).0.1 <= (a
                    + b)[k].0.2 && (a + b)[k].1.1 <= (a + b)[k].1.2 by {
                    if k < a.len() {
                        assert((a + b)[k] == a[k]);
                    } else {
                        assert((a + b)[k] == b[k - a.len()]);
                    }
                }
                lemma_key_table_wf(prefix);
            }
            match &result.runs[j] {
                LineRange::Same { r1, r2 } => {
                    proof {
                        assert(match result.runs@[j as int] {
                            LineRange::Same { r1, r2 } => r1.start <= r1.end && r2.start <= r2.end,
                            LineRange::Diff { .. } => true,
                        });
                    }
                    if r1.len() >= min_match {
                        let key1: MatchKey = (result.f1.filename.clone(), r1.start, r1.end);
                        let key2: MatchKey = (result.f2.filename.clone(), r2.start, r2.end);
                        let ghost c: Conn = (key_view(key1), key_view(key2));
                        let idx1 = get_or_insert_key(key1, &mut keys);
                        proof {
                            lemma_insert_key_distinct(key_table(prefix).0, c.0);
                        }
                        let idx2 = get_or_insert_key(key2, &mut keys);
                        unions.push((idx1, idx2));
                        proof {
                            assert(run_conns(*result, j + 1, min_match) == run_conns(
                                *result,
                                j as int,
                                min_match,
                            ).push(c));
                            assert(all_conns(results@, ri as int, min_match) + run_conns(
                                *result,
                                j + 1,
                                min_match,
                            ) =~= prefix.push(c));
                            lemma_key_table_push(prefix, c);
                        }
                    } else {
                        proof {
                            assert(run_conns(*result, j + 1, min_match) == run_conns(
                                *result,
                                j as int,
                                min_match,
                            ));
                        }
                    }
                },
                LineRange::Diff { .. } => {
                    proof {
                        assert(run_conns(*result, j + 1, min_match) == run_conns(
                            *result,
                            j as int,
                            min_match,
                        ));
                    }
                },
            }
            j = j + 1;
        }
        ri = ri + 1;
    }
    proof {
        lemma_all_conns_wf(results@, nr as int, min_match);
        lemma_key_table_wf(all_conns(results@, nr as int, min_match));
    }
    (keys, unions)
}

/// std's tuple order on two regions: by path, then start, then end.
pub open spec fn location_less(a: KeyView, b: KeyView) -> bool {
    spec_path_less(a.0, b.0) || (same_path(a.0, b.0) && (a.1 < b.1 || (a.1 == b.1 && a.2 < b.2)))
}

/// Every region comes strictly before every later one.
pub open spec fn locations_sorted(s: Seq<KeyView>) -> bool {
    forall|i: int, j: int| 0 <= i < j < s.len() ==> #[trigger] location_less(s[i], s[j])
}

/// std's lexicographic order on two lists of regions.
pub open spec fn locations_less(a: Seq<KeyView>, b: Seq<KeyView>) -> bool
    decreases a.len(),
{
    if a.len() == 0 {
        b.len() > 0
    } else if b.len() == 0 {
        false
    } else if location_less(a[0], b[0]) {
        true
    } else if location_less(b[0], a[0]) {
        false
    } else {
        locations_less(a.drop_first(), b.drop_first())
    }
}

/// `x` and `y` stand in the same order relations to every region.
pub open spec fn interchangeable(x: KeyView, y: KeyView) -> bool {
    forall|w: KeyView|
        #![trigger location_less(x, w)]
        #![trigger location_less(y, w)]
        #![trigger location_less(w, x)]
        #![trigger location_less(w, y)]
        location_less(x, w) == location_less(y, w) && location_less(w, x) == location_less(w, y)
}

/// Report order of groups: more lines first, then by locations.
pub open spec fn group_less(a: DuplicateGroup, b: DuplicateGroup) -> bool {
    a.line_count > b.line_count || (a.line_count == b.line_count && locations_less(
        locations_view(a),
        locations_view(b),
    ))
}

/// Every group comes strictly before every later one in report order.
pub open spec fn groups_sorted(s: Seq<DuplicateGroup>) -> bool {
    forall|i: int, j: int| 0 <= i < j < s.len() ==> #[trigger] group_less(s[i], s[j])
}

/// Both groups list a location, and their first locations are not one
/// region.
pub open spec fn groups_apart(g: DuplicateGroup, h: DuplicateGroup) -> bool {
    &&& g.locations@.len() > 0
    &&& h.locations@.len() > 0
    &&& !key_equiv(locations_view(g)[0], locations_view(h)[0])
}

fn location_before(a: &MatchKey, b: &MatchKey) -> (r: bool)
    ensures
        r == location_less(key_view(*a), key_view(*b)),
        r ==> !location_less(key_view(*b), key_view(*a)),
        !r ==> location_less(key_view(*b), key_view(*a)) || key_equiv(key_view(*a), key_view(*b)),
        r ==> forall|z: KeyView|
            #[trigger] location_less(key_view(*b), z) ==> location_less(key_view(*a), z),
        r ==> forall|z: KeyView|
            #[trigger] location_less(z, key_view(*b)) || location_less(key_view(*a), z),
        key_equiv(key_view(*a), key_view(*b)) ==> interchangeable(key_view(*a), key_view(*b)),
{
    if path_less(a.0.as_str(), b.0.as_str()) {
        return true;
    }
    if path_eq(a.0.as_str(), b.0.as_str()) {
        proof {
            let ka = key_view(*a);
            let kb = key_view(*b);
            if key_equiv(ka, kb) {
                assert forall|w: KeyView|
                    location_less(ka, w) == location_less(kb, w) && location_less(w, ka) == location_less(
                        w,
                        kb,
                    ) by {
                    assert(same_path(ka.0, w.0) == same_path(kb.0, w.0));
                    assert(spec_path_less(ka.0, w.0) == spec_path_less(kb.0, w.0));
                    assert(spec_path_less(w.0, ka.0) == spec_path_less(w.0, kb.0));
                    assert(same_path(w.0, ka.0) == same_path(ka.0, w.0));
                    assert(same_path(w.0, kb.0) == same_path(kb.0, w.0));
                }
            }
        }
        return a.1 < b.1 || (a.1 == b.1 && a.2 < b.2);
    }
    false
}

/// The lexicographic order is transitive where `a` comes before `b` at
/// position `k` (or is a proper prefix of it there), its earlier regions
/// standing in the same relations as those of `b`.
proof fn lemma_locations_less_trans(a: Seq<KeyView>, b: Seq<KeyView>, z: Seq<KeyView>, k: int)
    requires
        0 <= k <= a.len(),
        k <= b.len(),
        forall|i: int| 0 <= i < k ==> #[trigger] interchangeable(a[i], b[i]),
        (k < a.len() && k < b.len() && location_less(a[k], b[k]) && (forall|w: KeyView|
            #[trigger] location_less(b[k], w) ==> location_less(a[k], w)) && (forall|w: KeyView|
            #[trigger] location_less(w, b[k]) || location_less(a[k], w))) || (k == a.len() && k
            < b.len()),
        locations_less(b, z),
    ensures
        locations_less(a, z),
    decreases k,
{
    assert(b.len() > 0);
    assert(z.len() > 0);
    if k == 0 {
        if a.len() > 0 {
            if location_less(b[0], z[0]) {
                assert(location_less(a[0], z[0]));
            } else if !location_less(z[0], b[0]) {
                assert(location_less(a[0], z[0]));
            }
        }
    } else {
        assert(interchangeable(a[0], b[0]));
        assert(location_less(a[0], z[0]) == location_less(b[0], z[0]));
        assert(location_less(z[0], a[0]) == location_less(z[0], b[0]));
        if !location_less(b[0], z[0]) && !location_less(z[0], b[0]) {
            let a1 = a.drop_first();
            let b1 = b.drop_first();
            let z1 = z.drop_first();
            assert forall|i: int| 0 <= i < k - 1 implies #[trigger] interchangeable(a1[i], b1[i]) by {
                assert(a1[i] == a[i + 1] && b1[i] == b[i + 1]);
                assert(interchangeable(a[i + 1], b[i + 1]));
            }
            if k < a.len() && k < b.len() {
                assert(a1[k - 1] == a[k] && b1[k - 1] == b[k]);
            }
            lemma_locations_less_trans(a1, b1, z1, k - 1);
        }
    }
}

fn locations_before(a: &Vec<MatchKey>, b: &Vec<MatchKey>) -> (r: bool)
    ensures
        r == locations_less(keys_view(a@), keys_view(b@)),
        r ==> !locations_less(keys_view(b@), keys_view(a@)),
        r ==> forall|z: Seq<KeyView>|
            #[trigger] locations_less(keys_view(b@), z) ==> locations_less(keys_view(a@), z),
        !r && a@.len() > 0 && b@.len() > 0 && !key_equiv(keys_view(a@)[0], keys_view(b@)[0])
            ==> locations_less(keys_view(b@), keys_view(a@)),
{
    let ghost av = keys_view(a@);
    let ghost bv = keys_view(b@);
    let la = a.len();
    let lb = b.len();
    let mut k: usize = 0;
    proof {
        assert(av.skip(0) =~= av);
        assert(bv.skip(0) =~= bv);
    }
    while k < la && k < lb
        invariant
            la == a@.len(),
            lb == b@.len(),
            av == keys_view(a@),
            bv == keys_view(b@),
            k <= la,
            k <= lb,
            locations_less(av, bv) == locations_less(av.skip(k as int), bv.skip(k as int)),
            locations_less(bv, av) == locations_less(bv.skip(k as int), av.skip(k as int)),
            forall|i: int| 0 <= i < k ==> #[trigger] interchangeable(av[i], bv[i]),
            k > 0 ==> key_equiv(av[0], bv[0]),
        decreases la - k,
    {
        let ab = location_before(&a[k], &b[k]);
        let ba = location_before(&b[k], &a[k]);
        proof {
            let sa = av.skip(k as int);
            let sb = bv.skip(k as int);
            assert(av[k as int] == key_view(a@[k as int]));
            assert(bv[k as int] == key_view(b@[k as int]));
            assert(sa[0] == av[k as int]);
            assert(sb[0] == bv[k as int]);
            assert(sa.drop_first() =~= av.skip(k + 1));
            assert(sb.drop_first() =~= bv.skip(k + 1));
        }
        if ab {
            proof {
                assert forall|z: Seq<KeyView>| #[trigger] locations_less(bv, z) implies locations_less(av, z) by {
                    lemma_locations_less_trans(av, bv, z, k as int);
                }
            }
            return true;
        }
        if ba {
            return false;
        }
        k = k + 1;
    }
    proof {
        assert(av.skip(k as int).len() == la - k);
        assert(bv.skip(k as int).len() == lb - k);
        if k == la && k < lb {
            assert forall|z: Seq<KeyView>| #[trigger] locations_less(bv, z) implies locations_less(av, z) by {
                lemma_locations_less_trans(av, bv, z, k as int);
            }
        }
    }
    k == la && k < lb
}

fn group_before(a: &DuplicateGroup, b: &DuplicateGroup) -> (r: bool)
    ensures
        r == group_less(*a, *b),
        r ==> !group_less(*b, *a),
        r ==> forall|z: DuplicateGroup| #[trigger] group_less(*b, z) ==> group_less(*a, z),
        !r && groups_apart(*a, *b) ==> group_less(*b, *a),
{
    proof {
        assert(locations_view(*a) == keys_view(a.locations@));
        assert(locations_view(*b) == keys_view(b.locations@));
    }
    if a.line_count > b.line_count {
        return true;
    }
    if a.line_count < b.line_count {
        return false;
    }
    locations_before(&a.locations, &b.locations)
}

/// Inserts the new region `x` after every region that sorts before it.
fn insert_location(v: &mut Vec<MatchKey>, x: MatchKey) -> (p: usize)
    requires
        locations_sorted(keys_view(old(v)@)),
        forall|q: int| 0 <= q < old(v)@.len() ==> !#[trigger] key_equiv(key_view(old(v)@[q]), key_view(x)),
    ensures
        p <= old(v)@.len(),
        final(v)@ == old(v)@.insert(p as int, x),
        locations_sorted(keys_view(final(v)@)),
{
    let ghost ov = keys_view(v@);
    let n = v.len();
    let mut p: usize = 0;
    while p < n && !location_before(&x, &v[p])
        invariant
            n == v@.len(),
            ov == keys_view(v@),
            p <= n,
            forall|q: int| 0 <= q < v@.len() ==> !#[trigger] key_equiv(key_view(v@[q]), key_view(x)),
            forall|q: int| 0 <= q < p ==> location_less(#[trigger] ov[q], key_view(x)),
        decreases n - p,
    {
        proof {
            assert(ov[p as int] == key_view(v@[p as int]));
            assert(!key_equiv(ov[p as int], key_view(x)));
        }
        p = p + 1;
    }
    proof {
        if p < n {
            assert(location_less(key_view(x), ov[p as int]));
        }
    }
    v.insert(p, x);
    proof {
        let nv = keys_view(v@);
        let kx = key_view(x);
        assert(nv =~= ov.insert(p as int, kx));
        assert forall|i: int, j: int| 0 <= i < j < nv.len() implies #[trigger] location_less(nv[i], nv[j]) by {
            if j < p {
                assert(nv[i] == ov[i] && nv[j] == ov[j]);
            } else if j == p {
                assert(nv[i] == ov[i] && nv[j] == kx);
            } else if i == p {
                assert(nv[i] == kx && nv[j] == ov[j - 1]);
                if j - 1 > p {
                    assert(location_less(ov[p as int], ov[j - 1]));
                }
            } else if i < p {
                assert(nv[i] == ov[i] && nv[j] == ov[j - 1]);
            } else {
                assert(nv[i] == ov[i - 1] && nv[j] == ov[j - 1]);
            }
        }
    }
    p
}

/// Inserts `g` after every group that sorts before it.
fn insert_group(v: &mut Vec<DuplicateGroup>, g: DuplicateGroup) -> (p: usize)
    requires
        groups_sorted(old(v)@),
        forall|q: int| 0 <= q < old(v)@.len() ==> #[trigger] groups_apart(g, old(v)@[q]),
    ensures
        p <= old(v)@.len(),
        final(v)@ == old(v)@.insert(p as int, g),
        groups_sorted(final(v)@),
{
    let ghost ov = v@;
    let n = v.len();
    let mut p: usize = 0;
    while p < n && !group_before(&g, &v[p])
        invariant
            n == v@.len(),
            ov == v@,
            p <= n,
            forall|q: int| 0 <= q < v@.len() ==> #[trigger] groups_apart(g, v@[q]),
            forall|q: int| 0 <= q < p ==> group_less(#[trigger] ov[q], g),
        decreases n - p,
    {
        proof {
            assert(groups_apart(g, ov[p as int]));
        }
        p = p + 1;
    }
    proof {
        if p < n {
            assert(group_less(g, ov[p as int]));
        }
    }
    let ghost gg = g;
    v.insert(p, g);
    proof {
        let nv = v@;
        assert forall|i: int, j: int| 0 <= i < j < nv.len() implies #[trigger] group_less(nv[i], nv[j]) by {
            if j < p {
                assert(nv[i] == ov[i] && nv[j] == ov[j]);
            } else if j == p {
                assert(nv[i] == ov[i] && nv[j] == gg);
            } else if i == p {
                assert(nv[i] == gg && nv[j] == ov[j - 1]);
                if j - 1 > p {
                    assert(group_less(ov[p as int], ov[j - 1]));
                }
            } else if i < p {
                assert(nv[i] == ov[i] && nv[j] == ov[j - 1]);
            } else {
                assert(nv[i] == ov[i - 1] && nv[j] == ov[j - 1]);
            }
        }
    }
    p
}

/// `m` is the first key of its class: no earlier key is connected to it.
pub open spec fn class_min(unions: Seq<(usize, usize)>, m: int) -> bool {
    forall|i: int| 0 <= i < m ==> !#[trigger] connected(unions, i, m)
}

/// `g` reports the class whose first key is `m`: its line count comes from
/// key `m`, and its locations are exactly the keys connected to `m`, each
/// once, no two of them one region, in std's tuple order.
pub open spec fn group_of_class(g: DuplicateGroup, t: KeyTable, m: int) -> bool {
    let locs = locations_view(g);
    &&& 0 <= m < t.0.len()
    &&& g.line_count == t.0[m].2 - t.0[m].1
    &&& locs.no_duplicates()
    &&& keys_distinct(locs)
    &&& forall|k: int| 0 <= k < locs.len() ==> t.0.contains(#[trigger] locs[k])
    &&& forall|i: int|
        0 <= i < t.0.len() ==> (locs.contains(#[trigger] t.0[i]) <==> connected(t.1, i, m))
    &&& locations_sorted(locs)
}

/// `g` reports some class, named by its first key.
pub open spec fn reports_a_class(g: DuplicateGroup, t: KeyTable) -> bool {
    exists|m: int| #![trigger group_of_class(g, t, m)] class_min(t.1, m) && group_of_class(g, t, m)
}

/// Some group of `groups` reports the class whose first key is `m`.
pub open spec fn class_reported(groups: Seq<DuplicateGroup>, t: KeyTable, m: int) -> bool {
    exists|a: int| #![trigger groups[a]] 0 <= a < groups.len() && group_of_class(groups[a], t, m)
}

/// `groups` holds one group per class of connected keys, in report order.
pub open spec fn consolidates(groups: Seq<DuplicateGroup>, t: KeyTable) -> bool {
    &&& forall|a: int| 0 <= a < groups.len() ==> #[trigger] reports_a_class(groups[a], t)
    &&& forall|m: int| 0 <= m < t.0.len() && #[trigger] class_min(t.1, m) ==> class_reported(groups, t, m)
    &&& forall|a: int, b: int, m: int|
        0 <= a < b < groups.len() ==> !(#[trigger] group_of_class(groups[a], t, m)
            && #[trigger] group_of_class(groups[b], t, m))
    &&& groups_sorted(groups)
}

/// `m` is the first index carrying its label.
pub open spec fn label_min(labels: Seq<usize>, m: int) -> bool {
    forall|i: int| 0 <= i < m ==> #[trigger] labels[i] != labels[m]
}

/// `g` reports the keys labelled like key `m`.
pub open spec fn group_of_label(
    g: DuplicateGroup,
    keys: Seq<KeyView>,
    labels: Seq<usize>,
    m: int,
) -> bool {
    let locs = locations_view(g);
    &&& 0 <= m < keys.len()
    &&& g.line_count == keys[m].2 - keys[m].1
    &&& locs.no_duplicates()
    &&& forall|k: int| 0 <= k < locs.len() ==> keys.contains(#[trigger] locs[k])
    &&& forall|i: int|
        0 <= i < keys.len() ==> (locs.contains(#[trigger] keys[i]) <==> labels[i] == labels[m])
    &&& locations_sorted(locs)
}

/// Builds the group of the keys labelled like key `m`, the first of its label.
fn build_group(
    keys: &Vec<MatchKey>,
    uf: &UnionFind,
    m: usize,
) -> (g: DuplicateGroup)
    requires
        keys_distinct(keys_view(keys@)),
        uf.labels().len() == keys@.len(),
        m < keys@.len(),
        keys@[m as int].1 <= keys@[m as int].2,
        label_min(uf.labels(), m as int),
    ensures
        group_of_label(g, keys_view(keys@), uf.labels(), m as int),
{
    let ghost kv = keys_view(keys@);
    let ghost l = uf.labels();
    let n = keys.len();
    let lm = uf.find(m);
    let mut locations: Vec<MatchKey> = Vec::new();
    let ghost mut idx: Seq<int> = Seq::empty();
    let mut j: usize = m;
    proof {
        assert(keys_view(locations@) =~= Seq::<KeyView>::empty());
        lemma_keys_no_duplicates(kv);
    }
    while j < n
        invariant
            n == keys@.len(),
            kv == keys_view(keys@),
            kv.no_duplicates(),
            keys_distinct(kv),
            l == uf.labels(),
            l.len() == n,
            m <= j <= n,
            lm == l[m as int],
            idx.len() == locations@.len(),
            keys_view(locations@).no_duplicates(),
            locations_sorted(keys_view(locations@)),
            forall|k: int|
                0 <= k < idx.len() ==> m <= #[trigger] idx[k] < j && l[idx[k]] == lm && kv[idx[k]]
                    == keys_view(locations@)[k],
            forall|i: int| m <= i < j && l[i] == lm ==> keys_view(locations@).contains(#[trigger] kv[i]),
        decreases n - j,
    {
        if uf.find(j) == lm {
            let key: MatchKey = (keys[j].0.clone(), keys[j].1, keys[j].2);
            let ghost before = keys_view(locations@);
            let ghost bidx = idx;
            assert(key_view(key) == kv[j as int]);
            assert(!before.contains(kv[j as int])) by {
                if before.contains(kv[j as int]) {
                    let k = choose|k: int| 0 <= k < before.len() && before[k] == kv[j as int];
                    assert(kv[bidx[k]] == kv[j as int]);
                }
            }
            assert forall|q: int| 0 <= q < locations@.len() implies !#[trigger] key_equiv(
                key_view(locations@[q]),
                key_view(key),
            ) by {
                assert(key_view(locations@[q]) == before[q]);
                assert(kv[bidx[q]] == before[q]);
                assert(bidx[q] < j);
                assert(!key_equiv(kv[bidx[q]], kv[j as int]));
            }
            let p = insert_location(&mut locations, key);
            proof {
                idx = bidx.insert(p as int, j as int);
                let after = keys_view(locations@);
                assert(after =~= before.insert(p as int, kv[j as int]));
                assert forall|a: int, b: int|
                    0 <= a < after.len() && 0 <= b < after.len() && a != b implies after[a] != after[b] by {
                    let a0 = if a < p { a } else { a - 1 };
                    let b0 = if b < p { b } else { b - 1 };
                    if a == p {
                        assert(after[b] == before[b0]);
                    } else if b == p {
                        assert(after[a] == before[a0]);
                    } else {
                        assert(after[a] == before[a0]);
                        assert(after[b] == before[b0]);
                    }
                }
                assert forall|k: int| 0 <= k < idx.len() implies m <= #[trigger] idx[k] < j + 1 && l[idx[k]]
                    == lm && kv[idx[k]] == after[k] by {
                    if k != p {
                        let k0 = if k < p { k } else { k - 1 };
                        assert(after[k] == before[k0]);
                        assert(idx[k] == bidx[k0]);
                    }
                }
                assert forall|i: int| m <= i < j + 1 && l[i] == lm implies after.contains(#[trigger] kv[i]) by {
                    if i == j {
                        assert(after[p as int] == kv[i]);
                    } else {
                        assert(before.contains(kv[i]));
                        let k = choose|k: int| 0 <= k < before.len() && before[k] == kv[i];
                        let k1 = if k < p { k } else { k + 1 };
                        assert(after[k1] == before[k]);
                    }
                }
            }
        }
        j = j + 1;
    }
    let g = DuplicateGroup { line_count: keys[m].2 - keys[m].1, locations, content: None };
    proof {
        let locs = locations_view(g);
        assert(locs == keys_view(g.locations@));
        assert forall|k: int| 0 <= k < locs.len() implies kv.contains(#[trigger] locs[k]) by {
            assert(kv[idx[k]] == locs[k]);
        }
        assert forall|i: int| 0 <= i < kv.len() implies (locs.contains(#[trigger] kv[i]) <==> l[i]
            == l[m as int]) by {
            if locs.contains(kv[i]) {
                let k = choose|k: int| 0 <= k < locs.len() && locs[k] == kv[i];
                assert(kv[idx[k]] == kv[i]);
            }
        }
    }
    g
}

/// Distinct values drawn from distinct regions are distinct regions.
proof fn lemma_locations_distinct(locs: Seq<KeyView>, keys: Seq<KeyView>)
    requires
        keys_distinct(keys),
        locs.no_duplicates(),
        forall|k: int| 0 <= k < locs.len() ==> keys.contains(#[trigger] locs[k]),
    ensures
        keys_distinct(locs),
{
    assert forall|x: int, y: int| 0 <= x < y < locs.len() implies !#[trigger] key_equiv(locs[x], locs[y]) by {
        assert(keys.contains(locs[x]));
        assert(keys.contains(locs[y]));
        let i = choose|i: int| 0 <= i < keys.len() && keys[i] == locs[x];
        let j = choose|j: int| 0 <= j < keys.len() && keys[j] == locs[y];
        assert(locs[x] != locs[y]);
        if i < j {
            assert(!key_equiv(keys[i], keys[j]));
        } else {
            assert(!key_equiv(keys[j], keys[i]));
        }
    }
}

/// For the labels of a well-formed table, equal labels and connection agree.
proof fn lemma_group_views_agree(t: KeyTable, m: int)
    requires
        table_wf(t),
        t.0.len() <= usize::MAX,
        0 <= m < t.0.len(),
    ensures
        class_min(t.1, m) == label_min(labels_after(t.1, t.0.len()), m),
        forall|g: DuplicateGroup|
            #![trigger group_of_class(g, t, m)]
            group_of_class(g, t, m) == group_of_label(g, t.0, labels_after(t.1, t.0.len()), m),
{
    let n = t.0.len();
    let l = labels_after(t.1, n);
    lemma_labels_bounded(t.1, n);
    assert forall|i: int| 0 <= i < n implies (connected(t.1, i, m) <==> l[i] == l[m]) by {
        lemma_labels_connected(t.1, n, i, m);
    }
    assert forall|g: DuplicateGroup| #[trigger] group_of_label(g, t.0, l, m) implies keys_distinct(
        locations_view(g),
    ) by {
        lemma_locations_distinct(locations_view(g), t.0);
    }
    assert(class_min(t.1, m) == label_min(l, m)) by {
        if class_min(t.1, m) {
            assert forall|i: int| 0 <= i < m implies #[trigger] l[i] != l[m] by {
                assert(!connected(t.1, i, m));
            }
        }
        if label_min(l, m) {
            assert forall|i: int| 0 <= i < m implies !#[trigger] connected(t.1, i, m) by {
                assert(l[i] != l[m]);
            }
        }
    }
}

/// Groups built for different first keys list locations, and their first
/// locations are not one region.
proof fn lemma_groups_apart(
    ga: DuplicateGroup,
    gb: DuplicateGroup,
    keys: Seq<KeyView>,
    l: Seq<usize>,
    wa: int,
    wb: int,
)
    requires
        keys_distinct(keys),
        l.len() == keys.len(),
        group_of_label(ga, keys, l, wa),
        group_of_label(gb, keys, l, wb),
        label_min(l, wa),
        label_min(l, wb),
        wa != wb,
    ensures
        groups_apart(ga, gb),
{
    let la = locations_view(ga);
    let lb = locations_view(gb);
    assert(la.contains(keys[wa]));
    assert(lb.contains(keys[wb]));
    assert(la.len() > 0 && lb.len() > 0);
    assert(keys.contains(la[0]));
    assert(keys.contains(lb[0]));
    let i = choose|i: int| 0 <= i < keys.len() && keys[i] == la[0];
    let j = choose|j: int| 0 <= j < keys.len() && keys[j] == lb[0];
    assert(la.contains(keys[i]));
    assert(lb.contains(keys[j]));
    assert(l[i] == l[wa]);
    assert(l[j] == l[wb]);
    if wa < wb {
        assert(l[wa] != l[wb]);
    } else {
        assert(l[wb] != l[wa]);
    }
    if i < j {
        assert(!key_equiv(keys[i], keys[j]));
    } else {
        assert(i != j);
        assert(!key_equiv(keys[j], keys[i]));
    }
}

/// Two groups built for different first keys never report the same class.
proof fn lemma_groups_distinct(
    ga: DuplicateGroup,
    gb: DuplicateGroup,
    keys: Seq<KeyView>,
    l: Seq<usize>,
    wa: int,
    wb: int,
    m: int,
)
    requires
        keys.no_duplicates(),
        l.len() == keys.len(),
        group_of_label(ga, keys, l, wa),
        group_of_label(gb, keys, l, wb),
        label_min(l, wa),
        label_min(l, wb),
        wa != wb,
    ensures
        !(group_of_label(ga, keys, l, m) && group_of_label(gb, keys, l, m)),
{
    if group_of_label(ga, keys, l, m) && group_of_label(gb, keys, l, m) {
        let la = locations_view(ga);
        let lb = locations_view(gb);
        assert(la.contains(keys[m]));
        assert(lb.contains(keys[m]));
        assert(l[m] == l[wa]);
        assert(l[m] == l[wb]);
        if wa < wb {
            assert(l[wa] != l[wb]);
        } else {
            assert(l[wb] != l[wa]);
        }
    }
}

/// The groups built for every first key of a class consolidate the table.
proof fn lemma_consolidated(groups: Seq<DuplicateGroup>, t: KeyTable, wit: Seq<int>, l: Seq<usize>)
    requires
        table_wf(t),
        t.0.len() <= usize::MAX,
        l == labels_after(t.1, t.0.len()),
        wit.len() == groups.len(),
        wit.no_duplicates(),
        forall|a: int|
            0 <= a < wit.len() ==> 0 <= #[trigger] wit[a] < t.0.len() && label_min(l, wit[a])
                && group_of_label(groups[a], t.0, l, wit[a]),
        forall|i: int| 0 <= i < t.0.len() && #[trigger] label_min(l, i) ==> wit.contains(i),
        groups_sorted(groups),
    ensures
        consolidates(groups, t),
{
    lemma_labels_bounded(t.1, t.0.len());
    lemma_keys_no_duplicates(t.0);
    assert forall|a: int| 0 <= a < groups.len() implies #[trigger] reports_a_class(groups[a], t) by {
        let w = wit[a];
        lemma_group_views_agree(t, w);
        assert(class_min(t.1, w));
        assert(group_of_class(groups[a], t, w));
    }
    assert forall|mm: int| 0 <= mm < t.0.len() && #[trigger] class_min(t.1, mm) implies class_reported(
        groups,
        t,
        mm,
    ) by {
        lemma_group_views_agree(t, mm);
        assert(label_min(l, mm));
        assert(wit.contains(mm));
        let a = choose|a: int| 0 <= a < wit.len() && wit[a] == mm;
        assert(group_of_label(groups[a], t.0, l, mm));
        assert(group_of_class(groups[a], t, mm));
    }
    assert forall|a: int, b: int, mm: int|
        0 <= a < b < groups.len() implies !(#[trigger] group_of_class(groups[a], t, mm)
            && #[trigger] group_of_class(groups[b], t, mm)) by {
        if 0 <= mm < t.0.len() {
            lemma_group_views_agree(t, mm);
            lemma_groups_distinct(groups[a], groups[b], t.0, l, wit[a], wit[b], mm);
        }
    }
}

/// Groups pairwise comparison results into deduplicated groups using union-find.
///
/// Each `Same` run in a `ComparisonResult` connects two (filename, start, end) regions.
/// By unioning all such connections, we discover which regions across all files
/// represent the same duplicated code.
pub fn group_duplicates(results: &[ComparisonResult<'_>], min_match: usize) -> (groups: Vec<
    DuplicateGroup,
>)
    requires
        runs_well_formed(results@),
    ensures
        consolidates(groups@, match_table(results@, min_match)),
        forall|i: int, j: int|
            0 <= i < results@.len() && 0 <= j < results@[i].runs@.len() ==> #[trigger] run_reported(
                groups@,
                results@[i],
                results@[i].runs@[j],
                min_match,
            ),
{
    let (keys, unions) = collect_keys(results, min_match);
    let ghost t = match_table(results@, min_match);
    let ghost kv = keys_view(keys@);
    if keys.len() == 0 {
        let groups: Vec<DuplicateGroup> = Vec::new();
        proof {
            assert(kv.len() == 0);
            assert(consolidates(groups@, t));
            lemma_qualifying_runs_reported(groups@, results@, min_match);
        }
        return groups;
    }
    let n = keys.len();
    proof {
        lemma_labels_bounded(t.1, n as nat);
    }

    // Build union-find and apply all unions
    let mut uf = UnionFind::new(n);
    let nu = unions.len();
    let mut k: usize = 0;
    while k < nu
        invariant
            nu == unions@.len(),
            k <= nu,
            unions@ == t.1,
            n == kv.len(),
            unions_within(t.1, n as nat),
            uf.labels() == labels_after(unions@.take(k as int), n as nat),
        decreases nu - k,
    {
        let (a, b) = unions[k];
        proof {
            assert(unions@[k as int].0 < n && unions@[k as int].1 < n);
            assert(unions@.take(k + 1).drop_last() =~= unions@.take(k as int));
            assert(unions@.take(k + 1).last() == unions@[k as int]);
            let pre = unions@.take(k as int);
            assert forall|q: int| 0 <= q < pre.len() implies #[trigger] pre[q].0 < n && pre[q].1 < n by {
                assert(pre[q] == unions@[q]);
            }
            lemma_labels_bounded(pre, n as nat);
        }
        uf.union(a, b);
        k = k + 1;
    }
    proof {
        assert(unions@.take(nu as int) =~= unions@);
    }
    let ghost l = uf.labels();

    // Collect groups by class, each built from the first key of its class
    let mut seen: Vec<bool> = Vec::new();
    let mut q: usize = 0;
    while q < n
        invariant
            q <= n,
            seen@ == Seq::new(q as nat, |x: int| false),
        decreases n - q,
    {
        seen.push(false);
        q = q + 1;
        proof {
            assert(seen@ =~= Seq::new(q as nat, |x: int| false));
        }
    }
    let mut groups: Vec<DuplicateGroup> = Vec::new();
    let ghost mut wit: Seq<int> = Seq::empty();
    let ghost mut first: Seq<int> = Seq::new(n as nat, |x: int| 0);
    let mut m: usize = 0;
    while m < n
        invariant
            n == kv.len(),
            kv == keys_view(keys@),
            t == (kv, unions@),
            table_wf(t),
            l == uf.labels(),
            l == labels_after(t.1, n as nat),
            l.len() == n,
            forall|i: int| 0 <= i < n ==> (#[trigger] l[i]) < n,
            m <= n,
            seen@.len() == n,
            first.len() == n,
            forall|i: int| 0 <= i < m ==> #[trigger] seen@[l[i] as int],
            forall|lab: int| 0 <= lab < n && #[trigger] seen@[lab] ==> 0 <= first[lab] < m && l[first[lab]] == lab,
            wit.len() == groups@.len(),
            wit.no_duplicates(),
            forall|a: int|
                0 <= a < wit.len() ==> 0 <= #[trigger] wit[a] < m && label_min(l, wit[a])
                    && group_of_label(groups@[a], kv, l, wit[a]),
            forall|i: int| 0 <= i < m && #[trigger] label_min(l, i) ==> wit.contains(i),
            groups_sorted(groups@),
        decreases n - m,
    {
        let lm = uf.find(m);
        if !seen[lm] {
            proof {
                assert forall|i: int| 0 <= i < m implies #[trigger] l[i] != l[m as int] by {
                    assert(seen@[l[i] as int]);
                }
                assert(label_min(l, m as int));
                assert(kv[m as int].1 <= kv[m as int].2);
            }
            let ghost old_seen = seen@;
            seen.set(lm, true);
            let g = build_group(&keys, &uf, m);
            proof {
                assert forall|q: int| 0 <= q < groups@.len() implies #[trigger] groups_apart(g, groups@[q]) by {
                    lemma_groups_apart(g, groups@[q], kv, l, m as int, wit[q]);
                }
            }
            let ghost old_groups = groups@;
            let ghost old_wit = wit;
            let p = insert_group(&mut groups, g);
            proof {
                first = first.update(lm as int, m as int);
                wit = old_wit.insert(p as int, m as int);
                assert forall|a: int, b: int|
                    0 <= a < wit.len() && 0 <= b < wit.len() && a != b implies wit[a] != wit[b] by {
                    let a0 = if a < p { a } else { a - 1 };
                    let b0 = if b < p { b } else { b - 1 };
                    if a == p {
                        assert(wit[b] == old_wit[b0]);
                    } else if b == p {
                        assert(wit[a] == old_wit[a0]);
                    } else {
                        assert(wit[a] == old_wit[a0]);
                        assert(wit[b] == old_wit[b0]);
                    }
                }
                assert forall|a: int|
                    0 <= a < wit.len() implies 0 <= #[trigger] wit[a] < m + 1 && label_min(l, wit[a])
                        && group_of_label(groups@[a], kv, l, wit[a]) by {
                    if a != p {
                        let a0 = if a < p { a } else { a - 1 };
                        assert(wit[a] == old_wit[a0]);
                        assert(groups@[a] == old_groups[a0]);
                    }
                }
                assert forall|i: int| 0 <= i < m + 1 && #[trigger] label_min(l, i) implies wit.contains(i) by {
                    if i == m {
                        assert(wit[p as int] == i);
                    } else {
                        assert(old_wit.contains(i));
                        let a0 = choose|a0: int| 0 <= a0 < old_wit.len() && old_wit[a0] == i;
                        let a1 = if a0 < p { a0 } else { a0 + 1 };
                        assert(wit[a1] == old_wit[a0]);
                    }
                }
                assert forall|i: int| 0 <= i < m + 1 implies #[trigger] seen@[l[i] as int] by {
                    if i < m {
                        assert(old_seen[l[i] as int]);
                    }
                }
            }
        } else {
            proof {
                let f = first[lm as int];
                assert(l[f] == l[m as int]);
                assert(!label_min(l, m as int));
            }
        }
        m = m + 1;
    }
    proof {
        lemma_consolidated(groups@, t, wit, l);
        lemma_qualifying_runs_reported(groups@, results@, min_match);
    }
    groups
}

proof fn lemma_connected_refl(unions: Seq<(usize, usize)>, i: int)
    ensures
        connected(unions, i, i),
{
}

proof fn lemma_connected_sym(unions: Seq<(usize, usize)>, i: int, j: int)
    requires
        connected(unions, i, j),
    ensures
        connected(unions, j, i),
{
    assert forall|f: spec_fn(int) -> int| #[trigger] respects(f, unions) implies f(j) == f(i) by {
        assert(f(i) == f(j));
    }
}

proof fn lemma_connected_trans(unions: Seq<(usize, usize)>, i: int, j: int, k: int)
    requires
        connected(unions, i, j),
        connected(unions, j, k),
    ensures
        connected(unions, i, k),
{
    assert forall|f: spec_fn(int) -> int| #[trigger] respects(f, unions) implies f(i) == f(k) by {
        assert(f(i) == f(j));
        assert(f(j) == f(k));
    }
}

/// Every key is connected to the first key of its class.
proof fn lemma_class_min_exists(unions: Seq<(usize, usize)>, i: int) -> (m: int)
    requires
        0 <= i,
    ensures
        0 <= m <= i,
        class_min(unions, m),
        connected(unions, i, m),
    decreases i,
{
    if class_min(unions, i) {
        lemma_connected_refl(unions, i);
        i
    } else {
        let j = choose|j: int| 0 <= j < i && #[trigger] connected(unions, j, i);
        let m = lemma_class_min_exists(unions, j);
        lemma_connected_sym(unions, j, i);
        lemma_connected_trans(unions, i, j, m);
        m
    }
}

/// Finds a group that lists the region `i`.
proof fn lemma_region_in_group(groups: Seq<DuplicateGroup>, t: KeyTable, i: int) -> (a: int)
    requires
        consolidates(groups, t),
        0 <= i < t.0.len(),
    ensures
        0 <= a < groups.len(),
        locations_view(groups[a]).contains(t.0[i]),
{
    let m = lemma_class_min_exists(t.1, i);
    assert(class_reported(groups, t, m));
    let a = choose|a: int| #![trigger groups[a]] 0 <= a < groups.len() && group_of_class(groups[a], t, m);
    assert(locations_view(groups[a]).contains(t.0[i]) <==> connected(t.1, i, m));
    a
}

/// Some group of `groups` lists the region `k`.
pub open spec fn region_reported(groups: Seq<DuplicateGroup>, k: KeyView) -> bool {
    exists|a: int| #![trigger groups[a]] 0 <= a < groups.len() && locations_view(groups[a]).contains(k)
}

/// Some group of `groups` lists both regions `k1` and `k2`.
pub open spec fn regions_reported_together(groups: Seq<DuplicateGroup>, k1: KeyView, k2: KeyView) -> bool {
    exists|a: int|
        #![trigger groups[a]]
        0 <= a < groups.len() && locations_view(groups[a]).contains(k1) && locations_view(
            groups[a],
        ).contains(k2)
}

/// Every region of a connection, that is both sides of every qualifying
/// `Same` run, is reported in exactly one group, and the two sides of a run
/// are reported in the same group.
pub proof fn lemma_regions_partitioned(groups: Seq<DuplicateGroup>, t: KeyTable)
    requires
        consolidates(groups, t),
        table_wf(t),
    ensures
        forall|i: int| 0 <= i < t.0.len() ==> #[trigger] region_reported(groups, t.0[i]),
        forall|i: int, a: int, b: int|
            0 <= i < t.0.len() && 0 <= a < groups.len() && 0 <= b < groups.len()
                && #[trigger] locations_view(groups[a]).contains(t.0[i])
                && #[trigger] locations_view(groups[b]).contains(t.0[i]) ==> a == b,
        forall|k: int|
            0 <= k < t.1.len() ==> #[trigger] regions_reported_together(
                groups,
                t.0[t.1[k].0 as int],
                t.0[t.1[k].1 as int],
            ),
{
    assert forall|i: int| 0 <= i < t.0.len() implies #[trigger] region_reported(groups, t.0[i]) by {
        let a = lemma_region_in_group(groups, t, i);
        assert(locations_view(groups[a]).contains(t.0[i]));
    }
    assert forall|i: int, a: int, b: int|
        0 <= i < t.0.len() && 0 <= a < groups.len() && 0 <= b < groups.len()
            && #[trigger] locations_view(groups[a]).contains(t.0[i])
            && #[trigger] locations_view(groups[b]).contains(t.0[i]) implies a == b by {
        assert(reports_a_class(groups[a], t));
        assert(reports_a_class(groups[b], t));
        let ma = choose|m: int| #![trigger group_of_class(groups[a], t, m)] class_min(t.1, m) && group_of_class(groups[a], t, m);
        let mb = choose|m: int| #![trigger group_of_class(groups[b], t, m)] class_min(t.1, m) && group_of_class(groups[b], t, m);
        assert(connected(t.1, i, ma));
        assert(connected(t.1, i, mb));
        lemma_connected_sym(t.1, i, ma);
        lemma_connected_trans(t.1, ma, i, mb);
        if ma < mb {
            assert(!connected(t.1, ma, mb));
        } else if mb < ma {
            lemma_connected_sym(t.1, ma, mb);
            assert(!connected(t.1, mb, ma));
        } else if a < b {
            assert(!(group_of_class(groups[a], t, ma) && group_of_class(groups[b], t, ma)));
        } else if b < a {
            assert(!(group_of_class(groups[b], t, ma) && group_of_class(groups[a], t, ma)));
        }
    }
    assert forall|k: int| 0 <= k < t.1.len() implies #[trigger] regions_reported_together(
        groups,
        t.0[t.1[k].0 as int],
        t.0[t.1[k].1 as int],
    ) by {
        let i = t.1[k].0 as int;
        let j = t.1[k].1 as int;
        assert(t.1[k].0 < t.0.len() && t.1[k].1 < t.0.len());
        assert(connected(t.1, i, j)) by {
            assert forall|f: spec_fn(int) -> int| #[trigger] respects(f, t.1) implies f(i) == f(j) by {
                assert(f(t.1[k].0 as int) == f(t.1[k].1 as int));
            }
        }
        let m = lemma_class_min_exists(t.1, i);
        assert(class_reported(groups, t, m));
        let a = choose|a: int| #![trigger groups[a]] 0 <= a < groups.len() && group_of_class(groups[a], t, m);
        lemma_connected_sym(t.1, i, j);
        lemma_connected_trans(t.1, j, i, m);
        assert(locations_view(groups[a]).contains(t.0[i]));
        assert(locations_view(groups[a]).contains(t.0[j]));
    }
}

/// With no `Same` run of at least `min_match` lines there is no group.
pub proof fn lemma_no_connection_no_group(groups: Seq<DuplicateGroup>, t: KeyTable)
    requires
        consolidates(groups, t),
        t.0.len() == 0,
    ensures
        groups.len() == 0,
{
    if groups.len() > 0 {
        assert(reports_a_class(groups[0], t));
    }
}

/// `key` is one of the two regions of some connection of `conns`.
pub open spec fn key_from_conns(conns: Seq<Conn>, key: KeyView) -> bool {
    exists|k: int| #![trigger conns[k]] 0 <= k < conns.len() && (conns[k].0 == key || conns[k].1 == key)
}

/// The `k`-th pair to unite names keys that are the two regions of the
/// `k`-th connection.
pub open spec fn pair_names_conn(t: KeyTable, conns: Seq<Conn>, k: int) -> bool {
    &&& t.1[k].0 < t.0.len()
    &&& t.1[k].1 < t.0.len()
    &&& key_equiv(t.0[t.1[k].0 as int], conns[k].0)
    &&& key_equiv(t.0[t.1[k].1 as int], conns[k].1)
}

proof fn lemma_find_key_names(keys: Seq<KeyView>, k: KeyView)
    ensures
        key_equiv(insert_key(keys, k)[find_key(keys, k)], k),
{
    lemma_find_key_range(keys, k);
    if key_known(keys, k) {
        let f = lemma_first_key_exists(keys, k, keys.len() as int);
        lemma_find_key(keys, k, f);
    } else {
        assert(insert_key(keys, k)[keys.len() as int] == k);
    }
}

proof fn lemma_key_table_grows(conns: Seq<Conn>)
    requires
        conns.len() > 0,
    ensures
        key_table(conns.drop_last()).0.len() <= key_table(conns).0.len(),
{
}

/// The key table holds exactly the regions of the connections: every key
/// is a region of some connection, and the `k`-th pair to unite names keys
/// that are the two regions of the `k`-th connection (as long as key
/// indices fit in `usize`).
#[verifier::rlimit(40)]
pub proof fn lemma_key_table_regions(conns: Seq<Conn>)
    requires
        key_table(conns).0.len() <= usize::MAX,
    ensures
        key_table(conns).1.len() == conns.len(),
        forall|i: int| 0 <= i < key_table(conns).0.len() ==> key_from_conns(conns, #[trigger] key_table(conns).0[i]),
        forall|k: int| 0 <= k < conns.len() ==> #[trigger] pair_names_conn(key_table(conns), conns, k),
    decreases conns.len(),
{
    if conns.len() > 0 {
        let n = conns.len() - 1;
        let pre = conns.drop_last();
        let c = conns[n];
        lemma_key_table_regions(pre);
        let tp = key_table(pre);
        let t = key_table(conns);
        let s1 = insert_key(tp.0, c.0);
        let s2 = insert_key(s1, c.1);
        lemma_key_table_grows(conns);
        assert(conns.drop_last() == pre);
        let i1 = find_key(tp.0, c.0);
        let i2 = find_key(s1, c.1);
        lemma_find_key_range(tp.0, c.0);
        lemma_find_key_range(s1, c.1);
        lemma_find_key_names(tp.0, c.0);
        lemma_find_key_names(s1, c.1);
        assert(t == (s2, tp.1.push((i1 as usize, i2 as usize))));
        assert(key_equiv(s2[i1], c.0)) by {
            assert(s2[i1] == s1[i1]);
        }
        assert forall|i: int| 0 <= i < t.0.len() implies key_from_conns(conns, #[trigger] t.0[i]) by {
            if i < tp.0.len() {
                assert(s1[i] == tp.0[i]);
                assert(s2[i] == s1[i]);
                assert(key_from_conns(pre, tp.0[i]));
                let k = choose|k: int| #![trigger pre[k]] 0 <= k < pre.len() && (pre[k].0 == tp.0[i] || pre[k].1 == tp.0[i]);
                assert(conns[k] == pre[k]);
            } else if i < s1.len() {
                assert(s2[i] == s1[i]);
                assert(s1[i] == c.0);
                assert(conns[n] == c);
            } else {
                assert(s2[i] == c.1);
                assert(conns[n] == c);
            }
        }
        assert forall|k: int| 0 <= k < conns.len() implies #[trigger] pair_names_conn(t, conns, k) by {
            if k < n {
                assert(conns[k] == pre[k]);
                assert(t.1[k] == tp.1[k]);
                assert(pair_names_conn(tp, pre, k));
                assert(s1[tp.1[k].0 as int] == tp.0[tp.1[k].0 as int]);
                assert(s2[tp.1[k].0 as int] == s1[tp.1[k].0 as int]);
                assert(s1[tp.1[k].1 as int] == tp.0[tp.1[k].1 as int]);
                assert(s2[tp.1[k].1 as int] == s1[tp.1[k].1 as int]);
            } else {
                assert(conns[k] == c);
                assert(t.1[k] == (i1 as usize, i2 as usize));
                assert(i1 < s2.len() <= usize::MAX);
                assert(i2 < s2.len());
            }
        }
    }
}

/// Every region of a qualifying `Same` run is reported: both regions of
/// each such run appear, as the same paths and lines, in one group; and
/// every reported location is a region of some such run.
pub proof fn lemma_runs_reported(groups: Seq<DuplicateGroup>, results: Seq<ComparisonResult>, min_match: usize)
    requires
        runs_well_formed(results),
        consolidates(groups, match_table(results, min_match)),
        match_table(results, min_match).0.len() <= usize::MAX,
    ensures
        forall|k: int|
            0 <= k < all_conns(results, results.len() as int, min_match).len() ==> exists|a: int, x: int, y: int|
                #![trigger groups[a].locations@[x], groups[a].locations@[y]]
                0 <= a < groups.len() && 0 <= x < groups[a].locations@.len() && 0 <= y
                    < groups[a].locations@.len() && key_equiv(
                    key_view(groups[a].locations@[x]),
                    (#[trigger] all_conns(results, results.len() as int, min_match)[k]).0,
                ) && key_equiv(
                    key_view(groups[a].locations@[y]),
                    all_conns(results, results.len() as int, min_match)[k].1,
                ),
        forall|a: int, x: int|
            0 <= a < groups.len() && 0 <= x < groups[a].locations@.len() ==> key_from_conns(
                all_conns(results, results.len() as int, min_match),
                key_view(#[trigger] groups[a].locations@[x]),
            ),
{
    let conns = all_conns(results, results.len() as int, min_match);
    let t = match_table(results, min_match);
    lemma_all_conns_wf(results, results.len() as int, min_match);
    lemma_key_table_wf(conns);
    lemma_key_table_regions(conns);
    lemma_regions_partitioned(groups, t);
    assert forall|k: int| 0 <= k < conns.len() implies exists|a: int, x: int, y: int|
        #![trigger groups[a].locations@[x], groups[a].locations@[y]]
        0 <= a < groups.len() && 0 <= x < groups[a].locations@.len() && 0 <= y
            < groups[a].locations@.len() && key_equiv(key_view(groups[a].locations@[x]), (#[trigger] conns[k]).0)
            && key_equiv(key_view(groups[a].locations@[y]), conns[k].1) by {
        let i = t.1[k].0 as int;
        let j = t.1[k].1 as int;
        assert(pair_names_conn(t, conns, k));
        assert(regions_reported_together(groups, t.0[i], t.0[j]));
        let a = choose|a: int|
            #![trigger groups[a]]
            0 <= a < groups.len() && locations_view(groups[a]).contains(t.0[i]) && locations_view(
                groups[a],
            ).contains(t.0[j]);
        let lv = locations_view(groups[a]);
        let x = choose|x: int| 0 <= x < lv.len() && lv[x] == t.0[i];
        let y = choose|y: int| 0 <= y < lv.len() && lv[y] == t.0[j];
        assert(key_view(groups[a].locations@[x]) == lv[x]);
        assert(key_view(groups[a].locations@[y]) == lv[y]);
    }
    assert forall|a: int, x: int| 0 <= a < groups.len() && 0 <= x < groups[a].locations@.len() implies key_from_conns(
        conns,
        key_view(#[trigger] groups[a].locations@[x]),
    ) by {
        assert(reports_a_class(groups[a], t));
        let m = choose|m: int| #![trigger group_of_class(groups[a], t, m)] class_min(t.1, m) && group_of_class(groups[a], t, m);
        let lv = locations_view(groups[a]);
        assert(lv[x] == key_view(groups[a].locations@[x]));
        assert(t.0.contains(lv[x]));
        let i = choose|i: int| 0 <= i < t.0.len() && t.0[i] == lv[x];
        assert(key_from_conns(conns, t.0[i]));
    }
}

proof fn lemma_run_conns_long(res: ComparisonResult, j: int, min_match: usize)
    requires
        0 <= j <= res.runs@.len(),
    ensures
        forall|k: int|
            0 <= k < run_conns(res, j, min_match).len() ==> (#[trigger] run_conns(res, j, min_match)[k]).0.2
                - run_conns(res, j, min_match)[k].0.1 >= min_match,
    decreases j,
{
    if j > 0 {
        lemma_run_conns_long(res, j - 1, min_match);
        let prev = run_conns(res, j - 1, min_match);
        let cur = run_conns(res, j, min_match);
        assert forall|k: int| 0 <= k < cur.len() implies (#[trigger] cur[k]).0.2 - cur[k].0.1 >= min_match by {
            if k < prev.len() {
                assert(cur[k] == prev[k]);
            }
        }
    }
}

/// The first region of every connection spans at least `min_match` lines.
proof fn lemma_all_conns_long(results: Seq<ComparisonResult>, i: int, min_match: usize)
    requires
        0 <= i <= results.len(),
    ensures
        forall|k: int|
            0 <= k < all_conns(results, i, min_match).len() ==> (#[trigger] all_conns(results, i, min_match)[k]).0.2
                - all_conns(results, i, min_match)[k].0.1 >= min_match,
    decreases i,
{
    if i > 0 {
        lemma_all_conns_long(results, i - 1, min_match);
        let res = results[i - 1];
        lemma_run_conns_long(res, res.runs@.len() as int, min_match);
        let a = all_conns(results, i - 1, min_match);
        let b = run_conns(res, res.runs@.len() as int, min_match);
        assert forall|k: int| 0 <= k < (a + b).len() implies (#[trigger] (a + b)[k]).0.2 - (a + b)[k].0.1
            >= min_match by {
            if k < a.len() {
                assert((a + b)[k] == a[k]);
            } else {
                assert((a + b)[k] == b[k - a.len()]);
            }
        }
    }
}

/// The two regions of every connection span the same number of lines and
/// are not one region.
pub open spec fn conns_balanced(conns: Seq<Conn>) -> bool {
    forall|k: int|
        0 <= k < conns.len() ==> (#[trigger] conns[k]).0.2 - conns[k].0.1 == conns[k].1.2 - conns[k].1.1
            && !key_equiv(conns[k].0, conns[k].1)
}

/// When both regions of every qualifying run have the same length and are
/// not one region, every group lists at least two locations, each spanning
/// exactly its line count, which is at least `min_match`.
#[verifier::rlimit(60)]
pub proof fn lemma_group_shape(groups: Seq<DuplicateGroup>, results: Seq<ComparisonResult>, min_match: usize)
    requires
        runs_well_formed(results),
        consolidates(groups, match_table(results, min_match)),
        match_table(results, min_match).0.len() <= usize::MAX,
        conns_balanced(all_conns(results, results.len() as int, min_match)),
    ensures
        forall|a: int|
            0 <= a < groups.len() ==> {
                &&& (#[trigger] groups[a]).locations@.len() >= 2
                &&& groups[a].line_count >= min_match
                &&& forall|x: int|
                    0 <= x < groups[a].locations@.len() ==> (#[trigger] groups[a].locations@[x]).2
                        - groups[a].locations@[x].1 == groups[a].line_count
            },
{
    let conns = all_conns(results, results.len() as int, min_match);
    let t = match_table(results, min_match);
    lemma_all_conns_wf(results, results.len() as int, min_match);
    lemma_all_conns_long(results, results.len() as int, min_match);
    lemma_key_table_wf(conns);
    lemma_key_table_regions(conns);
    lemma_keys_no_duplicates(t.0);
    let f = |i: int| t.0[i].2 - t.0[i].1;
    assert(respects(f, t.1)) by {
        assert forall|k: int| 0 <= k < t.1.len() implies f(#[trigger] t.1[k].0 as int) == f(t.1[k].1 as int) by {
            assert(pair_names_conn(t, conns, k));
            assert(conns_balanced(conns));
            assert(conns[k].0.2 - conns[k].0.1 == conns[k].1.2 - conns[k].1.1);
        }
    }
    assert forall|a: int| 0 <= a < groups.len() implies {
        &&& (#[trigger] groups[a]).locations@.len() >= 2
        &&& groups[a].line_count >= min_match
        &&& forall|x: int|
            0 <= x < groups[a].locations@.len() ==> (#[trigger] groups[a].locations@[x]).2
                - groups[a].locations@[x].1 == groups[a].line_count
    } by {
        let g = groups[a];
        assert(reports_a_class(g, t));
        let m = choose|m: int| #![trigger group_of_class(g, t, m)] class_min(t.1, m) && group_of_class(g, t, m);
        let lv = locations_view(g);
        assert(g.line_count == f(m));
        assert forall|x: int| 0 <= x < g.locations@.len() implies (#[trigger] g.locations@[x]).2
            - g.locations@[x].1 == g.line_count by {
            assert(lv[x] == key_view(g.locations@[x]));
            assert(t.0.contains(lv[x]));
            let i = choose|i: int| 0 <= i < t.0.len() && t.0[i] == lv[x];
            assert(lv.contains(t.0[i]));
            assert(connected(t.1, i, m));
            assert(f(i) == f(m));
        }
        assert(key_from_conns(conns, t.0[m]));
        let k = choose|k: int| #![trigger conns[k]] 0 <= k < conns.len() && (conns[k].0 == t.0[m] || conns[k].1 == t.0[m]);
        assert(pair_names_conn(t, conns, k));
        assert(conns_balanced(conns));
        assert(conns[k].0.2 - conns[k].0.1 >= min_match);
        let u0 = t.1[k].0 as int;
        let u1 = t.1[k].1 as int;
        assert(connected(t.1, u0, u1)) by {
            assert forall|h: spec_fn(int) -> int| #[trigger] respects(h, t.1) implies h(u0) == h(u1) by {
                assert(h(t.1[k].0 as int) == h(t.1[k].1 as int));
            }
        }
        let other = if conns[k].0 == t.0[m] {
            assert(key_equiv(t.0[u0], t.0[m]));
            if u0 != m {
                if u0 < m {
                    assert(!key_equiv(t.0[u0], t.0[m]));
                } else {
                    assert(!key_equiv(t.0[m], t.0[u0]));
                }
            }
            if u1 == m {
                assert(key_equiv(conns[k].0, conns[k].1));
            }
            u1
        } else {
            assert(key_equiv(t.0[u1], t.0[m]));
            if u1 != m {
                if u1 < m {
                    assert(!key_equiv(t.0[u1], t.0[m]));
                } else {
                    assert(!key_equiv(t.0[m], t.0[u1]));
                }
            }
            if u0 == m {
                assert(key_equiv(conns[k].0, conns[k].1));
            }
            lemma_connected_sym(t.1, u0, u1);
            u0
        };
        assert(other != m);
        assert(connected(t.1, other, m));
        lemma_connected_refl(t.1, m);
        assert(lv.contains(t.0[other]));
        assert(lv.contains(t.0[m]));
        assert(t.0[other] != t.0[m]);
        assert(lv.len() >= 2) by {
            let x = choose|x: int| 0 <= x < lv.len() && lv[x] == t.0[other];
            let y = choose|y: int| 0 <= y < lv.len() && lv[y] == t.0[m];
            assert(x != y);
        }
        assert(g.line_count >= min_match);
    }
}

/// Some group lists the region `k1` and the region `k2` (up to the same
/// paths).
pub open spec fn regions_listed_together(groups: Seq<DuplicateGroup>, k1: KeyView, k2: KeyView) -> bool {
    exists|a: int, x: int, y: int|
        #![trigger groups[a].locations@[x], groups[a].locations@[y]]
        0 <= a < groups.len() && 0 <= x < groups[a].locations@.len() && 0 <= y
            < groups[a].locations@.len() && key_equiv(key_view(groups[a].locations@[x]), k1)
            && key_equiv(key_view(groups[a].locations@[y]), k2)
}

/// A `Same` run of `res` spanning at least `min_match` lines has its two
/// regions, in the first and second file of `res`, listed in one group.
pub open spec fn run_reported(
    groups: Seq<DuplicateGroup>,
    res: ComparisonResult,
    run: LineRange,
    min_match: usize,
) -> bool {
    match run {
        LineRange::Same { r1, r2 } => r1.end - r1.start >= min_match ==> regions_listed_together(
            groups,
            (res.f1.filename@, r1.start, r1.end),
            (res.f2.filename@, r2.start, r2.end),
        ),
        LineRange::Diff { .. } => true,
    }
}

proof fn lemma_run_conns_hold(res: ComparisonResult, j: int, n: int, min_match: usize)
    requires
        0 <= j < n <= res.runs@.len(),
    ensures
        match res.runs@[j] {
            LineRange::Same { r1, r2 } => r1.end - r1.start >= min_match ==> run_conns(res, n, min_match).contains(
                ((res.f1.filename@, r1.start, r1.end), (res.f2.filename@, r2.start, r2.end)),
            ),
            LineRange::Diff { .. } => true,
        },
    decreases n,
{
    if j < n - 1 {
        lemma_run_conns_hold(res, j, n - 1, min_match);
        let prev = run_conns(res, n - 1, min_match);
        let cur = run_conns(res, n, min_match);
        assert forall|c: Conn| prev.contains(c) implies cur.contains(c) by {
            let k = choose|k: int| 0 <= k < prev.len() && prev[k] == c;
            assert(cur[k] == prev[k]);
        }
    } else {
        let cur = run_conns(res, n, min_match);
        match res.runs@[j] {
            LineRange::Same { r1, r2 } => {
                if r1.end - r1.start >= min_match {
                    assert(cur[cur.len() - 1] == ((res.f1.filename@, r1.start, r1.end), (
                        res.f2.filename@,
                        r2.start,
                        r2.end,
                    )));
                }
            },
            LineRange::Diff { .. } => {},
        }
    }
}

proof fn lemma_all_conns_hold(results: Seq<ComparisonResult>, i: int, j: int, n: int, min_match: usize)
    requires
        0 <= i < n <= results.len(),
        0 <= j < results[i].runs@.len(),
    ensures
        match results[i].runs@[j] {
            LineRange::Same { r1, r2 } => r1.end - r1.start >= min_match ==> all_conns(results, n, min_match).contains(
                ((results[i].f1.filename@, r1.start, r1.end), (results[i].f2.filename@, r2.start, r2.end)),
            ),
            LineRange::Diff { .. } => true,
        },
    decreases n,
{
    let a = all_conns(results, n - 1, min_match);
    let b = run_conns(results[n - 1], results[n - 1].runs@.len() as int, min_match);
    assert(all_conns(results, n, min_match) == a + b);
    if i < n - 1 {
        lemma_all_conns_hold(results, i, j, n - 1, min_match);
        assert forall|c: Conn| a.contains(c) implies (a + b).contains(c) by {
            let k = choose|k: int| 0 <= k < a.len() && a[k] == c;
            assert((a + b)[k] == a[k]);
        }
    } else {
        lemma_run_conns_hold(results[i], j, results[i].runs@.len() as int, min_match);
        assert forall|c: Conn| b.contains(c) implies (a + b).contains(c) by {
            let k = choose|k: int| 0 <= k < b.len() && b[k] == c;
            assert((a + b)[a.len() + k] == b[k]);
        }
    }
}

/// Every `Same` run of at least `min_match` lines, a file's run with itself
/// included, has both its regions listed in one group.
pub proof fn lemma_qualifying_runs_reported(
    groups: Seq<DuplicateGroup>,
    results: Seq<ComparisonResult>,
    min_match: usize,
)
    requires
        runs_well_formed(results),
        consolidates(groups, match_table(results, min_match)),
        match_table(results, min_match).0.len() <= usize::MAX,
    ensures
        forall|i: int, j: int|
            0 <= i < results.len() && 0 <= j < results[i].runs@.len() ==> #[trigger] run_reported(
                groups,
                results[i],
                results[i].runs@[j],
                min_match,
            ),
{
    let conns = all_conns(results, results.len() as int, min_match);
    lemma_runs_reported(groups, results, min_match);
    assert forall|i: int, j: int| 0 <= i < results.len() && 0 <= j < results[i].runs@.len() implies #[trigger] run_reported(
        groups,
        results[i],
        results[i].runs@[j],
        min_match,
    ) by {
        lemma_all_conns_hold(results, i, j, results.len() as int, min_match);
        match results[i].runs@[j] {
            LineRange::Same { r1, r2 } => {
                if r1.end - r1.start >= min_match {
                    let c = ((results[i].f1.filename@, r1.start, r1.end), (results[i].f2.filename@, r2.start, r2.end));
                    assert(conns.contains(c));
                    let k = choose|k: int| 0 <= k < conns.len() && conns[k] == c;
                    assert(conns[k] == c);
                }
            },
            LineRange::Diff { .. } => {},
        }
    }
}

} // verus!
