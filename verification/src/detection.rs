//! Detection of duplicated regions between files.
//!
//! Every window of `min_match` consecutive lines of every file gets a
//! rolling fingerprint. Windows are bucketed by fingerprint; two windows of
//! one bucket whose predecessors do not also match start a run, which is
//! walked forward while the windows stay in lockstep. Each run becomes a
//! `Same` range pair in the comparison result of its two files, and the
//! runs are then consolidated into duplicate groups.
use vstd::prelude::*;

use crate::grouping::{DuplicateGroup, consolidates, group_duplicates, match_table, runs_well_formed};
use crate::rolling_hash::{
    BlockDescriptor, FileRegistry, compute_rolling_hashes, distinct_paths, path_known, xor_range,
};
use crate::error::SameError;
use crate::types::{ComparisonResult, FileDescription, LineRange, Range};

verus! {

/// A run of matching windows: the two file numbers and the line ranges.
pub type Run = (usize, usize, LineRange);

/// The runs found between one pair of files.
pub type PairRuns = ((usize, usize), Seq<LineRange>);

/// Windows by fingerprint, in an Fx-hashed map (rustc-hash).
pub type Buckets = rustc_hash::FxHashMap<u64, Vec<usize>>;

/// Names the windows held, per fingerprint, by an Fx-hashed map.
pub uninterp spec fn fx_buckets(map: Buckets) -> Map<u64, Seq<usize>>;

/// `FxHashMap::default()` (rustc-hash, std's `HashMap` with `FxBuildHasher`).
///
/// Trusted: a new map holds no key.
#[verifier::external_body]
fn fx_buckets_new() -> (map: Buckets)
    ensures
        fx_buckets(map).dom() == Set::<u64>::empty(),
{
    rustc_hash::FxHashMap::default()
}

/// `HashMap::remove` on an Fx-hashed map from fingerprints to windows.
///
/// Trusted: std documents that `remove` returns the value held for the key,
/// if any, and that the key is absent afterwards.
#[verifier::external_body]
fn fx_buckets_remove(map: &mut Buckets, key: u64) -> (value: Option<
    Vec<usize>,
>)
    ensures
        match value {
            Some(v) => fx_buckets(*old(map)).contains_key(key) && fx_buckets(*old(map))[key] == v@,
            None => !fx_buckets(*old(map)).contains_key(key),
        },
        fx_buckets(*final(map)) == fx_buckets(*old(map)).remove(key),
{
    map.remove(&key)
}

/// `HashMap::insert` on an Fx-hashed map from fingerprints to windows.
///
/// Trusted: std documents that afterwards the key maps to the new value.
#[verifier::external_body]
fn fx_buckets_insert(map: &mut Buckets, key: u64, value: Vec<usize>)
    ensures
        fx_buckets(*final(map)) == fx_buckets(*old(map)).insert(key, value@),
{
    map.insert(key, value);
}

/// The windows of one file, as `compute_rolling_hashes` describes them.
pub open spec fn file_windows(hashes: Seq<u64>, f: int, min_match: usize) -> Seq<BlockDescriptor> {
    if min_match == 0 || hashes.len() < min_match {
        Seq::empty()
    } else {
        Seq::new(
            (hashes.len() - min_match + 1) as nat,
            |s: int|
                BlockDescriptor {
                    hash: xor_range(hashes, s, s + min_match),
                    file_num: f as usize,
                    start: s as usize,
                    end: (s + min_match) as usize,
                },
        )
    }
}

/// The windows of the first `k` files, file by file.
pub open spec fn all_windows(files: Seq<FileDescription>, min_match: usize, k: int) -> Seq<
    BlockDescriptor,
>
    decreases k,
{
    if k <= 0 {
        Seq::empty()
    } else {
        all_windows(files, min_match, k - 1) + file_windows(files[k - 1].hashes@, k - 1, min_match)
    }
}

/// The windows of all files.
pub open spec fn windows_of(files: Seq<FileDescription>, min_match: usize) -> Seq<BlockDescriptor> {
    all_windows(files, min_match, files.len() as int)
}

/// Windows are ordered by file, then start, and each spans `min_match`
/// lines of its file.
pub open spec fn windows_ordered(w: Seq<BlockDescriptor>, min_match: usize) -> bool {
    &&& forall|g: int|
        0 <= g < w.len() ==> (#[trigger] w[g]).end == w[g].start + min_match
    &&& forall|g1: int, g2: int|
        0 <= g1 < g2 < w.len() ==> (#[trigger] w[g1]).file_num < (#[trigger] w[g2]).file_num || (
        w[g1].file_num == w[g2].file_num && w[g1].start < w[g2].start)
}

/// The windows `a + k` and `b + k` both exist, stay in the files of `a` and
/// `b`, and share a fingerprint.
pub open spec fn lockstep(w: Seq<BlockDescriptor>, a: int, b: int, k: int) -> bool {
    &&& 0 <= a
    &&& 0 <= b
    &&& 0 <= k
    &&& a + k < w.len()
    &&& b + k < w.len()
    &&& w[a + k].file_num == w[a].file_num
    &&& w[b + k].file_num == w[b].file_num
    &&& w[a + k].hash == w[b + k].hash
}

/// The first `k` from which the windows after `a` and `b` stop matching.
pub open spec fn lockstep_len(w: Seq<BlockDescriptor>, a: int, b: int, k: int) -> int
    decreases w.len() - k,
{
    if !lockstep(w, a, b, k) {
        k
    } else {
        lockstep_len(w, a, b, k + 1)
    }
}

/// Windows `a < b` share a fingerprint and their predecessors (in the same
/// files) do not: they start a run.
pub open spec fn starts_run(w: Seq<BlockDescriptor>, a: int, b: int) -> bool {
    &&& 0 <= a < b < w.len()
    &&& w[a].hash == w[b].hash
    &&& !(a > 0 && w[a - 1].file_num == w[a].file_num && w[b - 1].file_num == w[b].file_num && w[a
        - 1].hash == w[b - 1].hash)
}

/// The run started by windows `a` and `b`: from the start of the first
/// matching windows to the end of the last ones.
pub open spec fn run_of(w: Seq<BlockDescriptor>, a: int, b: int) -> Run {
    let l = lockstep_len(w, a, b, 0);
    (
        w[a].file_num,
        w[b].file_num,
        LineRange::Same {
            r1: Range { start: w[a].start, end: w[a + l - 1].end },
            r2: Range { start: w[b].start, end: w[b + l - 1].end },
        },
    )
}

/// The windows before `k` with fingerprint `h`, in order.
pub open spec fn bucket(w: Seq<BlockDescriptor>, k: int, h: u64) -> Seq<usize>
    decreases k,
{
    if k <= 0 {
        Seq::empty()
    } else {
        bucket(w, k - 1, h) + if w[k - 1].hash == h {
            seq![(k - 1) as usize]
        } else {
            Seq::empty()
        }
    }
}

/// The runs that the first `j` candidates start together with window `b`.
pub open spec fn runs_among(w: Seq<BlockDescriptor>, b: int, cands: Seq<usize>, j: int) -> Seq<Run>
    decreases j,
{
    if j <= 0 {
        Seq::empty()
    } else {
        runs_among(w, b, cands, j - 1) + if starts_run(w, cands[j - 1] as int, b) {
            seq![run_of(w, cands[j - 1] as int, b)]
        } else {
            Seq::empty()
        }
    }
}

/// The runs whose second window is `b`: one per earlier window of the same
/// fingerprint that starts a run with it.
pub open spec fn runs_ending_at(w: Seq<BlockDescriptor>, b: int) -> Seq<Run> {
    let cands = bucket(w, b, w[b].hash);
    runs_among(w, b, cands, cands.len() as int)
}

/// The runs whose second window comes before `k`.
pub open spec fn all_runs(w: Seq<BlockDescriptor>, k: int) -> Seq<Run>
    decreases k,
{
    if k <= 0 {
        Seq::empty()
    } else {
        all_runs(w, k - 1) + runs_ending_at(w, k - 1)
    }
}

/// The position of the pair `p` among `ps`, or -1.
pub open spec fn find_pair(ps: Seq<PairRuns>, p: (usize, usize)) -> int
    decreases ps.len(),
{
    if ps.len() == 0 {
        -1
    } else if ps.last().0 == p {
        ps.len() - 1
    } else {
        find_pair(ps.drop_last(), p)
    }
}

/// The runs collected per pair of files, pairs in order of their first run.
pub open spec fn pair_runs(runs: Seq<Run>) -> Seq<PairRuns>
    decreases runs.len(),
{
    if runs.len() == 0 {
        Seq::empty()
    } else {
        let prev = pair_runs(runs.drop_last());
        let r = runs.last();
        let i = find_pair(prev, (r.0, r.1));
        if i >= 0 {
            prev.update(i, (prev[i].0, prev[i].1.push(r.2)))
        } else {
            prev.push(((r.0, r.1), seq![r.2]))
        }
    }
}

/// `r` compares the two files of the pair `p` and holds its runs.
pub open spec fn result_matches_pair(r: ComparisonResult, p: PairRuns, files: Seq<FileDescription>) -> bool {
    &&& p.0.0 < files.len()
    &&& p.0.1 < files.len()
    &&& *r.f1 == files[p.0.0 as int]
    &&& *r.f2 == files[p.0.1 as int]
    &&& r.runs@ == p.1
}

/// The comparison results of a set of files: one per pair of files with a
/// run, holding its runs, pairs in the order of their first run.
pub open spec fn matches_found(
    results: Seq<ComparisonResult>,
    files: Seq<FileDescription>,
    min_match: usize,
) -> bool {
    let w = windows_of(files, min_match);
    let pr = pair_runs(all_runs(w, w.len() as int));
    &&& results.len() == pr.len()
    &&& forall|i: int|
        0 <= i < results.len() ==> #[trigger] result_matches_pair(results[i], pr[i], files)
}

/// Some comparison result compares the two files of `run` and holds its
/// line ranges.
pub open spec fn run_found(results: Seq<ComparisonResult>, files: Seq<FileDescription>, run: Run) -> bool {
    exists|i: int|
        #![trigger results[i]]
        0 <= i < results.len() && run.0 < files.len() && run.1 < files.len() && *results[i].f1
            == files[run.0 as int] && *results[i].f2 == files[run.1 as int] && results[i].runs@.contains(
            run.2,
        )
}

proof fn lemma_bucket_holds(w: Seq<BlockDescriptor>, k: int, h: u64, a: int)
    requires
        0 <= a < k,
        w[a].hash == h,
    ensures
        bucket(w, k, h).contains(a as usize),
    decreases k,
{
    let prev = bucket(w, k - 1, h);
    if a == k - 1 {
        assert(bucket(w, k, h) == prev + seq![(k - 1) as usize]);
        assert(bucket(w, k, h)[prev.len() as int] == a as usize);
    } else {
        lemma_bucket_holds(w, k - 1, h, a);
        let x = choose|x: int| 0 <= x < prev.len() && prev[x] == a as usize;
        assert(bucket(w, k, h)[x] == prev[x]);
    }
}

proof fn lemma_runs_among_holds(w: Seq<BlockDescriptor>, b: int, cands: Seq<usize>, n: int, x: int)
    requires
        0 <= x < n <= cands.len(),
        starts_run(w, cands[x] as int, b),
    ensures
        runs_among(w, b, cands, n).contains(run_of(w, cands[x] as int, b)),
    decreases n,
{
    let prev = runs_among(w, b, cands, n - 1);
    if x == n - 1 {
        assert(runs_among(w, b, cands, n)[prev.len() as int] == run_of(w, cands[x] as int, b));
    } else {
        lemma_runs_among_holds(w, b, cands, n - 1, x);
        let i = choose|i: int| 0 <= i < prev.len() && prev[i] == run_of(w, cands[x] as int, b);
        assert(runs_among(w, b, cands, n)[i] == prev[i]);
    }
}

proof fn lemma_all_runs_holds(w: Seq<BlockDescriptor>, k: int, a: int, b: int)
    requires
        starts_run(w, a, b),
        b < k,
        w.len() <= usize::MAX,
    ensures
        all_runs(w, k).contains(run_of(w, a, b)),
    decreases k,
{
    let prev = all_runs(w, k - 1);
    let last = runs_ending_at(w, k - 1);
    assert(all_runs(w, k) == prev + last);
    if b == k - 1 {
        let cands = bucket(w, b, w[b].hash);
        lemma_bucket_holds(w, b, w[b].hash, a);
        let x = choose|x: int| 0 <= x < cands.len() && cands[x] == a as usize;
        assert(cands[x] as int == a);
        lemma_runs_among_holds(w, b, cands, cands.len() as int, x);
        let i = choose|i: int| 0 <= i < last.len() && last[i] == run_of(w, a, b);
        assert((prev + last)[prev.len() + i] == last[i]);
    } else {
        lemma_all_runs_holds(w, k - 1, a, b);
        let i = choose|i: int| 0 <= i < prev.len() && prev[i] == run_of(w, a, b);
        assert((prev + last)[i] == prev[i]);
    }
}

proof fn lemma_find_pair_basic(ps: Seq<PairRuns>, p: (usize, usize))
    ensures
        find_pair(ps, p) < ps.len(),
        find_pair(ps, p) >= 0 ==> ps[find_pair(ps, p)].0 == p,
        find_pair(ps, p) < 0 ==> forall|i: int| 0 <= i < ps.len() ==> (#[trigger] ps[i]).0 != p,
    decreases ps.len(),
{
    if ps.len() > 0 && ps.last().0 != p {
        lemma_find_pair_basic(ps.drop_last(), p);
        assert forall|i: int| 0 <= i < ps.drop_last().len() implies ps.drop_last()[i] == ps[i] by {}
    }
}

proof fn lemma_pair_runs_holds(runs: Seq<Run>, r: Run)
    requires
        runs.contains(r),
    ensures
        exists|i: int|
            #![trigger pair_runs(runs)[i]]
            0 <= i < pair_runs(runs).len() && pair_runs(runs)[i].0 == (r.0, r.1) && pair_runs(
                runs,
            )[i].1.contains(r.2),
    decreases runs.len(),
{
    let prev = pair_runs(runs.drop_last());
    let last = runs.last();
    let f = find_pair(prev, (last.0, last.1));
    lemma_find_pair_basic(prev, (last.0, last.1));
    let pr = pair_runs(runs);
    if last == r {
        if f >= 0 {
            assert(pr[f].1 == prev[f].1.push(r.2));
            assert(pr[f].1[prev[f].1.len() as int] == r.2);
            assert(pr[f].0 == (r.0, r.1));
        } else {
            assert(pr[prev.len() as int] == ((r.0, r.1), seq![r.2]));
            assert(pr[prev.len() as int].1[0] == r.2);
        }
    } else {
        let k = choose|k: int| 0 <= k < runs.len() && runs[k] == r;
        assert(k < runs.len() - 1);
        assert(runs.drop_last()[k] == r);
        lemma_pair_runs_holds(runs.drop_last(), r);
        let i = choose|i: int|
            #![trigger prev[i]]
            0 <= i < prev.len() && prev[i].0 == (r.0, r.1) && prev[i].1.contains(r.2);
        let x = choose|x: int| 0 <= x < prev[i].1.len() && prev[i].1[x] == r.2;
        if f >= 0 && f == i {
            assert(pr[i].1 == prev[i].1.push(last.2));
            assert(pr[i].1[x] == r.2);
            assert(pr[i].0 == (r.0, r.1));
        } else if f >= 0 {
            assert(pr[i] == prev[i]);
        } else {
            assert(pr[i] == prev[i]);
        }
    }
}

/// Every pair of windows `a < b` with equal fingerprints whose predecessors
/// do not match starts a run, and that run is reported: the comparison
/// result of their two files holds its line ranges.
pub proof fn lemma_every_run_found(
    results: Seq<ComparisonResult>,
    files: Seq<FileDescription>,
    min_match: usize,
)
    requires
        matches_found(results, files, min_match),
        windows_of(files, min_match).len() <= usize::MAX,
        forall|g: int|
            0 <= g < windows_of(files, min_match).len() ==> (#[trigger] windows_of(files, min_match)[g]).file_num
                < files.len(),
    ensures
        forall|a: int, b: int|
            #[trigger] starts_run(windows_of(files, min_match), a, b) ==> run_found(
                results,
                files,
                run_of(windows_of(files, min_match), a, b),
            ),
{
    let w = windows_of(files, min_match);
    let runs = all_runs(w, w.len() as int);
    let pr = pair_runs(runs);
    assert forall|a: int, b: int| #[trigger] starts_run(w, a, b) implies run_found(results, files, run_of(w, a, b)) by {
        let r = run_of(w, a, b);
        lemma_all_runs_holds(w, w.len() as int, a, b);
        lemma_pair_runs_holds(runs, r);
        let i = choose|i: int|
            #![trigger pr[i]]
            0 <= i < pr.len() && pr[i].0 == (r.0, r.1) && pr[i].1.contains(r.2);
        assert(result_matches_pair(results[i], pr[i], files));
        assert(r.0 == w[a].file_num && r.1 == w[b].file_num);
    }
}

/// The windows of all files, file by file, each with its fingerprint.
fn build_windows(files: &[FileDescription], min_match: usize) -> (w: Vec<BlockDescriptor>)
    ensures
        w@ == windows_of(files@, min_match),
        windows_ordered(w@, min_match),
        forall|g: int| 0 <= g < w@.len() ==> (#[trigger] w@[g]).file_num < files@.len(),
{
    let mut wins: Vec<BlockDescriptor> = Vec::new();
    let n = files.len();
    let mut f: usize = 0;
    while f < n
        invariant
            n == files@.len(),
            f <= n,
            wins@ == all_windows(files@, min_match, f as int),
            windows_ordered(wins@, min_match),
            forall|g: int| 0 <= g < wins@.len() ==> (#[trigger] wins@[g]).file_num < f,
        decreases n - f,
    {
        let mut blocks = compute_rolling_hashes(files[f].hashes.as_slice(), f, min_match);
        let ghost fw = file_windows(files@[f as int].hashes@, f as int, min_match);
        assert(blocks@ =~= fw) by {
            if min_match > 0 && files@[f as int].hashes@.len() >= min_match {
                assert forall|i: int| 0 <= i < blocks@.len() implies blocks@[i] == fw[i] by {
                    assert(blocks@[i].hash == xor_range(files@[f as int].hashes@, i, i + min_match));
                }
            }
        }
        let ghost before = wins@;
        wins.append(&mut blocks);
        proof {
            let cur = wins@;
            assert(cur == before + fw);
            assert forall|g: int| 0 <= g < cur.len() implies (#[trigger] cur[g]).end == cur[g].start
                + min_match by {
                if g >= before.len() {
                    assert(cur[g] == fw[g - before.len()]);
                } else {
                    assert(cur[g] == before[g]);
                }
            }
            assert forall|g1: int, g2: int|
                0 <= g1 < g2 < cur.len() implies (#[trigger] cur[g1]).file_num < (
                #[trigger] cur[g2]).file_num || (cur[g1].file_num == cur[g2].file_num
                && cur[g1].start < cur[g2].start) by {
                if g2 < before.len() {
                    assert(cur[g1] == before[g1] && cur[g2] == before[g2]);
                } else if g1 < before.len() {
                    assert(cur[g1] == before[g1]);
                    assert(cur[g2] == fw[g2 - before.len()]);
                } else {
                    assert(cur[g1] == fw[g1 - before.len()]);
                    assert(cur[g2] == fw[g2 - before.len()]);
                }
            }
            assert forall|g: int| 0 <= g < cur.len() implies (#[trigger] cur[g]).file_num < f + 1 by {
                if g >= before.len() {
                    assert(cur[g] == fw[g - before.len()]);
                } else {
                    assert(cur[g] == before[g]);
                }
            }
        }
        f = f + 1;
    }
    wins
}

/// Whether windows `a < b` start a run.
fn is_run_start(w: &Vec<BlockDescriptor>, a: usize, b: usize) -> (r: bool)
    requires
        a < b < w@.len(),
    ensures
        r == starts_run(w@, a as int, b as int),
{
    if w[a].hash != w[b].hash {
        return false;
    }
    !(a > 0 && w[a - 1].file_num == w[a].file_num && w[b - 1].file_num == w[b].file_num
        && w[a - 1].hash == w[b - 1].hash)
}

/// The number of windows, from `a` and `b` on, that stay in lockstep.
fn measure_run(w: &Vec<BlockDescriptor>, a: usize, b: usize) -> (l: usize)
    requires
        a < b < w@.len(),
        w@[a as int].hash == w@[b as int].hash,
    ensures
        l == lockstep_len(w@, a as int, b as int, 0),
        1 <= l,
        b + l <= w@.len(),
        forall|j: int| 0 <= j < l ==> #[trigger] lockstep(w@, a as int, b as int, j),
{
    let n = w.len();
    let mut k: usize = 1;
    assert(lockstep(w@, a as int, b as int, 0));
    assert(lockstep_len(w@, a as int, b as int, 0) == lockstep_len(w@, a as int, b as int, 1));
    while b + k < n && w[a + k].file_num == w[a].file_num && w[b + k].file_num == w[b].file_num
        && w[a + k].hash == w[b + k].hash
        invariant
            n == w@.len(),
            a < b < n,
            1 <= k,
            b + k <= n,
            lockstep_len(w@, a as int, b as int, 0) == lockstep_len(w@, a as int, b as int, k as int),
            forall|j: int| 0 <= j < k ==> #[trigger] lockstep(w@, a as int, b as int, j),
        decreases n - k,
    {
        assert(lockstep(w@, a as int, b as int, k as int));
        k = k + 1;
    }
    assert(!lockstep(w@, a as int, b as int, k as int));
    k
}

/// Result `i` is the comparison of the `i`-th pair of `pr`, holding its runs.
pub open spec fn result_holds_at(
    results: Seq<ComparisonResult>,
    keys: Seq<(usize, usize)>,
    pr: Seq<PairRuns>,
    files: Seq<FileDescription>,
    i: int,
) -> bool {
    &&& keys[i] == pr[i].0
    &&& pr[i].0.0 < files.len()
    &&& pr[i].0.1 < files.len()
    &&& *results[i].f1 == files[pr[i].0.0 as int]
    &&& *results[i].f2 == files[pr[i].0.1 as int]
    &&& results[i].runs@ == pr[i].1
}

/// The runs held per pair of files are those of `pr`, and no pair occurs
/// twice.
pub open spec fn results_hold(
    results: Seq<ComparisonResult>,
    keys: Seq<(usize, usize)>,
    pr: Seq<PairRuns>,
    files: Seq<FileDescription>,
) -> bool {
    &&& results.len() == pr.len()
    &&& keys.len() == pr.len()
    &&& forall|i: int| 0 <= i < results.len() ==> #[trigger] result_holds_at(results, keys, pr, files, i)
    &&& forall|i: int, j: int| 0 <= i < j < pr.len() ==> (#[trigger] pr[i]).0 != (#[trigger] pr[j]).0
}

proof fn lemma_find_pair(ps: Seq<PairRuns>, p: (usize, usize))
    requires
        forall|i: int, j: int| 0 <= i < j < ps.len() ==> (#[trigger] ps[i]).0 != (#[trigger] ps[j]).0,
    ensures
        find_pair(ps, p) >= 0 ==> find_pair(ps, p) < ps.len() && ps[find_pair(ps, p)].0 == p,
        find_pair(ps, p) < 0 ==> forall|i: int| 0 <= i < ps.len() ==> (#[trigger] ps[i]).0 != p,
    decreases ps.len(),
{
    if ps.len() > 0 {
        let pre = ps.drop_last();
        assert forall|i: int, j: int| 0 <= i < j < pre.len() implies (#[trigger] pre[i]).0 != (
        #[trigger] pre[j]).0 by {
            assert(pre[i] == ps[i] && pre[j] == ps[j]);
        }
        lemma_find_pair(pre, p);
        if ps.last().0 != p {
            assert forall|i: int| 0 <= i < ps.len() && find_pair(ps, p) < 0 implies (#[trigger] ps[i]).0 != p by {
                if i < pre.len() {
                    assert(pre[i] == ps[i]);
                }
            }
            if find_pair(pre, p) >= 0 {
                assert(pre[find_pair(pre, p)] == ps[find_pair(pre, p)]);
            }
        }
    }
}

/// Records a run between files `fa` and `fb` in the result of that pair,
/// adding the result when the pair is new.
fn add_run<'a>(
    keys: &mut Vec<(usize, usize)>,
    results: &mut Vec<ComparisonResult<'a>>,
    files: &'a [FileDescription],
    fa: usize,
    fb: usize,
    range: LineRange,
    Ghost(runs): Ghost<Seq<Run>>,
)
    requires
        fa < files@.len(),
        fb < files@.len(),
        results_hold(old(results)@, old(keys)@, pair_runs(runs), files@),
        runs_well_formed(old(results)@),
        range matches LineRange::Same { r1, r2 } && r1.start <= r1.end && r2.start <= r2.end,
    ensures
        results_hold(final(results)@, final(keys)@, pair_runs(runs.push((fa, fb, range))), files@),
        runs_well_formed(final(results)@),
{
    let ghost pr = pair_runs(runs);
    let ghost run: Run = (fa, fb, range);
    proof {
        assert(runs.push(run).drop_last() =~= runs);
        lemma_find_pair(pr, (fa, fb));
    }
    let n = keys.len();
    let mut i: usize = 0;
    while i < n
        invariant
            n == keys@.len(),
            i <= n,
            results_hold(results@, keys@, pr, files@),
            pr == pair_runs(runs),
            run == (fa, fb, range),
            runs_well_formed(results@),
            range matches LineRange::Same { r1, r2 } && r1.start <= r1.end && r2.start <= r2.end,
            fa < files@.len(),
            fb < files@.len(),
            forall|q: int| 0 <= q < i ==> keys@[q] != (fa, fb),
        decreases n - i,
    {
        if keys[i].0 == fa && keys[i].1 == fb {
            proof {
                assert(result_holds_at(results@, keys@, pr, files@, i as int));
                assert(pr[i as int].0 == (fa, fb));
                lemma_find_pair(pr, (fa, fb));
                let j = find_pair(pr, (fa, fb));
                if j < 0 {
                    assert(pr[i as int].0 != (fa, fb));
                } else {
                    assert(j < pr.len());
                    assert(pr[j].0 == (fa, fb));
                    if j < i {
                        assert(pr[j].0 != pr[i as int].0);
                    } else if j > i {
                        assert(pr[i as int].0 != pr[j].0);
                    }
                }
                assert(find_pair(pr, (fa, fb)) == i);
            }
            let ghost old_results = results@;
            results[i].runs.push(range);
            proof {
                assert forall|x: int, y: int|
                    0 <= x < results@.len() && 0 <= y < results@[x].runs@.len() implies match #[trigger] results@[x].runs@[y] {
                    LineRange::Same { r1, r2 } => r1.start <= r1.end && r2.start <= r2.end,
                    LineRange::Diff { .. } => true,
                } by {
                    if x != i {
                        assert(results@[x] == old_results[x]);
                        assert(results@[x].runs@[y] == old_results[x].runs@[y]);
                    } else if y < old_results[x].runs@.len() {
                        assert(results@[x].runs@ == old_results[x].runs@.push(range));
                        assert(results@[x].runs@[y] == old_results[x].runs@[y]);
                    } else {
                        assert(results@[x].runs@ == old_results[x].runs@.push(range));
                        assert(results@[x].runs@[y] == range);
                    }
                }
                let npr = pair_runs(runs.push(run));
                assert(runs.push(run).drop_last() =~= runs);
                assert(runs.push(run).last() == run);
                assert(npr == pr.update(i as int, (pr[i as int].0, pr[i as int].1.push(range))));
                assert forall|q: int|
                    0 <= q < results@.len() implies #[trigger] result_holds_at(results@, keys@, npr, files@, q) by {
                    if q != i {
                        assert(results@[q] == old_results[q]);
                        assert(result_holds_at(old_results, keys@, pr, files@, q));
                    } else {
                        assert(result_holds_at(old_results, keys@, pr, files@, q));
                    }
                }
                assert forall|x: int, y: int| 0 <= x < y < npr.len() implies (#[trigger] npr[x]).0 != (
                #[trigger] npr[y]).0 by {
                    assert(npr[x].0 == pr[x].0 && npr[y].0 == pr[y].0);
                }
                assert(results@.len() == npr.len());
                assert(keys@.len() == npr.len());
                assert(results_hold(results@, keys@, npr, files@));
            }
            return;
        }
        i = i + 1;
    }
    proof {
        lemma_find_pair(pr, (fa, fb));
        assert(find_pair(pr, (fa, fb)) < 0) by {
            if find_pair(pr, (fa, fb)) >= 0 {
                let j = find_pair(pr, (fa, fb));
                assert(result_holds_at(results@, keys@, pr, files@, j));
                assert(keys@[j] == pr[j].0);
            }
        }
    }
    let mut runs_v: Vec<LineRange> = Vec::new();
    runs_v.push(range);
    let ghost old_results = results@;
    let ghost old_keys = keys@;
    results.push(ComparisonResult { f1: &files[fa], f2: &files[fb], runs: runs_v });
    keys.push((fa, fb));
    proof {
        assert forall|x: int, y: int|
            0 <= x < results@.len() && 0 <= y < results@[x].runs@.len() implies match #[trigger] results@[x].runs@[y] {
            LineRange::Same { r1, r2 } => r1.start <= r1.end && r2.start <= r2.end,
            LineRange::Diff { .. } => true,
        } by {
            if x < n {
                assert(results@[x] == old_results[x]);
                assert(results@[x].runs@[y] == old_results[x].runs@[y]);
            } else {
                assert(results@[x].runs@[y] == range);
            }
        }
        let npr = pair_runs(runs.push(run));
        assert(runs.push(run).drop_last() =~= runs);
        assert(runs.push(run).last() == run);
        assert(npr == pr.push(((fa, fb), seq![range])));
        assert forall|q: int|
            0 <= q < results@.len() implies #[trigger] result_holds_at(results@, keys@, npr, files@, q) by {
            if q < n {
                assert(results@[q] == old_results[q]);
                assert(keys@[q] == old_keys[q]);
                assert(result_holds_at(old_results, old_keys, pr, files@, q));
            } else {
                assert(results@[q].runs@ =~= seq![range]);
            }
        }
        assert forall|x: int, y: int| 0 <= x < y < npr.len() implies (#[trigger] npr[x]).0 != (
        #[trigger] npr[y]).0 by {
            if y == n {
                assert(result_holds_at(old_results, old_keys, pr, files@, x));
                assert(old_keys[x] == pr[x].0);
                assert(old_keys[x] != (fa, fb));
            } else {
                assert(npr[x] == pr[x] && npr[y] == pr[y]);
            }
        }
    }
}

/// Every window of a bucket comes before its end and has its fingerprint.
proof fn lemma_bucket_entries(w: Seq<BlockDescriptor>, k: int, h: u64)
    requires
        0 <= k <= w.len(),
        w.len() <= usize::MAX,
    ensures
        forall|x: int|
            0 <= x < bucket(w, k, h).len() ==> (#[trigger] bucket(w, k, h)[x]) < k && w[bucket(
                w,
                k,
                h,
            )[x] as int].hash == h,
    decreases k,
{
    if k > 0 {
        lemma_bucket_entries(w, k - 1, h);
        let pre = bucket(w, k - 1, h);
        let cur = bucket(w, k, h);
        assert forall|x: int| 0 <= x < cur.len() implies (#[trigger] cur[x]) < k && w[cur[x] as int].hash
            == h by {
            if x < pre.len() {
                assert(cur[x] == pre[x]);
            } else {
                assert(cur[x] == (k - 1) as usize);
            }
        }
    }
}

/// A run's ranges start no later than they end.
proof fn lemma_run_well_formed(w: Seq<BlockDescriptor>, min_match: usize, a: int, b: int, l: int)
    requires
        windows_ordered(w, min_match),
        0 <= a < b < w.len(),
        1 <= l,
        b + l <= w.len(),
        forall|j: int| 0 <= j < l ==> #[trigger] lockstep(w, a, b, j),
    ensures
        w[a].start <= w[a + l - 1].end,
        w[b].start <= w[b + l - 1].end,
{
    assert(lockstep(w, a, b, l - 1));
    assert(w[a + l - 1].end == w[a + l - 1].start + min_match);
    assert(w[b + l - 1].end == w[b + l - 1].start + min_match);
    if l > 1 {
        assert(w[a].file_num == w[a + l - 1].file_num);
        assert(w[a].start < w[a + l - 1].start);
        assert(w[b].start < w[b + l - 1].start);
    }
}

/// Finds the duplicated regions between every pair of files (a file paired
/// with itself included): one comparison result per pair with a run,
/// holding the pair's runs in the order they were found.
pub fn find_matches<'a>(files: &'a [FileDescription], min_match: usize) -> (results: Vec<
    ComparisonResult<'a>,
>)
    ensures
        matches_found(results@, files@, min_match),
        runs_well_formed(results@),
        forall|a: int, b: int|
            #[trigger] starts_run(windows_of(files@, min_match), a, b) ==> run_found(
                results@,
                files@,
                run_of(windows_of(files@, min_match), a, b),
            ),
{
    let w = build_windows(files, min_match);
    let nw = w.len();
    let mut buckets = fx_buckets_new();
    let mut keys: Vec<(usize, usize)> = Vec::new();
    let mut results: Vec<ComparisonResult<'a>> = Vec::new();
    let ghost mut runs: Seq<Run> = Seq::empty();
    let mut b: usize = 0;
    proof {
        assert(pair_runs(runs) == Seq::<PairRuns>::empty());
    }
    while b < nw
        invariant
            nw == w@.len(),
            b <= nw,
            w@ == windows_of(files@, min_match),
            windows_ordered(w@, min_match),
            forall|g: int| 0 <= g < w@.len() ==> (#[trigger] w@[g]).file_num < files@.len(),
            runs == all_runs(w@, b as int),
            results_hold(results@, keys@, pair_runs(runs), files@),
            runs_well_formed(results@),
            forall|h: u64|
                #![trigger bucket(w@, b as int, h)]
                (fx_buckets(buckets).contains_key(h) ==> fx_buckets(buckets)[h] == bucket(w@, b as int, h))
                    && (!fx_buckets(buckets).contains_key(h) ==> bucket(w@, b as int, h) == Seq::<usize>::empty()),
        decreases nw - b,
    {
        let h = w[b].hash;
        let ghost bk = bucket(w@, b as int, h);
        let mut cands = match fx_buckets_remove(&mut buckets, h) {
            Some(v) => v,
            None => Vec::new(),
        };
        assert(cands@ == bk);
        proof {
            lemma_bucket_entries(w@, b as int, h);
        }
        let nc = cands.len();
        let mut j: usize = 0;
        let ghost base = runs;
        while j < nc
            invariant
                nw == w@.len(),
                b < nw,
                nc == cands@.len(),
                cands@ == bk,
                bk == bucket(w@, b as int, h),
                h == w@[b as int].hash,
                j <= nc,
                forall|x: int| 0 <= x < bk.len() ==> (#[trigger] bk[x]) < b && w@[bk[x] as int].hash == h,
                windows_ordered(w@, min_match),
                forall|g: int| 0 <= g < w@.len() ==> (#[trigger] w@[g]).file_num < files@.len(),
                base == all_runs(w@, b as int),
                runs == base + runs_among(w@, b as int, bk, j as int),
                results_hold(results@, keys@, pair_runs(runs), files@),
                runs_well_formed(results@),
            decreases nc - j,
        {
            let a = cands[j];
            assert(a < b && w@[a as int].hash == h);
            if is_run_start(&w, a, b) {
                let l = measure_run(&w, a, b);
                proof {
                    lemma_run_well_formed(w@, min_match, a as int, b as int, l as int);
                }
                let range = LineRange::Same {
                    r1: Range { start: w[a].start, end: w[a + l - 1].end },
                    r2: Range { start: w[b].start, end: w[b + l - 1].end },
                };
                let fa = w[a].file_num;
                let fb = w[b].file_num;
                add_run(&mut keys, &mut results, files, fa, fb, range, Ghost(runs));
                proof {
                    assert((fa, fb, range) == run_of(w@, a as int, b as int));
                    runs = runs.push((fa, fb, range));
                    assert(runs == base + runs_among(w@, b as int, bk, j + 1));
                }
            } else {
                proof {
                    assert(runs_among(w@, b as int, bk, j + 1) == runs_among(w@, b as int, bk, j as int));
                }
            }
            j = j + 1;
        }
        proof {
            assert(runs == all_runs(w@, b + 1));
        }
        let ghost old_map = fx_buckets(buckets);
        cands.push(b);
        fx_buckets_insert(&mut buckets, h, cands);
        proof {
            assert forall|hh: u64|
                #![trigger bucket(w@, b + 1, hh)]
                (fx_buckets(buckets).contains_key(hh) ==> fx_buckets(buckets)[hh] == bucket(w@, b + 1, hh))
                    && (!fx_buckets(buckets).contains_key(hh) ==> bucket(w@, b + 1, hh) == Seq::<usize>::empty()) by {
                assert(bucket(w@, b + 1, hh) == bucket(w@, b as int, hh) + if w@[b as int].hash == hh {
                    seq![b]
                } else {
                    Seq::<usize>::empty()
                });
                if hh != h {
                    assert(bucket(w@, b + 1, hh) =~= bucket(w@, b as int, hh));
                }
            }
        }
        b = b + 1;
    }
    proof {
        let pr = pair_runs(runs);
        assert forall|i: int| 0 <= i < results@.len() implies #[trigger] result_matches_pair(
            results@[i],
            pr[i],
            files@,
        ) by {
            assert(result_holds_at(results@, keys@, pr, files@, i));
        }
        lemma_every_run_found(results@, files@, min_match);
    }
    results
}

/// The distinct paths among `names`, in order of first appearance, each as
/// first written.
pub open spec fn distinct_in_order(names: Seq<Seq<char>>) -> Seq<Seq<char>>
    decreases names.len(),
{
    if names.len() == 0 {
        Seq::empty()
    } else {
        let prev = distinct_in_order(names.drop_last());
        if path_known(prev, names.last()) {
            prev
        } else {
            prev.push(names.last())
        }
    }
}

/// The names of the files, in order.
pub open spec fn file_names(files: Seq<FileDescription>) -> Seq<Seq<char>> {
    files.map_values(|f: FileDescription| f.filename@)
}

/// Finds duplicated code across files: registers the files, finds the runs
/// of matching windows between every pair of files, and consolidates them
/// into duplicate groups.
pub fn find_duplicates(files: &[FileDescription], min_match: usize) -> (out: (
    FileRegistry,
    Vec<DuplicateGroup>,
))
    ensures
        out.0.names() == distinct_in_order(file_names(files@)),
        distinct_paths(out.0.names()),
        exists|results: Seq<ComparisonResult>|
            #[trigger] matches_found(results, files@, min_match) && consolidates(
                out.1@,
                match_table(results, min_match),
            ),
{
    let mut registry = FileRegistry::new();
    let n = files.len();
    let mut i: usize = 0;
    while i < n
        invariant
            n == files@.len(),
            i <= n,
            registry.names() == distinct_in_order(file_names(files@).take(i as int)),
            distinct_paths(registry.names()),
        decreases n - i,
    {
        let ghost before = registry.names();
        registry.register(files[i].filename.clone());
        proof {
            let t = file_names(files@).take(i + 1);
            assert(t.drop_last() =~= file_names(files@).take(i as int));
            assert(t.last() == files@[i as int].filename@);
        }
        i = i + 1;
    }
    proof {
        assert(file_names(files@).take(n as int) =~= file_names(files@));
    }
    let results = find_matches(files, min_match);
    let groups = group_duplicates(results.as_slice(), min_match);
    assert(matches_found(results@, files@, min_match));
    (registry, groups)
}

/// The files to analyze, or `NoFilesFound` when none could be loaded.
pub fn loaded_files(files: Vec<FileDescription>) -> (r: Result<Vec<FileDescription>, SameError>)
    ensures
        match r {
            Ok(v) => v@ == files@ && files@.len() > 0,
            Err(e) => e == SameError::NoFilesFound && files@.len() == 0,
        },
{
    if files.len() == 0 {
        return Err(SameError::NoFilesFound);
    }
    Ok(files)
}

/// Whether any duplicate is reported (the program then exits with 1).
pub fn has_duplicates(groups: &[DuplicateGroup]) -> (found: bool)
    ensures
        found == (groups@.len() > 0),
{
    groups.len() > 0
}

} // verus!
