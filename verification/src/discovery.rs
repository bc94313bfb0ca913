//! File discovery: which patterns to scan, which paths to keep, and
//! removal of duplicate paths.
//!
//! Touching the file system (globbing, metadata, canonical paths) is left
//! to the caller, which hands the results in as plain values.
use vstd::prelude::*;

use crate::error::SameError;
use crate::paths::same_path;
use crate::rolling_hash::{distinct_paths, path_known};

verus! {

/// The hasher of rustc-hash's Fx-hashed collections.
#[verifier::external_type_specification]
#[verifier::external_body]
pub struct ExFxBuildHasher(rustc_hash::FxBuildHasher);

/// An owned file path (std).
#[verifier::external_type_specification]
#[verifier::external_body]
pub struct ExPathBuf(std::path::PathBuf);

/// Names the paths, as text, held by an Fx-hashed set of paths.
pub uninterp spec fn fx_set_contents(set: rustc_hash::FxHashSet<std::path::PathBuf>) -> Set<Seq<char>>;

/// Some path of `set` names the same path as `p`.
pub open spec fn path_in(set: Set<Seq<char>>, p: Seq<char>) -> bool {
    exists|x: Seq<char>| #[trigger] set.contains(x) && same_path(x, p)
}

/// Names std's `Path::file_name` on a path given as text: the final
/// component, or None when the path ends in `..` or has no component.
pub uninterp spec fn spec_file_name(path: Seq<char>) -> Option<Seq<char>>;

/// `FxHashSet::default()` (rustc-hash, std's `HashSet` with `FxBuildHasher`),
/// a set of paths.
///
/// Trusted: a new set holds no path.
#[verifier::external_body]
fn fx_set_new() -> (set: rustc_hash::FxHashSet<std::path::PathBuf>)
    ensures
        fx_set_contents(set) == Set::<Seq<char>>::empty(),
{
    rustc_hash::FxHashSet::default()
}

/// `HashSet::insert` on an Fx-hashed set of paths, the path given as text.
///
/// Trusted: std documents that `insert` returns whether no equal value was
/// present, that it then adds the value, and that otherwise the set is left
/// as it was. Paths are equal as std's `Path` compares them (its `Hash`
/// agrees with its `Eq`), and that equality is transitive: anything equal to
/// a value already present is equal to something in the set.
#[verifier::external_body]
fn fx_set_insert(set: &mut rustc_hash::FxHashSet<std::path::PathBuf>, value: String) -> (inserted: bool)
    ensures
        inserted == !path_in(fx_set_contents(*old(set)), value@),
        inserted ==> fx_set_contents(*final(set)) == fx_set_contents(*old(set)).insert(value@),
        !inserted ==> fx_set_contents(*final(set)) == fx_set_contents(*old(set)),
        !inserted ==> forall|c: Seq<char>|
            #[trigger] same_path(value@, c) ==> path_in(fx_set_contents(*old(set)), c),
{
    set.insert(std::path::PathBuf::from(value))
}

/// `Path::file_name` (std) on a path given as text, the name made a string.
///
/// Trusted: the result is named by `spec_file_name`; a name taken from a
/// `&str` path is valid UTF-8, so the conversion to `str` keeps it.
#[verifier::external_body]
fn path_file_name(path: &str) -> (name: Option<String>)
    ensures
        name matches Some(n) ==> spec_file_name(path@) == Some(n@),
        name is None ==> spec_file_name(path@) is None,
{
    std::path::Path::new(path).file_name().and_then(|n| n.to_str()).map(|n| n.to_string())
}

/// A file name that starts with a dot.
pub open spec fn hidden_name(name: Option<Seq<char>>) -> bool {
    match name {
        Some(n) => n.len() > 0 && n[0] == '.',
        None => false,
    }
}

/// Whether a file name (as `Path::file_name` gives it) marks a hidden file.
pub fn is_hidden_file_name(name: Option<String>) -> (hidden: bool)
    ensures
        hidden == hidden_name(
            match name {
                Some(n) => Some(n@),
                None => None,
            },
        ),
{
    match name {
        Some(n) => {
            let s = n.as_str();
            let len = s.unicode_len();
            len > 0 && s.get_char(0) == '.'
        },
        None => false,
    }
}

/// Check if a path is hidden (its file name starts with `.`).
pub fn is_hidden(path: &str) -> (hidden: bool)
    ensures
        hidden == hidden_name(spec_file_name(path@)),
{
    is_hidden_file_name(path_file_name(path))
}

/// A path found by a glob scan is kept when it is a regular file that is
/// neither a symlink nor hidden.
pub fn keep_scanned_path(path: &str, is_file: bool, is_symlink: bool) -> (keep: bool)
    ensures
        keep == (is_file && !is_symlink && !hidden_name(spec_file_name(path@))),
{
    is_file && !is_symlink && !is_hidden(path)
}

/// `s` without its trailing `/` characters.
pub open spec fn trim_trailing_slashes(s: Seq<char>) -> Seq<char>
    decreases s.len(),
{
    if s.len() > 0 && s.last() == '/' {
        trim_trailing_slashes(s.drop_last())
    } else {
        s
    }
}

/// The glob pattern for scanning `dir`: the directory without trailing
/// slashes, a slash, then the pattern.
pub open spec fn directory_pattern(dir: Seq<char>, glob_pattern: Seq<char>) -> Seq<char> {
    trim_trailing_slashes(dir) + seq!['/'] + glob_pattern
}

/// The patterns to scan: the directory's pattern when a directory is given,
/// the bare pattern when neither a directory nor explicit files are given,
/// and none otherwise.
pub open spec fn scan_pattern_list(
    has_explicit: bool,
    directory: Option<Seq<char>>,
    glob_pattern: Seq<char>,
) -> Seq<Seq<char>> {
    match directory {
        Some(d) => seq![directory_pattern(d, glob_pattern)],
        None => if has_explicit {
            Seq::empty()
        } else {
            seq![glob_pattern]
        },
    }
}

/// Builds the pattern that scans `dir` with `glob_pattern`.
pub fn directory_glob(dir: &str, glob_pattern: &str) -> (pattern: String)
    ensures
        pattern@ == directory_pattern(dir@, glob_pattern@),
{
    let mut keep = dir.unicode_len();
    assert(dir@.subrange(0, keep as int) =~= dir@);
    while keep > 0 && dir.get_char(keep - 1) == '/'
        invariant
            keep <= dir@.len(),
            trim_trailing_slashes(dir@) == trim_trailing_slashes(dir@.subrange(0, keep as int)),
        decreases keep,
    {
        proof {
            assert(dir@.subrange(0, keep as int).drop_last() =~= dir@.subrange(0, keep - 1));
        }
        keep = keep - 1;
    }
    proof {
        let t = dir@.subrange(0, keep as int);
        assert(trim_trailing_slashes(t) == t);
    }
    let mut pattern = String::new();
    pattern.append(dir.substring_char(0, keep));
    pattern.append("/");
    pattern.append(glob_pattern);
    proof {
        reveal_strlit("/");
        assert(pattern@ =~= directory_pattern(dir@, glob_pattern@));
    }
    pattern
}

/// The glob patterns discovery scans, in order.
pub fn scan_patterns(has_explicit: bool, directory: Option<&str>, glob_pattern: &str) -> (patterns:
    Vec<String>)
    ensures
        patterns@.map_values(|s: String| s@) == scan_pattern_list(
            has_explicit,
            match directory {
                Some(d) => Some(d@),
                None => None,
            },
            glob_pattern@,
        ),
{
    let mut patterns: Vec<String> = Vec::new();
    match directory {
        Some(dir) => {
            patterns.push(directory_glob(dir, glob_pattern));
        },
        None => {
            if !has_explicit {
                patterns.push(glob_pattern.to_owned());
            }
        },
    }
    assert(patterns@.map_values(|s: String| s@) =~= scan_pattern_list(
        has_explicit,
        match directory {
            Some(d) => Some(d@),
            None => None,
        },
        glob_pattern@,
    ));
    patterns
}

/// The paths whose key has not occurred before, in order: of paths whose
/// keys name the same path (as std's `Path` compares paths) only the first
/// is kept.
pub open spec fn first_occurrences(paths: Seq<Seq<char>>, keys: Seq<Seq<char>>) -> Seq<Seq<char>>
    decreases paths.len(),
{
    if paths.len() == 0 || keys.len() < paths.len() {
        Seq::empty()
    } else {
        let n = paths.len() - 1;
        let prev = first_occurrences(paths.drop_last(), keys.take(n));
        if path_known(keys.take(n), keys[n]) {
            prev
        } else {
            prev.push(paths[n])
        }
    }
}

/// Remove duplicate paths, keeping the first occurrence. Two paths are
/// duplicates when their keys (their canonical forms) name the same path,
/// as std's `Path` compares paths.
pub fn deduplicate_paths(paths: Vec<String>, keys: Vec<String>) -> (result: Vec<String>)
    requires
        keys@.len() == paths@.len(),
    ensures
        result@.map_values(|s: String| s@) == first_occurrences(
            paths@.map_values(|s: String| s@),
            keys@.map_values(|s: String| s@),
        ),
{
    let ghost pv = paths@.map_values(|s: String| s@);
    let ghost kv = keys@.map_values(|s: String| s@);
    let mut seen = fx_set_new();
    let mut result: Vec<String> = Vec::with_capacity(paths.len());
    let n = paths.len();
    let mut i: usize = 0;
    while i < n
        invariant
            n == paths@.len(),
            n == keys@.len(),
            pv == paths@.map_values(|s: String| s@),
            kv == keys@.map_values(|s: String| s@),
            i <= n,
            forall|x: Seq<char>| #[trigger] fx_set_contents(seen).contains(x) ==> kv.take(i as int).contains(x),
            forall|j: int, c: Seq<char>|
                0 <= j < i && #[trigger] same_path(kv[j], c) ==> path_in(fx_set_contents(seen), c),
            result@.map_values(|s: String| s@) == first_occurrences(
                pv.take(i as int),
                kv.take(i as int),
            ),
        decreases n - i,
    {
        let key = keys[i].clone();
        let path = paths[i].clone();
        let ghost before = result@;
        let ghost old_set = fx_set_contents(seen);
        assert(key@ == kv[i as int]);
        let inserted = fx_set_insert(&mut seen, key);
        proof {
            let pt = pv.take(i + 1);
            let kt = kv.take(i + 1);
            let new_set = fx_set_contents(seen);
            assert(pt.drop_last() =~= pv.take(i as int));
            assert(kt.take(i as int) =~= kv.take(i as int));
            assert(kt[i as int] == kv[i as int]);
            assert(pt[i as int] == pv[i as int]);
            assert(inserted == !path_known(kv.take(i as int), kv[i as int])) by {
                if path_known(kv.take(i as int), kv[i as int]) {
                    let k = choose|k: int| 0 <= k < i && #[trigger] same_path(kv.take(i as int)[k], kv[i as int]);
                    assert(kv.take(i as int)[k] == kv[k]);
                    assert(same_path(kv[k], kv[i as int]));
                }
                if path_in(old_set, kv[i as int]) {
                    let x = choose|x: Seq<char>| #[trigger] old_set.contains(x) && same_path(x, kv[i as int]);
                    assert(kv.take(i as int).contains(x));
                    let k = choose|k: int| 0 <= k < i && kv.take(i as int)[k] == x;
                    assert(same_path(kv.take(i as int)[k], kv[i as int]));
                }
            }
            assert forall|x: Seq<char>| #[trigger] new_set.contains(x) implies kt.contains(x) by {
                if old_set.contains(x) {
                    assert(kv.take(i as int).contains(x));
                    let k = choose|k: int| 0 <= k < i && kv.take(i as int)[k] == x;
                    assert(kt[k] == x);
                } else {
                    assert(x == kv[i as int]);
                    assert(kt[i as int] == x);
                }
            }
            assert forall|j: int, c: Seq<char>|
                0 <= j < i + 1 && #[trigger] same_path(kv[j], c) implies path_in(new_set, c) by {
                if j < i {
                    assert(path_in(old_set, c));
                    let x = choose|x: Seq<char>| #[trigger] old_set.contains(x) && same_path(x, c);
                    assert(new_set.contains(x));
                } else if inserted {
                    assert(new_set.contains(kv[i as int]));
                } else {
                    assert(path_in(old_set, c));
                }
            }
        }
        if inserted {
            result.push(path);
            proof {
                assert(result@.map_values(|s: String| s@) =~= before.map_values(|s: String| s@).push(
                    pv[i as int],
                ));
            }
        }
        i = i + 1;
    }
    proof {
        assert(pv.take(n as int) =~= pv);
        assert(kv.take(n as int) =~= kv);
    }
    result
}

/// Finish discovery: remove duplicate candidates (by key, keeping the first)
/// and fail when nothing is left.
pub fn discover_files(candidates: Vec<String>, keys: Vec<String>) -> (files: Result<
    Vec<String>,
    SameError,
>)
    requires
        keys@.len() == candidates@.len(),
    ensures
        match files {
            Ok(v) => v@.map_values(|s: String| s@) == first_occurrences(
                candidates@.map_values(|s: String| s@),
                keys@.map_values(|s: String| s@),
            ) && v@.len() > 0,
            Err(e) => e == SameError::NoFilesFound && first_occurrences(
                candidates@.map_values(|s: String| s@),
                keys@.map_values(|s: String| s@),
            ).len() == 0,
        },
        files is Err <==> candidates@.len() == 0,
{
    proof {
        lemma_first_occurrences_empty(candidates@.map_values(|s: String| s@), keys@.map_values(|s: String| s@));
    }
    let files = deduplicate_paths(candidates, keys);
    if files.len() == 0 {
        return Err(SameError::NoFilesFound);
    }
    Ok(files)
}

/// Removing duplicates never lengthens the list.
pub proof fn lemma_first_occurrences_shorter(paths: Seq<Seq<char>>, keys: Seq<Seq<char>>)
    ensures
        first_occurrences(paths, keys).len() <= paths.len(),
    decreases paths.len(),
{
    if paths.len() > 0 && keys.len() >= paths.len() {
        let n = paths.len() - 1;
        lemma_first_occurrences_shorter(paths.drop_last(), keys.take(n));
    }
}

/// When no two keys name the same path, removing duplicates keeps every
/// path.
pub proof fn lemma_first_occurrences_distinct(paths: Seq<Seq<char>>, keys: Seq<Seq<char>>)
    requires
        keys.len() == paths.len(),
        distinct_paths(keys),
    ensures
        first_occurrences(paths, keys) == paths,
    decreases paths.len(),
{
    if paths.len() > 0 {
        let n = paths.len() - 1;
        let kt = keys.take(n);
        assert(distinct_paths(kt)) by {
            assert forall|i: int, j: int| 0 <= i < j < kt.len() implies !#[trigger] same_path(kt[i], kt[j]) by {
                assert(kt[i] == keys[i] && kt[j] == keys[j]);
            }
        }
        lemma_first_occurrences_distinct(paths.drop_last(), kt);
        assert(!path_known(kt, keys[n])) by {
            if path_known(kt, keys[n]) {
                let i = choose|i: int| 0 <= i < kt.len() && #[trigger] same_path(kt[i], keys[n]);
                assert(kt[i] == keys[i]);
                assert(!same_path(keys[i], keys[n]));
            }
        }
        assert(paths.drop_last().push(paths[n]) =~= paths);
    }
}

/// A trailing slash on the directory does not change the pattern scanned.
pub proof fn lemma_trailing_slash_ignored(dir: Seq<char>, glob_pattern: Seq<char>)
    ensures
        directory_pattern(dir.push('/'), glob_pattern) == directory_pattern(dir, glob_pattern),
{
    assert(dir.push('/').drop_last() =~= dir);
}

/// Removing duplicates leaves nothing only when there was nothing: the first
/// path is always kept.
pub proof fn lemma_first_occurrences_empty(paths: Seq<Seq<char>>, keys: Seq<Seq<char>>)
    requires
        keys.len() == paths.len(),
    ensures
        first_occurrences(paths, keys).len() == 0 <==> paths.len() == 0,
        paths.len() > 0 ==> first_occurrences(paths, keys)[0] == paths[0],
    decreases paths.len(),
{
    if paths.len() > 0 {
        let n = paths.len() - 1;
        let prev = first_occurrences(paths.drop_last(), keys.take(n));
        if n == 0 {
            assert(prev.len() == 0);
            assert(!path_known(keys.take(0), keys[0]));
        } else {
            lemma_first_occurrences_empty(paths.drop_last(), keys.take(n));
            assert(paths.drop_last()[0] == paths[0]);
        }
    }
}

/// Each path paired with its position.
pub open spec fn indexed(paths: Seq<Seq<char>>) -> Seq<(Seq<char>, int)> {
    Seq::new(paths.len(), |i: int| (paths[i], i))
}

/// No key at an earlier position names the same path as the key at `i`.
pub open spec fn first_with_key(keys: Seq<Seq<char>>, i: int) -> bool {
    forall|j: int| 0 <= j < i ==> !#[trigger] same_path(keys[j], keys[i])
}

/// The paths whose key names no path named at an earlier position, in order.
pub open spec fn paths_first_with_key(paths: Seq<Seq<char>>, keys: Seq<Seq<char>>) -> Seq<Seq<char>> {
    indexed(paths).filter(|e: (Seq<char>, int)| first_with_key(keys, e.1)).map_values(
        |e: (Seq<char>, int)| e.0,
    )
}

proof fn lemma_first_occurrences_prefix(paths: Seq<Seq<char>>, keys: Seq<Seq<char>>, k: int)
    requires
        keys.len() == paths.len(),
        0 <= k <= paths.len(),
    ensures
        first_occurrences(paths.take(k), keys.take(k)) == paths_first_with_key(paths.take(k), keys),
    decreases k,
{
    let pk = paths.take(k);
    let pred = |e: (Seq<char>, int)| first_with_key(keys, e.1);
    reveal(Seq::filter);
    if k == 0 {
        assert(indexed(pk).len() == 0);
        assert(indexed(pk).filter(pred) =~= Seq::<(Seq<char>, int)>::empty());
        assert(paths_first_with_key(pk, keys) =~= Seq::<Seq<char>>::empty());
    } else {
        lemma_first_occurrences_prefix(paths, keys, k - 1);
        let n = k - 1;
        assert(pk.drop_last() =~= paths.take(n));
        assert(keys.take(k).take(n) =~= keys.take(n));
        assert(indexed(pk).drop_last() =~= indexed(paths.take(n)));
        assert(indexed(pk).last() == (paths[n], n));
        assert(keys.take(k)[n] == keys[n]);
        assert(path_known(keys.take(n), keys[n]) <==> !first_with_key(keys, n)) by {
            if path_known(keys.take(n), keys[n]) {
                let j = choose|j: int| 0 <= j < n && #[trigger] same_path(keys.take(n)[j], keys[n]);
                assert(keys.take(n)[j] == keys[j]);
                assert(same_path(keys[j], keys[n]));
            }
            if !first_with_key(keys, n) {
                let j = choose|j: int| 0 <= j < n && #[trigger] same_path(keys[j], keys[n]);
                assert(keys.take(n)[j] == keys[j]);
                assert(same_path(keys.take(n)[j], keys[n]));
            }
        }
        let prev = indexed(paths.take(n)).filter(pred);
        if pred((paths[n], n)) {
            assert(indexed(pk).filter(pred) == prev.push((paths[n], n)));
            assert(paths_first_with_key(pk, keys) =~= paths_first_with_key(paths.take(n), keys).push(
                paths[n],
            ));
        } else {
            assert(indexed(pk).filter(pred) == prev);
        }
    }
}

/// Removing duplicates keeps exactly the paths whose key names no path named
/// at an earlier position, in their order.
pub proof fn lemma_first_occurrences_filter(paths: Seq<Seq<char>>, keys: Seq<Seq<char>>)
    requires
        keys.len() == paths.len(),
    ensures
        first_occurrences(paths, keys) == paths_first_with_key(paths, keys),
{
    lemma_first_occurrences_prefix(paths, keys, paths.len() as int);
    assert(paths.take(paths.len() as int) =~= paths);
    assert(keys.take(keys.len() as int) =~= keys);
}

} // verus!
