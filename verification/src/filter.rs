//! Reading back the lines of duplicate groups: filtering groups by a
//! regular expression on their first line, and filling in their content for
//! verbose output. Both work from a cache of file lines, keyed by path.
use vstd::prelude::*;

use crate::grouping::{DuplicateGroup, key_view, locations_view};
use crate::output::{content_view, lines_view};
use crate::paths::{path_eq, same_path};

verus! {

/// A compiled regular expression (regex crate).
#[verifier::external_type_specification]
#[verifier::external_body]
pub struct ExRegex(regex::Regex);

/// Names whether `Regex::new` accepts a pattern (with the default size
/// limit).
pub uninterp spec fn spec_regex_valid(pattern: Seq<char>) -> bool;

/// Names whether the regex compiled from `pattern` finds a match anywhere
/// in `text`.
pub uninterp spec fn spec_regex_is_match(pattern: Seq<char>, text: Seq<char>) -> bool;

/// `regex::Regex::new` (regex), the error dropped.
///
/// Trusted: the call succeeds exactly when the pattern is one the name
/// `spec_regex_valid` accepts; the result depends on the pattern alone.
#[verifier::external_body]
fn compile_regex(pattern: &str) -> (re: Option<regex::Regex>)
    ensures
        re is Some <==> spec_regex_valid(pattern@),
{
    regex::Regex::new(pattern).ok()
}

/// A pattern for filtering groups, with its compiled regex. The regex is
/// only ever built from `source`, by `LinePattern::new`.
pub struct LinePattern {
    source: String,
    regex: regex::Regex,
}

/// `regex::Regex::is_match` (regex) on the regex of a `LinePattern`.
///
/// Trusted: since a `LinePattern`'s regex is compiled from its source, the
/// result is the name `spec_regex_is_match` of the source and the text.
#[verifier::external_body]
fn regex_is_match(pattern: &LinePattern, text: &str) -> (found: bool)
    ensures
        found == spec_regex_is_match(pattern.pattern_text(), text@),
{
    pattern.regex.is_match(text)
}

impl LinePattern {
    /// The pattern text this filter was compiled from.
    pub closed spec fn pattern_text(&self) -> Seq<char> {
        self.source@
    }

    /// Compiles `pattern`; None when the regex crate rejects it.
    pub fn new(pattern: &str) -> (p: Option<LinePattern>)
        ensures
            p is Some <==> spec_regex_valid(pattern@),
            p matches Some(lp) ==> lp.pattern_text() == pattern@,
    {
        match compile_regex(pattern) {
            Some(regex) => Some(LinePattern { source: pattern.to_owned(), regex }),
            None => None,
        }
    }

    /// Whether the pattern matches anywhere in `text`.
    pub fn is_match(&self, text: &str) -> (found: bool)
        ensures
            found == spec_regex_is_match(self.pattern_text(), text@),
    {
        regex_is_match(self, text)
    }
}

/// The lines that `cache` holds for `path`: those of the first entry for the
/// same path (as std's `Path` compares paths), or none.
pub open spec fn cached_lines(cache: Seq<(Seq<char>, Seq<Seq<char>>)>, path: Seq<char>) -> Seq<
    Seq<char>,
>
    decreases cache.len(),
{
    if cache.len() == 0 {
        Seq::empty()
    } else if same_path(cache[0].0, path) {
        cache[0].1
    } else {
        cached_lines(cache.drop_first(), path)
    }
}

/// A group is kept when its first location's first line exists and matches.
pub open spec fn group_selected(
    g: DuplicateGroup,
    cache: Seq<(Seq<char>, Seq<Seq<char>>)>,
    pattern: Seq<char>,
) -> bool {
    let locs = locations_view(g);
    locs.len() > 0 && {
        let lines = cached_lines(cache, locs[0].0);
        locs[0].1 < lines.len() && spec_regex_is_match(pattern, lines[locs[0].1 as int])
    }
}

/// The groups among the first `k` that are kept, in order.
pub open spec fn selected_groups(
    groups: Seq<DuplicateGroup>,
    cache: Seq<(Seq<char>, Seq<Seq<char>>)>,
    pattern: Seq<char>,
    k: int,
) -> Seq<DuplicateGroup>
    decreases k,
{
    if k <= 0 {
        Seq::empty()
    } else {
        let prev = selected_groups(groups, cache, pattern, k - 1);
        if group_selected(groups[k - 1], cache, pattern) {
            prev.push(groups[k - 1])
        } else {
            prev
        }
    }
}

/// The line at the start index of `g`'s first location exists among the
/// lines cached for that location's file, and the pattern matches it.
pub open spec fn first_line_matches(
    g: DuplicateGroup,
    cache: Seq<(Seq<char>, Seq<Seq<char>>)>,
    pattern: Seq<char>,
) -> bool {
    &&& g.locations@.len() > 0
    &&& g.locations@[0].1 < cached_lines(cache, g.locations@[0].0@).len()
    &&& spec_regex_is_match(pattern, cached_lines(cache, g.locations@[0].0@)[g.locations@[0].1 as int])
}

proof fn lemma_selected_prefix(
    groups: Seq<DuplicateGroup>,
    cache: Seq<(Seq<char>, Seq<Seq<char>>)>,
    pattern: Seq<char>,
    k: int,
)
    requires
        0 <= k <= groups.len(),
    ensures
        selected_groups(groups, cache, pattern, k) == groups.take(k).filter(
            |g: DuplicateGroup| first_line_matches(g, cache, pattern),
        ),
    decreases k,
{
    reveal(Seq::filter);
    let pred = |g: DuplicateGroup| first_line_matches(g, cache, pattern);
    if k == 0 {
        assert(groups.take(0).filter(pred) =~= Seq::<DuplicateGroup>::empty());
    } else {
        lemma_selected_prefix(groups, cache, pattern, k - 1);
        let t = groups.take(k);
        assert(t.drop_last() =~= groups.take(k - 1));
        assert(t.last() == groups[k - 1]);
        let g = groups[k - 1];
        let locs = locations_view(g);
        if g.locations@.len() > 0 {
            assert(locs[0] == key_view(g.locations@[0]));
        }
        assert(group_selected(g, cache, pattern) == first_line_matches(g, cache, pattern));
    }
}

/// The filter keeps exactly the groups whose first location's first line
/// (the line at its start index) exists and matches the pattern, in their
/// order.
pub proof fn lemma_filter_keeps_first_line_matches(
    groups: Seq<DuplicateGroup>,
    cache: Seq<(Seq<char>, Seq<Seq<char>>)>,
    pattern: Seq<char>,
)
    ensures
        selected_groups(groups, cache, pattern, groups.len() as int) == groups.filter(
            |g: DuplicateGroup| first_line_matches(g, cache, pattern),
        ),
{
    lemma_selected_prefix(groups, cache, pattern, groups.len() as int);
    assert(groups.take(groups.len() as int) =~= groups);
}

/// A cache of file lines as plain values.
pub open spec fn cache_view(cache: Seq<(String, Vec<String>)>) -> Seq<(Seq<char>, Seq<Seq<char>>)> {
    cache.map_values(|e: (String, Vec<String>)| (e.0@, e.1@.map_values(|s: String| s@)))
}

/// Finds the lines cached for `path`.
fn lookup_lines<'a>(cache: &'a Vec<(String, Vec<String>)>, path: &String) -> (lines: Option<
    &'a Vec<String>,
>)
    ensures
        match lines {
            Some(l) => l@.map_values(|s: String| s@) == cached_lines(cache_view(cache@), path@),
            None => cached_lines(cache_view(cache@), path@) == Seq::<Seq<char>>::empty(),
        },
{
    let ghost cv = cache_view(cache@);
    let n = cache.len();
    let mut i: usize = 0;
    assert(cv.skip(0) =~= cv);
    while i < n
        invariant
            n == cache@.len(),
            cv == cache_view(cache@),
            i <= n,
            cached_lines(cv, path@) == cached_lines(cv.skip(i as int), path@),
        decreases n - i,
    {
        proof {
            let s = cv.skip(i as int);
            assert(s[0] == cv[i as int]);
            assert(s.drop_first() =~= cv.skip(i + 1));
        }
        if path_eq(cache[i].0.as_str(), path.as_str()) {
            return Some(&cache[i].1);
        }
        i = i + 1;
    }
    assert(cv.skip(n as int).len() == 0);
    None
}

/// Whether a group is kept by the filter.
fn group_matches(group: &DuplicateGroup, cache: &Vec<(String, Vec<String>)>, pattern: &LinePattern) -> (keep: bool)
    ensures
        keep == group_selected(*group, cache_view(cache@), pattern.pattern_text()),
{
    if group.locations.len() == 0 {
        return false;
    }
    let (path, start, _end) = &group.locations[0];
    match lookup_lines(cache, path) {
        Some(lines) => {
            if *start < lines.len() {
                let found = pattern.is_match(lines[*start].as_str());
                proof {
                    assert(lines@.map_values(|s: String| s@)[*start as int] == lines@[*start as int]@);
                }
                found
            } else {
                false
            }
        },
        None => false,
    }
}

/// Filter duplicate groups by regex, keeping only groups whose first line
/// at the first location matches the pattern. `cache` holds the lines of
/// the files named by the groups' first locations; a file missing from it
/// has no lines.
pub fn filter_groups_by_regex(
    groups: Vec<DuplicateGroup>,
    cache: &Vec<(String, Vec<String>)>,
    pattern: &LinePattern,
) -> (kept: Vec<DuplicateGroup>)
    ensures
        kept@ == selected_groups(
            groups@,
            cache_view(cache@),
            pattern.pattern_text(),
            groups@.len() as int,
        ),
        kept@ == groups@.filter(
            |g: DuplicateGroup| first_line_matches(g, cache_view(cache@), pattern.pattern_text()),
        ),
{
    proof {
        lemma_filter_keeps_first_line_matches(groups@, cache_view(cache@), pattern.pattern_text());
    }
    let ghost all = groups@;
    let mut kept: Vec<DuplicateGroup> = Vec::new();
    for g in it: groups
        invariant
            it.seq() == all,
            kept@ == selected_groups(all, cache_view(cache@), pattern.pattern_text(), it.index() as int),
    {
        if group_matches(&g, cache, pattern) {
            kept.push(g);
        }
    }
    kept
}

/// The lines of the first location of `g`, when its file holds all of them.
pub open spec fn first_location_lines(
    g: DuplicateGroup,
    cache: Seq<(Seq<char>, Seq<Seq<char>>)>,
) -> Option<Seq<Seq<char>>> {
    let locs = locations_view(g);
    if locs.len() > 0 && locs[0].2 <= cached_lines(cache, locs[0].0).len() {
        Some(cached_lines(cache, locs[0].0).subrange(locs[0].1 as int, locs[0].2 as int))
    } else {
        None
    }
}

/// `out` is `g` with its content read back: the lines of its first location
/// when its file holds them all, else the content `g` already had.
pub open spec fn content_filled(
    out: DuplicateGroup,
    g: DuplicateGroup,
    cache: Seq<(Seq<char>, Seq<Seq<char>>)>,
) -> bool {
    &&& out.line_count == g.line_count
    &&& out.locations@ == g.locations@
    &&& content_view(out.content) == match first_location_lines(g, cache) {
        Some(lines) => Some(lines),
        None => content_view(g.content),
    }
}

/// Reading the lines `start..end` of a file needs `start <= end` once `end`
/// lies within the file.
pub open spec fn first_range_readable(g: DuplicateGroup, cache: Seq<(Seq<char>, Seq<Seq<char>>)>) -> bool {
    let locs = locations_view(g);
    locs.len() > 0 && locs[0].2 <= cached_lines(cache, locs[0].0).len() ==> locs[0].1 <= locs[0].2
}

/// A copy of the lines `start..end`.
fn copy_range(lines: &Vec<String>, start: usize, end: usize) -> (out: Vec<String>)
    requires
        start <= end <= lines@.len(),
    ensures
        lines_view(out@) == lines_view(lines@).subrange(start as int, end as int),
{
    let mut out: Vec<String> = Vec::new();
    let mut i: usize = start;
    while i < end
        invariant
            start <= i <= end,
            end <= lines@.len(),
            lines_view(out@) == lines_view(lines@).subrange(start as int, i as int),
        decreases end - i,
    {
        let ghost before = out@;
        let line = lines[i].clone();
        out.push(line);
        assert(lines_view(out@) =~= lines_view(before).push(line@));
        i = i + 1;
        assert(lines_view(out@) =~= lines_view(lines@).subrange(start as int, i as int));
    }
    out
}

/// Populate content for verbose output: each group gets the lines of its
/// first location, taken from `cache`, when the file holds them all; a file
/// missing from the cache has no lines.
pub fn populate_content(groups: Vec<DuplicateGroup>, cache: &Vec<(String, Vec<String>)>) -> (out: Vec<
    DuplicateGroup,
>)
    requires
        forall|a: int| 0 <= a < groups@.len() ==> first_range_readable(#[trigger] groups@[a], cache_view(cache@)),
    ensures
        out@.len() == groups@.len(),
        forall|a: int|
            0 <= a < groups@.len() ==> content_filled(#[trigger] out@[a], groups@[a], cache_view(cache@)),
{
    let ghost all = groups@;
    let ghost cv = cache_view(cache@);
    let mut out: Vec<DuplicateGroup> = Vec::new();
    for g in it: groups
        invariant
            it.seq() == all,
            cv == cache_view(cache@),
            forall|a: int| 0 <= a < all.len() ==> first_range_readable(#[trigger] all[a], cv),
            out@.len() == it.index(),
            forall|a: int| 0 <= a < out@.len() ==> content_filled(#[trigger] out@[a], all[a], cv),
    {
        let ghost g0 = g;
        let ghost k = out@.len() as int;
        assert(g0 == all[k]);
        let mut g = g;
        if g.locations.len() > 0 {
            let (path, start, end) = &g.locations[0];
            let s = *start;
            let e = *end;
            proof {
                assert(first_range_readable(all[k], cv));
                assert(locations_view(g0)[0] == (path@, s, e));
            }
            match lookup_lines(cache, path) {
                Some(lines) => {
                    if e <= lines.len() {
                        let content = copy_range(lines, s, e);
                        g.content = Some(content);
                    }
                },
                None => {
                    if e == 0 {
                        let content: Vec<String> = Vec::new();
                        proof {
                            assert(lines_view(content@) =~= Seq::<Seq<char>>::empty().subrange(
                                s as int,
                                e as int,
                            ));
                        }
                        g.content = Some(content);
                    }
                },
            }
        }
        assert(content_filled(g, g0, cv));
        out.push(g);
    }
    out
}

} // verus!
