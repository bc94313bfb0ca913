//! Output formatting for duplicate detection results.
use vstd::prelude::*;

use crate::grouping::{DuplicateGroup, GroupInfo, LocationInfo, key_view, locations_view};
use crate::text::{decimal, push_decimal, push_right_aligned, right_aligned};

verus! {

/// Summary statistics for JSON output.
pub struct Summary {
    pub files_analyzed: usize,
    pub duplicate_groups: usize,
    pub total_duplicate_lines: usize,
}

/// Complete JSON output structure.
pub struct JsonOutput {
    pub version: String,
    pub summary: Summary,
    pub duplicates: Vec<GroupInfo>,
}

/// Lines as plain text.
pub open spec fn lines_view(lines: Seq<String>) -> Seq<Seq<char>> {
    lines.map_values(|s: String| s@)
}

/// The lines held by an optional list, as plain text.
pub open spec fn content_view(content: Option<Vec<String>>) -> Option<Seq<Seq<char>>> {
    match content {
        Some(v) => Some(lines_view(v@)),
        None => None,
    }
}

/// Sum of the line counts of the first `k` groups.
pub open spec fn total_lines(groups: Seq<DuplicateGroup>, k: int) -> int
    decreases k,
{
    if k <= 0 {
        0
    } else {
        total_lines(groups, k - 1) + groups[k - 1].line_count
    }
}

/// One location line: `  path  lines S-E`, with S counted from 1.
pub open spec fn location_text(loc: (Seq<char>, usize, usize)) -> Seq<char> {
    "  "@ + loc.0 + "  lines "@ + decimal((loc.1 + 1) as nat) + "-"@ + decimal(loc.2 as nat) + "\n"@
}

/// The location lines of the first `k` locations.
pub open spec fn locations_text(locs: Seq<(Seq<char>, usize, usize)>, k: int) -> Seq<char>
    decreases k,
{
    if k <= 0 {
        Seq::empty()
    } else {
        locations_text(locs, k - 1) + location_text(locs[k - 1])
    }
}

/// One content line: the 0-based line index `i` shown 1-based, right-aligned
/// in four columns.
pub open spec fn content_line_text(i: int, line: Seq<char>) -> Seq<char> {
    "  "@ + right_aligned(decimal((i + 1) as nat), 4) + " | "@ + line + "\n"@
}

/// The first `k` content lines, the first of them being line `start` of its
/// file.
pub open spec fn content_text(lines: Seq<Seq<char>>, start: int, k: int) -> Seq<char>
    decreases k,
{
    if k <= 0 {
        Seq::empty()
    } else {
        content_text(lines, start, k - 1) + content_line_text(start + k - 1, lines[k - 1])
    }
}

/// The text of one group: header, locations, its content when verbose and
/// read back, separator.
pub open spec fn group_text(g: DuplicateGroup, verbose: bool) -> Seq<char> {
    let locs = locations_view(g);
    decimal(g.line_count as nat) + " lines duplicated across "@ + decimal(locs.len()) + " files:\n"@
        + locations_text(locs, locs.len() as int) + (match g.content {
        Some(c) => if verbose {
            "\n"@ + content_text(lines_view(c@), locs[0].1 as int, c@.len() as int)
        } else {
            Seq::empty()
        },
        None => Seq::empty(),
    }) + "\n---\n\n"@
}

/// The text of the first `k` groups.
pub open spec fn groups_text(groups: Seq<DuplicateGroup>, verbose: bool, k: int) -> Seq<char>
    decreases k,
{
    if k <= 0 {
        Seq::empty()
    } else {
        groups_text(groups, verbose, k - 1) + group_text(groups[k - 1], verbose)
    }
}

/// The summary line closing a report with groups.
pub open spec fn summary_text(groups: Seq<DuplicateGroup>, files_count: usize) -> Seq<char> {
    "Summary: "@ + decimal(files_count as nat) + " files analyzed, "@ + decimal(groups.len())
        + " duplicate groups ("@ + decimal(total_lines(groups, groups.len() as int) as nat)
        + " lines)\n"@
}

/// The whole human-readable report.
pub open spec fn report_text(groups: Seq<DuplicateGroup>, verbose: bool, files_count: usize) -> Seq<
    char,
> {
    if groups.len() == 0 {
        "No duplicate code found.\n"@
    } else {
        "=== Duplicate Code Found ===\n\n"@ + groups_text(groups, verbose, groups.len() as int)
            + summary_text(groups, files_count)
    }
}

/// `t` occurs in `s` as a contiguous piece.
pub open spec fn occurs_in(t: Seq<char>, s: Seq<char>) -> bool {
    exists|i: int| 0 <= i && i + t.len() <= s.len() && #[trigger] s.subrange(i, i + t.len()) == t
}

proof fn lemma_occurs_in_middle(p: Seq<char>, t: Seq<char>, q: Seq<char>)
    ensures
        occurs_in(t, p + t + q),
{
    let s = p + t + q;
    assert(s.subrange(p.len() as int, (p.len() + t.len()) as int) =~= t);
}

proof fn lemma_occurs_in_extend(t: Seq<char>, s: Seq<char>, p: Seq<char>, q: Seq<char>)
    requires
        occurs_in(t, s),
    ensures
        occurs_in(t, p + s + q),
{
    let i = choose|i: int| 0 <= i && i + t.len() <= s.len() && #[trigger] s.subrange(i, i + t.len()) == t;
    let u = p + s + q;
    assert(u.subrange(p.len() + i, p.len() + i + t.len()) =~= s.subrange(i, i + t.len()));
}

proof fn lemma_content_line_occurs(lines: Seq<Seq<char>>, start: int, n: int, k: int)
    requires
        0 <= k < n,
    ensures
        occurs_in(content_line_text(start + k, lines[k]), content_text(lines, start, n)),
    decreases n,
{
    let prev = content_text(lines, start, n - 1);
    let last = content_line_text(start + n - 1, lines[n - 1]);
    assert(content_text(lines, start, n) == prev + last);
    if k == n - 1 {
        lemma_occurs_in_middle(prev, last, Seq::empty());
        assert(prev + last + Seq::<char>::empty() =~= prev + last);
    } else {
        lemma_content_line_occurs(lines, start, n - 1, k);
        lemma_occurs_in_extend(content_line_text(start + k, lines[k]), prev, Seq::empty(), last);
        assert(Seq::<char>::empty() + prev + last =~= prev + last);
    }
}

proof fn lemma_group_text_occurs(groups: Seq<DuplicateGroup>, verbose: bool, n: int, a: int, t: Seq<char>)
    requires
        0 <= a < n,
        occurs_in(t, group_text(groups[a], verbose)),
    ensures
        occurs_in(t, groups_text(groups, verbose, n)),
    decreases n,
{
    let prev = groups_text(groups, verbose, n - 1);
    let last = group_text(groups[n - 1], verbose);
    assert(groups_text(groups, verbose, n) == prev + last);
    if a == n - 1 {
        lemma_occurs_in_extend(t, last, prev, Seq::empty());
        assert(prev + last + Seq::<char>::empty() =~= prev + last);
    } else {
        lemma_group_text_occurs(groups, verbose, n - 1, a, t);
        lemma_occurs_in_extend(t, prev, Seq::empty(), last);
        assert(Seq::<char>::empty() + prev + last =~= prev + last);
    }
}

/// Line `k` of the content of `g`, if it has one, shows in `s`, numbered
/// from the start of `g`'s first location.
pub open spec fn content_line_shown(g: DuplicateGroup, k: int, s: Seq<char>) -> bool {
    match g.content {
        Some(c) => 0 <= k < c@.len() ==> occurs_in(content_line_text(g.locations@[0].1 + k, c@[k]@), s),
        None => true,
    }
}

/// In verbose mode the report shows every line of every group's content,
/// numbered from the group's first location: line `k` of the content of
/// group `a` appears as `  NNNN | line`, `NNNN` being that location's start
/// plus `k`, counted from 1.
pub proof fn lemma_verbose_content_reported(groups: Seq<DuplicateGroup>, files_count: usize)
    requires
        forall|a: int| 0 <= a < groups.len() ==> content_showable(#[trigger] groups[a]),
    ensures
        forall|a: int, k: int|
            0 <= a < groups.len() ==> #[trigger] content_line_shown(
                groups[a],
                k,
                report_text(groups, true, files_count),
            ),
{
    assert forall|a: int, k: int|
        0 <= a < groups.len() implies #[trigger] content_line_shown(
            groups[a],
            k,
            report_text(groups, true, files_count),
        ) by {
        let g = groups[a];
        if let Some(c) = g.content {
            if 0 <= k < c@.len() {
                assert(content_showable(g));
                let locs = locations_view(g);
                assert(locs[0].1 == g.locations@[0].1);
                let lv = lines_view(c@);
                assert(lv[k] == c@[k]@);
                let line = content_line_text(locs[0].1 + k, lv[k]);
                let ct = content_text(lv, locs[0].1 as int, c@.len() as int);
                lemma_content_line_occurs(lv, locs[0].1 as int, c@.len() as int, k);
                let head = decimal(g.line_count as nat) + " lines duplicated across "@ + decimal(locs.len())
                    + " files:\n"@ + locations_text(locs, locs.len() as int) + "\n"@;
                assert(group_text(g, true) =~= head + ct + "\n---\n\n"@);
                lemma_occurs_in_extend(line, ct, head, "\n---\n\n"@);
                lemma_group_text_occurs(groups, true, groups.len() as int, a, line);
                let gt = groups_text(groups, true, groups.len() as int);
                assert(report_text(groups, true, files_count) == "=== Duplicate Code Found ===\n\n"@ + gt
                    + summary_text(groups, files_count));
                lemma_occurs_in_extend(line, gt, "=== Duplicate Code Found ===\n\n"@, summary_text(groups, files_count));
            }
        }
    }
}

/// The line numbers of a group's content, counted from its first location,
/// can be shown.
pub open spec fn content_showable(g: DuplicateGroup) -> bool {
    match g.content {
        Some(c) => g.locations@.len() > 0 && g.locations@[0].1 + c@.len() <= usize::MAX,
        None => true,
    }
}

/// What the report needs of its inputs: the line total fits, every start
/// line can be shown 1-based, and in verbose mode the content of every group
/// can be numbered from its first location.
pub open spec fn report_inputs_ok(groups: Seq<DuplicateGroup>, verbose: bool) -> bool {
    &&& total_lines(groups, groups.len() as int) <= usize::MAX
    &&& forall|a: int, k: int|
        0 <= a < groups.len() && 0 <= k < groups[a].locations@.len() ==> (
        #[trigger] groups[a].locations@[k]).1 < usize::MAX
    &&& verbose ==> forall|a: int| 0 <= a < groups.len() ==> content_showable(#[trigger] groups[a])
}

proof fn lemma_total_lines_mono(groups: Seq<DuplicateGroup>, j: int, k: int)
    requires
        0 <= j <= k,
    ensures
        total_lines(groups, j) <= total_lines(groups, k),
    decreases k - j,
{
    if j < k {
        lemma_total_lines_mono(groups, j, k - 1);
    }
}

fn push_group_text(out: &mut String, group: &DuplicateGroup, verbose: bool)
    requires
        forall|k: int|
            0 <= k < group.locations@.len() ==> (#[trigger] group.locations@[k]).1 < usize::MAX,
        verbose ==> content_showable(*group),
    ensures
        final(out)@ == old(out)@ + group_text(*group, verbose),
{
    let ghost start = out@;
    let locs = &group.locations;
    let ghost lv = locations_view(*group);
    push_decimal(out, group.line_count);
    out.append(" lines duplicated across ");
    push_decimal(out, locs.len());
    out.append(" files:\n");
    let ghost head = out@;
    let nl = locs.len();
    let mut k: usize = 0;
    while k < nl
        invariant
            nl == locs@.len(),
            lv == locations_view(*group),
            *locs == group.locations,
            k <= nl,
            forall|q: int| 0 <= q < locs@.len() ==> (#[trigger] locs@[q]).1 < usize::MAX,
            out@ == head + locations_text(lv, k as int),
        decreases nl - k,
    {
        let (path, s, e) = &locs[k];
        let ghost before = out@;
        out.append("  ");
        out.append(path.as_str());
        out.append("  lines ");
        push_decimal(out, *s + 1);
        out.append("-");
        push_decimal(out, *e);
        out.append("\n");
        proof {
            assert(lv[k as int] == (path@, *s, *e));
            assert(out@ =~= before + location_text(lv[k as int]));
        }
        k = k + 1;
    }
    let ghost mid = out@;
    if verbose {
        if let Some(content) = &group.content {
            out.append("\n");
            let ghost cstart = out@;
            let start = locs[0].1;
            let ghost cv = lines_view(content@);
            let nc = content.len();
            let mut i: usize = 0;
            while i < nc
                invariant
                    nc == content@.len(),
                    cv == lines_view(content@),
                    start as int + nc <= usize::MAX,
                    i <= nc,
                    out@ == cstart + content_text(cv, start as int, i as int),
                decreases nc - i,
            {
                let ghost before = out@;
                out.append("  ");
                push_right_aligned(out, start + i + 1, 4);
                out.append(" | ");
                out.append(content[i].as_str());
                out.append("\n");
                proof {
                    assert(cv[i as int] == content@[i as int]@);
                    assert(out@ =~= before + content_line_text(start + i, cv[i as int]));
                }
                i = i + 1;
                proof {
                    assert(out@ =~= cstart + content_text(cv, start as int, i as int));
                }
            }
            proof {
                assert(out@ =~= mid + ("\n"@ + content_text(cv, start as int, nc as int)));
            }
        }
    }
    out.append("\n---\n\n");
    proof {
        assert(out@ =~= start + group_text(*group, verbose));
    }
}

/// Format results as human-readable text.
pub fn format_text(groups: &[DuplicateGroup], verbose: bool, files_count: usize) -> (output: String)
    requires
        report_inputs_ok(groups@, verbose),
    ensures
        output@ == report_text(groups@, verbose, files_count),
        verbose ==> forall|a: int, k: int|
            0 <= a < groups@.len() ==> #[trigger] content_line_shown(groups@[a], k, output@),
{
    proof {
        if verbose {
            lemma_verbose_content_reported(groups@, files_count);
        }
    }
    let mut output = String::new();
    if groups.len() == 0 {
        output.append("No duplicate code found.\n");
        assert(output@ =~= report_text(groups@, verbose, files_count));
        return output;
    }
    output.append("=== Duplicate Code Found ===\n\n");
    let ghost head = output@;
    let mut total_duplicate_lines: usize = 0;
    let ng = groups.len();
    let mut a: usize = 0;
    while a < ng
        invariant
            ng == groups@.len(),
            a <= ng,
            report_inputs_ok(groups@, verbose),
            total_duplicate_lines == total_lines(groups@, a as int),
            output@ == head + groups_text(groups@, verbose, a as int),
        decreases ng - a,
    {
        let group = &groups[a];
        proof {
            lemma_total_lines_mono(groups@, a + 1, ng as int);
        }
        total_duplicate_lines = total_duplicate_lines + group.line_count;
        proof {
            assert forall|k: int|
                0 <= k < group.locations@.len() implies (#[trigger] group.locations@[k]).1 < usize::MAX by {
                assert(groups@[a as int].locations@[k].1 < usize::MAX);
            }
            if verbose {
                assert(content_showable(groups@[a as int]));
            }
        }
        push_group_text(&mut output, group, verbose);
        a = a + 1;
        proof {
            assert(output@ =~= head + groups_text(groups@, verbose, a as int));
        }
    }
    output.append("Summary: ");
    push_decimal(&mut output, files_count);
    output.append(" files analyzed, ");
    push_decimal(&mut output, ng);
    output.append(" duplicate groups (");
    push_decimal(&mut output, total_duplicate_lines);
    output.append(" lines)\n");
    assert(output@ =~= report_text(groups@, verbose, files_count));
    output
}

/// `info` shows the region `loc`, its start counted from 1.
pub open spec fn location_info_matches(info: LocationInfo, loc: (Seq<char>, usize, usize)) -> bool {
    info.file@ == loc.0 && info.start == loc.1 + 1 && info.end == loc.2
}

/// `info` is the JSON view of group `g`: its line count, its locations in
/// order, and, when verbose, the content it holds.
pub open spec fn group_info_matches(info: GroupInfo, g: DuplicateGroup, verbose: bool) -> bool {
    let locs = locations_view(g);
    &&& info.lines == g.line_count
    &&& info.locations@.len() == locs.len()
    &&& forall|k: int|
        0 <= k < locs.len() ==> location_info_matches(#[trigger] info.locations@[k], locs[k])
    &&& content_view(info.content) == if verbose {
        content_view(g.content)
    } else {
        None
    }
}

/// What the JSON report needs of its inputs: the line total fits and every
/// start line can be shown 1-based.
pub open spec fn json_inputs_ok(groups: Seq<DuplicateGroup>) -> bool {
    &&& total_lines(groups, groups.len() as int) <= usize::MAX
    &&& forall|a: int, k: int|
        0 <= a < groups.len() && 0 <= k < groups[a].locations@.len() ==> (
        #[trigger] groups[a].locations@[k]).1 < usize::MAX
}

/// A copy of a list of lines.
fn copy_lines(lines: &Vec<String>) -> (out: Vec<String>)
    ensures
        lines_view(out@) == lines_view(lines@),
{
    let mut out: Vec<String> = Vec::new();
    let n = lines.len();
    let mut i: usize = 0;
    while i < n
        invariant
            n == lines@.len(),
            i <= n,
            lines_view(out@) == lines_view(lines@).take(i as int),
        decreases n - i,
    {
        let ghost before = out@;
        let line = lines[i].clone();
        out.push(line);
        assert(lines_view(out@) =~= lines_view(before).push(line@));
        i = i + 1;
        assert(lines_view(out@) =~= lines_view(lines@).take(i as int));
    }
    assert(lines_view(lines@).take(n as int) =~= lines_view(lines@));
    out
}

fn group_info(group: &DuplicateGroup, verbose: bool) -> (info: GroupInfo)
    requires
        forall|k: int|
            0 <= k < group.locations@.len() ==> (#[trigger] group.locations@[k]).1 < usize::MAX,
    ensures
        group_info_matches(info, *group, verbose),
{
    let ghost locs = locations_view(*group);
    let mut locations: Vec<LocationInfo> = Vec::new();
    let nl = group.locations.len();
    let mut k: usize = 0;
    while k < nl
        invariant
            nl == group.locations@.len(),
            locs == locations_view(*group),
            k <= nl,
            forall|q: int|
                0 <= q < group.locations@.len() ==> (#[trigger] group.locations@[q]).1 < usize::MAX,
            locations@.len() == k,
            forall|q: int| 0 <= q < k ==> location_info_matches(#[trigger] locations@[q], locs[q]),
        decreases nl - k,
    {
        let (path, s, e) = &group.locations[k];
        locations.push(LocationInfo { file: path.clone(), start: *s + 1, end: *e });
        k = k + 1;
    }
    let content = if verbose {
        match &group.content {
            Some(lines) => Some(copy_lines(lines)),
            None => None,
        }
    } else {
        None
    };
    GroupInfo { lines: group.line_count, locations, content }
}

/// The JSON report as values: the version, summary statistics, and one
/// entry per group with 1-based start lines and, when verbose, its content.
pub fn build_json_output(groups: &[DuplicateGroup], verbose: bool, files_count: usize, version: &str) -> (out:
    JsonOutput)
    requires
        json_inputs_ok(groups@),
    ensures
        out.version@ == version@,
        out.summary.files_analyzed == files_count,
        out.summary.duplicate_groups == groups@.len(),
        out.summary.total_duplicate_lines == total_lines(groups@, groups@.len() as int),
        out.duplicates@.len() == groups@.len(),
        forall|a: int|
            0 <= a < groups@.len() ==> group_info_matches(
                #[trigger] out.duplicates@[a],
                groups@[a],
                verbose,
            ),
        forall|a: int|
            0 <= a < groups@.len() ==> (#[trigger] out.duplicates@[a]).locations@.len()
                == groups@[a].locations@.len(),
        forall|a: int, k: int|
            0 <= a < groups@.len() && 0 <= k < groups@[a].locations@.len() ==> {
                let info = #[trigger] out.duplicates@[a].locations@[k];
                let loc = groups@[a].locations@[k];
                &&& info.file@ == loc.0@
                &&& info.start == loc.1 + 1
                &&& info.end == loc.2
            },
        forall|a: int|
            0 <= a < groups@.len() ==> content_view((#[trigger] out.duplicates@[a]).content) == if verbose {
                content_view(groups@[a].content)
            } else {
                None
            },
{
    let mut total_duplicate_lines: usize = 0;
    let mut duplicates: Vec<GroupInfo> = Vec::new();
    let ng = groups.len();
    let mut a: usize = 0;
    while a < ng
        invariant
            ng == groups@.len(),
            a <= ng,
            json_inputs_ok(groups@),
            total_duplicate_lines == total_lines(groups@, a as int),
            duplicates@.len() == a,
            forall|q: int|
                0 <= q < a ==> group_info_matches(#[trigger] duplicates@[q], groups@[q], verbose),
        decreases ng - a,
    {
        let group = &groups[a];
        proof {
            lemma_total_lines_mono(groups@, a + 1, ng as int);
            assert forall|k: int|
                0 <= k < group.locations@.len() implies (#[trigger] group.locations@[k]).1 < usize::MAX by {
                assert(groups@[a as int].locations@[k].1 < usize::MAX);
            }
        }
        total_duplicate_lines = total_duplicate_lines + group.line_count;
        duplicates.push(group_info(group, verbose));
        a = a + 1;
    }
    proof {
        assert forall|a: int, k: int|
            0 <= a < groups@.len() && 0 <= k < groups@[a].locations@.len() implies {
                let info = #[trigger] duplicates@[a].locations@[k];
                let loc = groups@[a].locations@[k];
                &&& info.file@ == loc.0@
                &&& info.start == loc.1 + 1
                &&& info.end == loc.2
            } by {
            assert(group_info_matches(duplicates@[a], groups@[a], verbose));
            assert(locations_view(groups@[a])[k] == key_view(groups@[a].locations@[k]));
            assert(location_info_matches(duplicates@[a].locations@[k], locations_view(groups@[a])[k]));
        }
        assert forall|a: int| 0 <= a < groups@.len() implies (#[trigger] duplicates@[a]).locations@.len()
            == groups@[a].locations@.len() by {
            assert(group_info_matches(duplicates@[a], groups@[a], verbose));
        }
        assert forall|a: int| 0 <= a < groups@.len() implies content_view((#[trigger] duplicates@[a]).content)
            == if verbose {
            content_view(groups@[a].content)
        } else {
            None
        } by {
            assert(group_info_matches(duplicates@[a], groups@[a], verbose));
        }
    }
    JsonOutput {
        version: version.to_owned(),
        summary: Summary { files_analyzed: files_count, duplicate_groups: ng, total_duplicate_lines },
        duplicates,
    }
}

/// Sums the line counts of the groups; None when the sum overflows.
fn checked_total_lines(groups: &[DuplicateGroup]) -> (total: Option<usize>)
    ensures
        match total {
            Some(t) => t == total_lines(groups@, groups@.len() as int),
            None => total_lines(groups@, groups@.len() as int) > usize::MAX,
        },
{
    let n = groups.len();
    let mut total: usize = 0;
    let mut a: usize = 0;
    while a < n
        invariant
            n == groups@.len(),
            a <= n,
            total == total_lines(groups@, a as int),
        decreases n - a,
    {
        match total.checked_add(groups[a].line_count) {
            Some(t) => {
                total = t;
            },
            None => {
                proof {
                    lemma_total_lines_mono(groups@, a + 1, n as int);
                }
                return None;
            },
        }
        a = a + 1;
    }
    Some(total)
}

/// Whether every location of every group starts before `usize::MAX`.
fn starts_showable(groups: &[DuplicateGroup]) -> (ok: bool)
    ensures
        ok == forall|a: int, k: int|
            0 <= a < groups@.len() && 0 <= k < groups@[a].locations@.len() ==> (
            #[trigger] groups@[a].locations@[k]).1 < usize::MAX,
{
    let n = groups.len();
    let mut a: usize = 0;
    while a < n
        invariant
            n == groups@.len(),
            a <= n,
            forall|x: int, k: int|
                0 <= x < a && 0 <= k < groups@[x].locations@.len() ==> (
                #[trigger] groups@[x].locations@[k]).1 < usize::MAX,
        decreases n - a,
    {
        let nl = groups[a].locations.len();
        let mut k: usize = 0;
        while k < nl
            invariant
                n == groups@.len(),
                a < n,
                nl == groups@[a as int].locations@.len(),
                k <= nl,
                forall|x: int, q: int|
                    0 <= x < a && 0 <= q < groups@[x].locations@.len() ==> (
                    #[trigger] groups@[x].locations@[q]).1 < usize::MAX,
                forall|q: int| 0 <= q < k ==> (#[trigger] groups@[a as int].locations@[q]).1 < usize::MAX,
            decreases nl - k,
        {
            if groups[a].locations[k].1 == usize::MAX {
                return false;
            }
            k = k + 1;
        }
        a = a + 1;
    }
    true
}

/// Whether the content of a group can be numbered from its first location.
fn group_content_showable(g: &DuplicateGroup) -> (ok: bool)
    ensures
        ok == content_showable(*g),
{
    match &g.content {
        Some(c) => g.locations.len() > 0 && c.len() <= usize::MAX - g.locations[0].1,
        None => true,
    }
}

/// Whether `format_text` can report these groups: see `report_inputs_ok`.
pub fn report_inputs_valid(groups: &[DuplicateGroup], verbose: bool) -> (ok: bool)
    ensures
        ok == report_inputs_ok(groups@, verbose),
{
    if checked_total_lines(groups).is_none() || !starts_showable(groups) {
        return false;
    }
    if verbose {
        let n = groups.len();
        let mut a: usize = 0;
        while a < n
            invariant
                verbose,
                n == groups@.len(),
                a <= n,
                forall|x: int| 0 <= x < a ==> content_showable(#[trigger] groups@[x]),
            decreases n - a,
        {
            if !group_content_showable(&groups[a]) {
                return false;
            }
            a = a + 1;
        }
    }
    true
}

/// Whether `build_json_output` can report these groups: see `json_inputs_ok`.
pub fn json_inputs_valid(groups: &[DuplicateGroup]) -> (ok: bool)
    ensures
        ok == json_inputs_ok(groups@),
{
    checked_total_lines(groups).is_some() && starts_showable(groups)
}

} // verus!
