//! The order and the equality of file paths, as std's `Path` defines them.
use vstd::prelude::*;

verus! {

/// Names std's strict order on paths: `Path::new(a) < Path::new(b)`,
/// which compares the paths component by component.
pub uninterp spec fn spec_path_less(a: Seq<char>, b: Seq<char>) -> bool;

/// Names std's equality on paths: `Path::new(a) == Path::new(b)`, which
/// compares the paths component by component (so `a//b` and `a/b` are one
/// path).
pub uninterp spec fn spec_path_eq(a: Seq<char>, b: Seq<char>) -> bool;

/// `a` and `b` name the same path: equal as text, or equal as paths in
/// either direction.
pub open spec fn same_path(a: Seq<char>, b: Seq<char>) -> bool {
    a == b || spec_path_eq(a, b) || spec_path_eq(b, a)
}

/// `Path::new(a) < Path::new(b)` (std's `PartialOrd::lt` on `Path`).
///
/// Trusted: the result is named by `spec_path_less`. `Path` implements
/// `Ord` consistently with its `Eq`, so of `a < b`, `a == b` and `b < a`
/// exactly one holds, and a path is never below itself. The order is
/// transitive and total: when `a < b`, every path not below `b` (so at or
/// above it) is above `a`, and every path at or below `a` is below `b`.
#[verifier::external_body]
pub(crate) fn path_less(a: &str, b: &str) -> (r: bool)
    ensures
        r == spec_path_less(a@, b@),
        r ==> !spec_path_less(b@, a@) && !spec_path_eq(a@, b@) && !spec_path_eq(b@, a@),
        !r ==> spec_path_less(b@, a@) || spec_path_eq(a@, b@),
        a@ == b@ ==> !r,
        r ==> forall|c: Seq<char>|
            #![trigger spec_path_less(b@, c)]
            #![trigger same_path(b@, c)]
            spec_path_less(b@, c) || same_path(b@, c) ==> spec_path_less(a@, c),
        r ==> forall|c: Seq<char>| #[trigger] spec_path_less(c, b@) || spec_path_less(a@, c),
        r ==> forall|c: Seq<char>|
            #![trigger spec_path_less(c, a@)]
            #![trigger same_path(c, a@)]
            spec_path_less(c, a@) || same_path(c, a@) ==> spec_path_less(c, b@),
{
    std::path::Path::new(a) < std::path::Path::new(b)
}

/// `Path::new(a) == Path::new(b)` (std's `PartialEq::eq` on `Path`).
///
/// Trusted: the result is named by `spec_path_eq`. `Path` implements `Eq`,
/// so the relation is symmetric, reflexive and transitive, and consistent
/// with its total `Ord`: equal paths are below one another in neither
/// direction, stand in the same relations to every other path, and every
/// path is below them, equal to them, or above them.
#[verifier::external_body]
pub(crate) fn path_eq(a: &str, b: &str) -> (r: bool)
    ensures
        r == spec_path_eq(a@, b@),
        r == spec_path_eq(b@, a@),
        a@ == b@ ==> r,
        r ==> !spec_path_less(a@, b@) && !spec_path_less(b@, a@),
        r ==> forall|c: Seq<char>|
            #![trigger same_path(a@, c)]
            #![trigger same_path(b@, c)]
            same_path(a@, c) == same_path(b@, c),
        r ==> forall|c: Seq<char>|
            #![trigger spec_path_less(a@, c)]
            #![trigger spec_path_less(b@, c)]
            spec_path_less(a@, c) == spec_path_less(b@, c),
        r ==> forall|c: Seq<char>|
            #![trigger spec_path_less(c, a@)]
            #![trigger spec_path_less(c, b@)]
            spec_path_less(c, a@) == spec_path_less(c, b@),
        r ==> forall|c: Seq<char>|
            #![trigger spec_path_less(c, b@)]
            #![trigger same_path(c, b@)]
            spec_path_less(c, b@) || same_path(c, b@) || spec_path_less(b@, c),
{
    std::path::Path::new(a) == std::path::Path::new(b)
}

} // verus!
