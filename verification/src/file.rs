//! Normalization and hashing of file contents.
//!
//! Reading files is left to the caller; the functions here take a file's
//! bytes and compute what the tool keeps of it.
use vstd::prelude::*;
use vstd::utf8::{decode_utf8, encode_utf8, valid_utf8};

use crate::types::FileDescription;

verus! {

/// Size of the prefix inspected for binary detection (8KB).
pub const BINARY_CHECK_SIZE: usize = 8192;

/// Names xxh3's 64-bit hash of a byte sequence (seed 0).
pub uninterp spec fn spec_xxh3_64(bytes: Seq<u8>) -> u64;

/// Names `String::from_utf8_lossy`: the text of bytes, with each invalid
/// sequence replaced by U+FFFD.
pub uninterp spec fn spec_utf8_lossy(bytes: Seq<u8>) -> Seq<char>;

/// A line without the `\r` of a `\r\n` ending.
pub open spec fn strip_cr(line: Seq<char>) -> Seq<char> {
    if line.len() > 0 && line.last() == '\r' {
        line.drop_last()
    } else {
        line
    }
}

/// The lines of `text`, the current line so far being `cur`: each `\n`
/// ends a line (dropping a `\r` just before it), and a last line without
/// `\n` is kept as it is unless it is empty.
pub open spec fn lines_from(text: Seq<char>, cur: Seq<char>) -> Seq<Seq<char>>
    decreases text.len(),
{
    if text.len() == 0 {
        if cur.len() == 0 {
            Seq::empty()
        } else {
            seq![cur]
        }
    } else if text[0] == '\n' {
        seq![strip_cr(cur)] + lines_from(text.drop_first(), Seq::empty())
    } else {
        lines_from(text.drop_first(), cur.push(text[0]))
    }
}

/// The lines of a text, as `str::lines` splits them.
pub open spec fn spec_lines(text: Seq<char>) -> Seq<Seq<char>> {
    lines_from(text, Seq::empty())
}

/// Whitespace as Unicode's White_Space property defines it (the test of
/// `char::is_whitespace`).
pub open spec fn is_white_space(c: char) -> bool {
    let u = c as u32;
    ||| 0x9 <= u <= 0xD
    ||| u == 0x20
    ||| u == 0x85
    ||| u == 0xA0
    ||| u == 0x1680
    ||| 0x2000 <= u <= 0x200A
    ||| u == 0x2028
    ||| u == 0x2029
    ||| u == 0x202F
    ||| u == 0x205F
    ||| u == 0x3000
}

/// `s` without its leading whitespace.
pub open spec fn trim_start(s: Seq<char>) -> Seq<char>
    decreases s.len(),
{
    if s.len() > 0 && is_white_space(s[0]) {
        trim_start(s.drop_first())
    } else {
        s
    }
}

/// `s` without its trailing whitespace.
pub open spec fn trim_end(s: Seq<char>) -> Seq<char>
    decreases s.len(),
{
    if s.len() > 0 && is_white_space(s.last()) {
        trim_end(s.drop_last())
    } else {
        s
    }
}

/// `s` without its leading and trailing whitespace.
pub open spec fn spec_trim(s: Seq<char>) -> Seq<char> {
    trim_end(trim_start(s))
}

/// `xxhash_rust::xxh3::xxh3_64` (xxhash-rust).
///
/// Trusted: the result is the name `spec_xxh3_64` of the bytes; the hash
/// depends on the bytes alone.
#[verifier::external_body]
fn xxh3_64(bytes: &[u8]) -> (h: u64)
    ensures
        h == spec_xxh3_64(bytes@),
{
    xxhash_rust::xxh3::xxh3_64(bytes)
}

/// `String::from_utf8_lossy` (std), made an owned string.
///
/// Trusted: the result is named by `spec_utf8_lossy`; std documents that
/// valid UTF-8 is decoded unchanged. What replaces invalid sequences is not
/// stated beyond the name.
#[verifier::external_body]
fn utf8_lossy(bytes: &[u8]) -> (s: String)
    ensures
        s@ == spec_utf8_lossy(bytes@),
        valid_utf8(bytes@) ==> s@ == decode_utf8(bytes@),
{
    String::from_utf8_lossy(bytes).into_owned()
}

/// `str::lines` (std), each line made an owned string.
///
/// Trusted: std documents that lines end at `\n` or `\r\n`, that the
/// endings are not part of the lines, and that the final ending is optional
/// (a trailing `\r` without `\n` stays in the last line); `spec_lines`
/// states that.
#[verifier::external_body]
fn str_lines(text: &str) -> (v: Vec<String>)
    ensures
        v@.map_values(|s: String| s@) == spec_lines(text@),
{
    text.lines().map(|line| line.to_string()).collect()
}

/// `str::trim` (std).
///
/// Trusted: std documents the result as the text with its leading and
/// trailing whitespace removed, whitespace being Unicode's White_Space
/// property; `spec_trim` states that.
#[verifier::external_body]
fn str_trim(text: &str) -> (t: &str)
    ensures
        t@ == spec_trim(text@),
{
    text.trim()
}

/// The text of a file's bytes, decoded lossily.
pub open spec fn file_text(content: Seq<u8>) -> Seq<char> {
    spec_utf8_lossy(content)
}

/// The hash of one line: xxh3 of its UTF-8 bytes.
pub open spec fn line_hash(line: Seq<char>) -> u64 {
    spec_xxh3_64(encode_utf8(line))
}

/// The per-line hashes of a file: each line trimmed, then hashed.
pub open spec fn normalized_hashes(content: Seq<u8>) -> Seq<u64> {
    spec_lines(file_text(content)).map_values(|l: Seq<char>| line_hash(spec_trim(l)))
}

/// The lines of a file, indentation kept.
pub open spec fn raw_lines(content: Seq<u8>) -> Seq<Seq<char>> {
    spec_lines(file_text(content))
}

/// Leading whitespace never changes a trimmed line.
pub proof fn lemma_trim_ignores_indentation(indent: Seq<char>, line: Seq<char>)
    requires
        forall|i: int| 0 <= i < indent.len() ==> is_white_space(#[trigger] indent[i]),
    ensures
        spec_trim(indent + line) == spec_trim(line),
    decreases indent.len(),
{
    if indent.len() > 0 {
        let rest = indent.drop_first();
        assert((indent + line)[0] == indent[0]);
        assert((indent + line).drop_first() =~= rest + line);
        assert forall|i: int| 0 <= i < rest.len() implies is_white_space(#[trigger] rest[i]) by {
            assert(rest[i] == indent[i + 1]);
        }
        lemma_trim_ignores_indentation(rest, line);
        assert(trim_start(indent + line) == trim_start(rest + line));
    } else {
        assert(indent + line =~= line);
    }
}

/// Trailing whitespace never changes a line with its leading whitespace
/// removed.
proof fn lemma_trim_end_ignores_trailing(s: Seq<char>, tail: Seq<char>)
    requires
        forall|i: int| 0 <= i < tail.len() ==> is_white_space(#[trigger] tail[i]),
    ensures
        trim_end(s + tail) == trim_end(s),
    decreases tail.len(),
{
    if tail.len() > 0 {
        let init = tail.drop_last();
        assert((s + tail).last() == tail.last());
        assert(is_white_space(tail[tail.len() - 1]));
        assert((s + tail).drop_last() =~= s + init);
        assert forall|i: int| 0 <= i < init.len() implies is_white_space(#[trigger] init[i]) by {
            assert(init[i] == tail[i]);
        }
        lemma_trim_end_ignores_trailing(s, init);
    } else {
        assert(s + tail =~= s);
    }
}

/// Leading whitespace is removed before any trailing whitespace: a line
/// that is not all whitespace keeps its tail after `trim_start`.
proof fn lemma_trim_start_append(s: Seq<char>, tail: Seq<char>)
    requires
        exists|i: int| 0 <= i < s.len() && !is_white_space(#[trigger] s[i]),
    ensures
        trim_start(s + tail) == trim_start(s) + tail,
    decreases s.len(),
{
    if is_white_space(s[0]) {
        let rest = s.drop_first();
        let i = choose|i: int| 0 <= i < s.len() && !is_white_space(#[trigger] s[i]);
        assert(i > 0);
        assert(rest[i - 1] == s[i]);
        assert((s + tail)[0] == s[0]);
        assert((s + tail).drop_first() =~= rest + tail);
        lemma_trim_start_append(rest, tail);
    } else {
        assert((s + tail)[0] == s[0]);
    }
}

/// A line of whitespace only trims to nothing.
proof fn lemma_trim_start_blank(s: Seq<char>)
    requires
        forall|i: int| 0 <= i < s.len() ==> is_white_space(#[trigger] s[i]),
    ensures
        trim_start(s) == Seq::<char>::empty(),
    decreases s.len(),
{
    if s.len() > 0 {
        let rest = s.drop_first();
        assert(is_white_space(s[0]));
        assert forall|i: int| 0 <= i < rest.len() implies is_white_space(#[trigger] rest[i]) by {
            assert(rest[i] == s[i + 1]);
        }
        lemma_trim_start_blank(rest);
    }
}

/// Trailing whitespace never changes a trimmed line.
pub proof fn lemma_trim_ignores_trailing(line: Seq<char>, tail: Seq<char>)
    requires
        forall|i: int| 0 <= i < tail.len() ==> is_white_space(#[trigger] tail[i]),
    ensures
        spec_trim(line + tail) == spec_trim(line),
{
    if exists|i: int| 0 <= i < line.len() && !is_white_space(#[trigger] line[i]) {
        lemma_trim_start_append(line, tail);
        lemma_trim_end_ignores_trailing(trim_start(line), tail);
    } else {
        lemma_trim_start_blank(line);
        assert forall|i: int| 0 <= i < (line + tail).len() implies is_white_space(#[trigger] (line + tail)[i]) by {
            if i < line.len() {
                assert((line + tail)[i] == line[i]);
            } else {
                assert((line + tail)[i] == tail[i - line.len()]);
            }
        }
        lemma_trim_start_blank(line + tail);
    }
}

/// Files whose lines agree once trimmed get the same hashes: indentation
/// and trailing whitespace never break a match.
pub proof fn lemma_hashes_ignore_surrounding_whitespace(a: Seq<u8>, b: Seq<u8>)
    requires
        raw_lines(a).len() == raw_lines(b).len(),
        forall|i: int|
            0 <= i < raw_lines(a).len() ==> spec_trim(#[trigger] raw_lines(a)[i]) == spec_trim(
                raw_lines(b)[i],
            ),
    ensures
        normalized_hashes(a) == normalized_hashes(b),
{
    assert(normalized_hashes(a) =~= normalized_hashes(b));
}

/// The first `min(len, 8KB)` bytes hold a null byte.
pub open spec fn looks_binary(content: Seq<u8>) -> bool {
    exists|i: int| 0 <= i < content.len() && i < BINARY_CHECK_SIZE && content[i] == 0
}

/// Hash a normalized line using xxh3 (non-cryptographic, very fast).
pub fn hash_line(line: &str) -> (h: u64)
    ensures
        h == line_hash(line@),
{
    xxh3_64(line.as_bytes())
}

/// Check whether content appears to be binary: a null byte among its first
/// 8KB.
pub fn is_binary_content(content: &[u8]) -> (b: bool)
    ensures
        b == looks_binary(content@),
{
    let n = content.len();
    let check_len = if n < BINARY_CHECK_SIZE { n } else { BINARY_CHECK_SIZE };
    let mut i: usize = 0;
    while i < check_len
        invariant
            check_len <= n,
            n == content@.len(),
            check_len <= BINARY_CHECK_SIZE,
            check_len == n || check_len == BINARY_CHECK_SIZE,
            i <= check_len,
            forall|k: int| 0 <= k < i ==> content@[k] != 0,
        decreases check_len - i,
    {
        if content[i] == 0 {
            assert(0 <= i < content@.len() && i < BINARY_CHECK_SIZE && content@[i as int] == 0);
            return true;
        }
        i = i + 1;
    }
    false
}

/// The lines of a file's bytes, with their indentation kept.
/// Non-UTF-8 bytes are handled with lossy conversion.
pub fn content_lines(content: &[u8]) -> (lines: Vec<String>)
    ensures
        lines@.map_values(|s: String| s@) == raw_lines(content@),
{
    let text = utf8_lossy(content);
    str_lines(text.as_str())
}

/// Hash every trimmed line of a file's bytes.
pub fn hash_content(content: &[u8]) -> (hashes: Vec<u64>)
    ensures
        hashes@ == normalized_hashes(content@),
{
    let text = utf8_lossy(content);
    let lines = str_lines(text.as_str());
    let ghost lv = lines@.map_values(|s: String| s@);
    let mut hashes: Vec<u64> = Vec::with_capacity(lines.len());
    let n = lines.len();
    let mut i: usize = 0;
    while i < n
        invariant
            n == lines@.len(),
            lv == lines@.map_values(|s: String| s@),
            lv == spec_lines(file_text(content@)),
            i <= n,
            hashes@ == lv.take(i as int).map_values(|l: Seq<char>| line_hash(spec_trim(l))),
        decreases n - i,
    {
        let h = hash_line(str_trim(lines[i].as_str()));
        hashes.push(h);
        i = i + 1;
        assert(hashes@ =~= lv.take(i as int).map_values(|l: Seq<char>| line_hash(spec_trim(l))));
    }
    assert(lv.take(n as int) =~= lv);
    hashes
}

/// Describe a file from its path and bytes: the hash of every trimmed line
/// and the lines themselves.
pub fn describe_file(filename: String, content: &[u8]) -> (desc: FileDescription)
    ensures
        desc.filename@ == filename@,
        desc.hashes@ == normalized_hashes(content@),
        desc.lines@.map_values(|s: String| s@) == raw_lines(content@),
{
    let hashes = hash_content(content);
    let lines = content_lines(content);
    FileDescription { filename, hashes, lines }
}

/// Describe a file unless it is binary or has no lines.
///
/// Returns None when a null byte occurs in the first 8KB, or when the file
/// has no lines.
pub fn describe_text_file(filename: String, content: &[u8]) -> (desc: Option<FileDescription>)
    ensures
        desc is None <==> (looks_binary(content@) || normalized_hashes(content@).len() == 0),
        desc matches Some(d) ==> {
            &&& d.filename@ == filename@
            &&& d.hashes@ == normalized_hashes(content@)
            &&& d.lines@.map_values(|s: String| s@) == raw_lines(content@)
        },
{
    if is_binary_content(content) {
        return None;
    }
    let desc = describe_file(filename, content);
    if desc.hashes.len() == 0 {
        return None;
    }
    Some(desc)
}

} // verus!
