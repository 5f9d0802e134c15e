//! File discovery rules: default exclusions for vendored, generated and
//! build output, test-path detection, and the content-level skip heuristics
//! for generated and minified files. The filesystem walk itself lives with
//! the program; these are the decisions it applies.

use crate::lang::{Lang, spec_from_path};
use crate::lines::{line_spans, lines};
use crate::text::{
    after_last, after_last_index, ascii_lower, bytes_eq, contains, contains_bytes, ends_with,
    ends_with_bytes, has_segment, is_segment, lemma_after_last_sep, lemma_lower_around, occurs_at,
    starts_with, starts_with_bytes, to_ascii_lower, utf8_str,
};
use std::path::PathBuf;
use vstd::prelude::*;
use vstd::string::StringSliceAdditionalSpecFns;
use vstd::utf8::{encode_utf8, valid_utf8};

verus! {

#[verifier::external_type_specification]
#[verifier::external_body]
pub struct ExPathBuf(std::path::PathBuf);


pub const SLASH: u8 = 47;

/// Directories that are never worth scanning even when not gitignored.
pub const DEFAULT_EXCLUDE_DIRS: [&'static str; 13] = [
    "node_modules",
    "vendor",
    "third_party",
    "dist",
    "build",
    "out",
    "target",
    ".next",
    ".nuxt",
    ".venv",
    "venv",
    "__pycache__",
    ".git",
];

/// File patterns that are generated artifacts, not human/agent-written code.
pub const DEFAULT_EXCLUDE_GLOBS: [&'static str; 11] = [
    "*.min.js",
    "*.min.mjs",
    "*.bundle.js",
    "*.pb.go",
    "*_pb2.py",
    "*_pb2.pyi",
    "*_pb2_grpc.py",
    "*.generated.*",
    "*.gen.go",
    "*.gen.ts",
    "*.d.ts",
];

/// A source file found by the walk.
pub struct DiscoveredFile {
    pub path: PathBuf,
    /// Path relative to the scan root, with forward slashes (for display).
    pub rel: String,
    pub lang: Lang,
    pub is_test: bool,
}

/// The file name: what follows the last `/`.
pub open spec fn file_part(lower: Seq<u8>) -> Seq<u8> {
    after_last(lower, SLASH)
}

/// Some `/`-separated part of the lowercased path is a default-excluded
/// directory name.
pub open spec fn has_excluded_dir(lower: Seq<u8>) -> bool {
    exists|k: int| 0 <= k < 13 && is_segment(lower, #[trigger] DEFAULT_EXCLUDE_DIRS[k].spec_bytes(), SLASH)
}

/// The file name marks a generated artifact.
pub open spec fn is_generated_name(file: Seq<u8>) -> bool {
    ||| ends_with(file, ".min.js".spec_bytes())
    ||| ends_with(file, ".min.mjs".spec_bytes())
    ||| ends_with(file, ".bundle.js".spec_bytes())
    ||| ends_with(file, ".pb.go".spec_bytes())
    ||| ends_with(file, "_pb2.py".spec_bytes())
    ||| ends_with(file, "_pb2.pyi".spec_bytes())
    ||| ends_with(file, "_pb2_grpc.py".spec_bytes())
    ||| ends_with(file, ".gen.go".spec_bytes())
    ||| ends_with(file, ".gen.ts".spec_bytes())
    ||| ends_with(file, ".d.ts".spec_bytes())
    ||| contains(file, ".generated.".spec_bytes())
}

pub open spec fn spec_default_excluded(rel: Seq<u8>) -> bool {
    let lower = ascii_lower(rel);
    has_excluded_dir(lower) || is_generated_name(file_part(lower))
}

/// The (lowercased) file name follows a test-file naming convention.
pub open spec fn is_test_file_name(file: Seq<u8>) -> bool {
    ||| ends_with(file, "_test.go".spec_bytes())
    ||| ends_with(file, "_test.py".spec_bytes())
    ||| ends_with(file, "_test.rs".spec_bytes())
    ||| file == "tests.rs".spec_bytes()
    ||| file == "test.rs".spec_bytes()
    ||| starts_with(file, "test_".spec_bytes())
    ||| contains(file, ".test.".spec_bytes())
    ||| contains(file, ".spec.".spec_bytes())
    ||| ends_with(file, "test.java".spec_bytes())
    ||| ends_with(file, "tests.java".spec_bytes())
    ||| starts_with(file, "conftest.".spec_bytes())
    ||| ends_with(file, "_spec.rb".spec_bytes())
    ||| ends_with(file, "_test.rb".spec_bytes())
    ||| ends_with(file, "tests.swift".spec_bytes())
    ||| ends_with(file, "test.swift".spec_bytes())
    ||| ends_with(file, "spec.swift".spec_bytes())
    ||| ends_with(file, "test.php".spec_bytes())
    ||| ends_with(file, "tests.php".spec_bytes())
    ||| ends_with(file, "test.kt".spec_bytes())
    ||| ends_with(file, "tests.kt".spec_bytes())
}

/// Some directory (or the file) of the lowercased path is a test directory.
pub open spec fn has_test_dir(lower: Seq<u8>) -> bool {
    ||| is_segment(lower, "tests".spec_bytes(), SLASH)
    ||| is_segment(lower, "test".spec_bytes(), SLASH)
    ||| is_segment(lower, "__tests__".spec_bytes(), SLASH)
    ||| is_segment(lower, "testdata".spec_bytes(), SLASH)
    ||| is_segment(lower, "spec".spec_bytes(), SLASH)
}

pub open spec fn spec_is_test_path(rel: Seq<u8>) -> bool {
    let lower = ascii_lower(rel);
    is_test_file_name(file_part(lower)) || has_test_dir(lower)
}

fn is_generated_file_name(file: &[u8]) -> (r: bool)
    ensures
        r == is_generated_name(file@),
{
    ends_with_bytes(file, ".min.js".as_bytes()) || ends_with_bytes(file, ".min.mjs".as_bytes())
        || ends_with_bytes(file, ".bundle.js".as_bytes()) || ends_with_bytes(
        file,
        ".pb.go".as_bytes(),
    ) || ends_with_bytes(file, "_pb2.py".as_bytes()) || ends_with_bytes(
        file,
        "_pb2.pyi".as_bytes(),
    ) || ends_with_bytes(file, "_pb2_grpc.py".as_bytes()) || ends_with_bytes(
        file,
        ".gen.go".as_bytes(),
    ) || ends_with_bytes(file, ".gen.ts".as_bytes()) || ends_with_bytes(
        file,
        ".d.ts".as_bytes(),
    ) || contains_bytes(file, ".generated.".as_bytes())
}

/// Path-rule mirror of the walker's default overrides, for paths that do
/// not come from the filesystem walk: true when some directory of `rel` is
/// a default-excluded one, or the file name marks a generated artifact.
pub fn default_excluded(rel: &str) -> (r: bool)
    ensures
        r == spec_default_excluded(rel.spec_bytes()),
{
    let lower = to_ascii_lower(rel.as_bytes());
    let mut k: usize = 0;
    while k < 13
        invariant
            lower@ == ascii_lower(rel.spec_bytes()),
            k <= 13,
            forall|j: int|
                0 <= j < k ==> !is_segment(lower@, #[trigger] DEFAULT_EXCLUDE_DIRS[j].spec_bytes(), SLASH),
        decreases 13 - k,
    {
        if has_segment(lower.as_slice(), DEFAULT_EXCLUDE_DIRS[k].as_bytes(), SLASH) {
            return true;
        }
        k += 1;
    }
    let start = after_last_index(lower.as_slice(), SLASH);
    let file = slice_from(lower.as_slice(), start);
    is_generated_file_name(file)
}

fn is_test_file(file: &[u8]) -> (r: bool)
    ensures
        r == is_test_file_name(file@),
{
    ends_with_bytes(file, "_test.go".as_bytes()) || ends_with_bytes(file, "_test.py".as_bytes())
        || ends_with_bytes(file, "_test.rs".as_bytes()) || bytes_eq(file, "tests.rs".as_bytes())
        || bytes_eq(file, "test.rs".as_bytes()) || starts_with_bytes(file, "test_".as_bytes())
        || contains_bytes(file, ".test.".as_bytes()) || contains_bytes(file, ".spec.".as_bytes())
        || ends_with_bytes(file, "test.java".as_bytes()) || ends_with_bytes(
        file,
        "tests.java".as_bytes(),
    ) || starts_with_bytes(file, "conftest.".as_bytes()) || ends_with_bytes(
        file,
        "_spec.rb".as_bytes(),
    ) || ends_with_bytes(file, "_test.rb".as_bytes()) || ends_with_bytes(
        file,
        "tests.swift".as_bytes(),
    ) || ends_with_bytes(file, "test.swift".as_bytes()) || ends_with_bytes(
        file,
        "spec.swift".as_bytes(),
    ) || ends_with_bytes(file, "test.php".as_bytes()) || ends_with_bytes(
        file,
        "tests.php".as_bytes(),
    ) || ends_with_bytes(file, "test.kt".as_bytes()) || ends_with_bytes(
        file,
        "tests.kt".as_bytes(),
    )
}

/// Test files are scanned but kept out of the slop score by default: the
/// lowercased file name follows a test naming convention, or some part of
/// the path is a test directory.
pub fn is_test_path(rel: &str) -> (r: bool)
    ensures
        r == spec_is_test_path(rel.spec_bytes()),
{
    let lower = to_ascii_lower(rel.as_bytes());
    let start = after_last_index(lower.as_slice(), SLASH);
    let file = slice_from(lower.as_slice(), start);
    if is_test_file(file) {
        return true;
    }
    let l = lower.as_slice();
    has_segment(l, "tests".as_bytes(), SLASH) || has_segment(l, "test".as_bytes(), SLASH)
        || has_segment(l, "__tests__".as_bytes(), SLASH) || has_segment(
        l,
        "testdata".as_bytes(),
        SLASH,
    ) || has_segment(l, "spec".as_bytes(), SLASH)
}

/// The first `n` lines joined with `\n`.
pub open spec fn join_lines(ls: Seq<Seq<u8>>) -> Seq<u8>
    decreases ls.len(),
{
    if ls.len() == 0 {
        Seq::empty()
    } else if ls.len() == 1 {
        ls[0]
    } else {
        join_lines(ls.drop_last()) + seq![crate::lines::NEWLINE] + ls.last()
    }
}

/// Sum of the line lengths.
pub open spec fn total_len(ls: Seq<Seq<u8>>) -> nat
    decreases ls.len(),
{
    if ls.len() == 0 {
        0
    } else {
        ls[0].len() + total_len(ls.drop_first())
    }
}

proof fn lemma_lines_total_len(s: Seq<u8>)
    ensures
        total_len(lines(s)) <= s.len(),
    decreases s.len(),
{
    if s.len() > 0 {
        let k = crate::lines::first_newline(s);
        crate::lines::lemma_first_newline_range(s);
        let ls = lines(s);
        if k >= 0 {
            let rest = s.subrange(k + 1, s.len() as int);
            lemma_lines_total_len(rest);
            assert(ls.drop_first() =~= lines(rest));
            assert(ls[0].len() <= k);
            assert(total_len(ls) == ls[0].len() + total_len(lines(rest)));
        } else {
            assert(ls.drop_first() =~= Seq::<Seq<u8>>::empty());
            assert(total_len(ls.drop_first()) == 0);
            assert(total_len(ls) == ls[0].len());
        }
    }
}

/// The first ten lines carry a generated-file marker.
pub open spec fn first_ten(ls: Seq<Seq<u8>>) -> Seq<Seq<u8>> {
    if ls.len() <= 10 {
        ls
    } else {
        ls.take(10)
    }
}

pub open spec fn has_generated_marker(content: Seq<u8>) -> bool {
    let head = ascii_lower(join_lines(first_ten(lines(content))));
    ||| contains(head, "@generated".spec_bytes())
    ||| contains(head, "do not edit".spec_bytes())
    ||| contains(head, "auto-generated".spec_bytes())
    ||| contains(head, "autogenerated".spec_bytes())
    ||| contains(head, "code generated by".spec_bytes())
}

/// Some line is enormous, or the average line is long.
pub open spec fn looks_minified(content: Seq<u8>) -> bool {
    let ls = lines(content);
    (exists|i: int| 0 <= i < ls.len() && #[trigger] ls[i].len() > 2000) || (ls.len() > 0
        && total_len(ls) / ls.len() > 300)
}

pub open spec fn spec_content_skip_reason(content: Seq<u8>) -> Option<&'static str> {
    if has_generated_marker(content) {
        Some("generated")
    } else if looks_minified(content) {
        Some("minified")
    } else {
        None
    }
}

/// `s[start..]`.
pub fn slice_from(s: &[u8], start: usize) -> (r: &[u8])
    requires
        start <= s@.len(),
    ensures
        r@ == s@.subrange(start as int, s@.len() as int),
{
    slice_range(s, start, s.len())
}

/// `s[start..end]`.
pub fn slice_range(s: &[u8], start: usize, end: usize) -> (r: &[u8])
    requires
        start <= end <= s@.len(),
    ensures
        r@ == s@.subrange(start as int, end as int),
{
    vstd::slice::slice_subrange(s, start, end)
}

/// Content-level reasons to skip a file that passed path filtering:
/// "generated" when one of the first ten lines carries a generated-file
/// marker, else "minified" when some line is over 2000 bytes or the average
/// line length is over 300 bytes.
pub fn content_skip_reason(content: &str) -> (r: Option<&'static str>)
    ensures
        r == spec_content_skip_reason(content.spec_bytes()),
{
    let bytes = content.as_bytes();
    let spans = line_spans(bytes);
    let ghost ls = lines(bytes@);
    // Generated-file markers conventionally appear near the top.
    let n = if spans.len() < 10 {
        spans.len()
    } else {
        10
    };
    let mut head: Vec<u8> = Vec::new();
    let mut i: usize = 0;
    while i < n
        invariant
            n <= spans@.len(),
            n == first_ten(ls).len(),
            i <= n,
            ls == lines(bytes@),
            spans@.len() == ls.len(),
            forall|j: int|
                #![trigger spans@[j]]
                0 <= j < spans@.len() ==> spans@[j].0 <= spans@[j].1 <= bytes@.len() && ls[j]
                    == bytes@.subrange(spans@[j].0 as int, spans@[j].1 as int),
            head@ == join_lines(ls.take(i as int)),
        decreases n - i,
    {
        let (a, b) = spans[i];
        let line = slice_range(bytes, a, b);
        if i > 0 {
            head.push(crate::lines::NEWLINE);
        }
        let mut k: usize = 0;
        let ghost before = head@;
        while k < line.len()
            invariant
                k <= line@.len(),
                head@ == before + line@.subrange(0, k as int),
            decreases line@.len() - k,
        {
            head.push(line[k]);
            assert(before + line@.subrange(0, k + 1) =~= (before + line@.subrange(0, k as int)).push(line@[k as int]));
            k += 1;
        }
        proof {
            assert(line@.subrange(0, line@.len() as int) =~= line@);
            let t = ls.take(i + 1);
            assert(t.drop_last() =~= ls.take(i as int));
            assert(t.last() == ls[i as int]);
            if i == 0 {
                assert(before =~= Seq::<u8>::empty());
                assert(head@ =~= join_lines(t));
            } else {
                assert(head@ =~= join_lines(t));
            }
        }
        i += 1;
    }
    proof {
        assert(ls.take(n as int) =~= first_ten(ls));
    }
    let lower = to_ascii_lower(head.as_slice());
    let h = lower.as_slice();
    if contains_bytes(h, "@generated".as_bytes()) || contains_bytes(h, "do not edit".as_bytes())
        || contains_bytes(h, "auto-generated".as_bytes()) || contains_bytes(
        h,
        "autogenerated".as_bytes(),
    ) || contains_bytes(h, "code generated by".as_bytes()) {
        return Some("generated");
    }
    // Minified: any enormous line, or a high average line length.
    proof {
        lemma_lines_total_len(bytes@);
        assert(ls.skip(0) =~= ls);
    }
    let mut total: usize = 0;
    let mut j: usize = 0;
    while j < spans.len()
        invariant
            j <= spans@.len(),
            ls == lines(bytes@),
            spans@.len() == ls.len(),
            forall|x: int|
                #![trigger spans@[x]]
                0 <= x < spans@.len() ==> spans@[x].0 <= spans@[x].1 <= bytes@.len() && ls[x]
                    == bytes@.subrange(spans@[x].0 as int, spans@[x].1 as int),
            total + total_len(ls.skip(j as int)) == total_len(ls),
            !has_generated_marker(bytes@),
            bytes@ == content.spec_bytes(),
            bytes@.len() == bytes.len(),
            total_len(ls) <= bytes@.len(),
            forall|x: int| 0 <= x < j ==> #[trigger] ls[x].len() <= 2000,
        decreases spans@.len() - j,
    {
        let (a, b) = spans[j];
        if b - a > 2000 {
            assert(ls[j as int].len() > 2000);
            return Some("minified");
        }
        proof {
            let t = ls.skip(j as int);
            assert(t.drop_first() =~= ls.skip(j + 1));
            assert(t[0] == ls[j as int]);
            assert(ls[j as int].len() == b - a);
            assert(total_len(t) == t[0].len() + total_len(t.drop_first()));
        }
        total += b - a;
        j += 1;
    }
    proof {
        assert(ls.skip(ls.len() as int) =~= Seq::<Seq<u8>>::empty());
    }
    if spans.len() > 0 && total / spans.len() > 300 {
        return Some("minified");
    }
    None
}

/// The path rules ignore ASCII case: a path and its lowercase are judged
/// alike, as test code and as excluded.
pub proof fn law_path_rules_ignore_case(rel: Seq<u8>)
    ensures
        spec_is_test_path(ascii_lower(rel)) == spec_is_test_path(rel),
        spec_default_excluded(ascii_lower(rel)) == spec_default_excluded(rel),
{
    assert(ascii_lower(ascii_lower(rel)) =~= ascii_lower(rel));
}

/// What the walk keeps of a file it finds at `path` (`rel` relative to the
/// scan root): nothing unless its language is supported; else the file
/// with its language and whether it is test code.
pub fn discovered_file(path: PathBuf, rel: String) -> (r: Option<DiscoveredFile>)
    ensures
        match r {
            Some(f) => {
                &&& spec_from_path(encode_utf8(rel@)) == Some(f.lang)
                &&& f.is_test == spec_is_test_path(encode_utf8(rel@))
                &&& f.path == path
                &&& f.rel == rel
            },
            None => spec_from_path(encode_utf8(rel@)) is None,
        },
{
    let lang = match Lang::from_path(rel.as_str()) {
        Some(lang) => lang,
        None => return None,
    };
    let is_test = is_test_path(rel.as_str());
    Some(DiscoveredFile { path, rel, lang, is_test })
}

/// The path rules see only the lowercase: two paths that differ only in
/// ASCII case (say, one upper-cased) are judged alike.
pub proof fn law_path_rules_see_only_lowercase(a: Seq<u8>, b: Seq<u8>)
    requires
        ascii_lower(a) == ascii_lower(b),
    ensures
        spec_is_test_path(a) == spec_is_test_path(b),
        spec_default_excluded(a) == spec_default_excluded(b),
{
}

/// `d`, written `written` in any ASCII case, is a whole directory of
/// `p + written + "/" + rest` when `p` is empty or ends with `/`.
proof fn lemma_dir_segment(p: Seq<u8>, written: Seq<u8>, d: Seq<u8>, rest: Seq<u8>)
    requires
        ascii_lower(written) == d,
        p.len() == 0 || p.last() == SLASH,
    ensures
        is_segment(ascii_lower(p + written + seq![SLASH] + rest), d, SLASH),
{
    let path = p + written + seq![SLASH] + rest;
    let lower = ascii_lower(path);
    let i = p.len() as int;
    assert(lower.subrange(i, i + d.len()) =~= d) by {
        assert forall|k: int| 0 <= k < d.len() implies lower.subrange(i, i + d.len())[k] == d[k] by {
            assert(path[i + k] == written[k]);
        }
    }
    assert(occurs_at(lower, d, i));
    if i > 0 {
        assert(path[i - 1] == p.last());
    }
    assert(path[i + d.len()] == SLASH);
}

/// A test directory at any depth marks everything below it as test code,
/// whatever its ASCII case.
pub proof fn law_test_dir_at_any_depth(p: Seq<u8>, written: Seq<u8>, rest: Seq<u8>)
    requires
        p.len() == 0 || p.last() == SLASH,
        ascii_lower(written) == "tests".spec_bytes() || ascii_lower(written) == "test".spec_bytes()
            || ascii_lower(written) == "__tests__".spec_bytes() || ascii_lower(written)
            == "testdata".spec_bytes() || ascii_lower(written) == "spec".spec_bytes(),
    ensures
        spec_is_test_path(p + written + seq![SLASH] + rest),
{
    lemma_dir_segment(p, written, ascii_lower(written), rest);
}

/// A default-excluded directory at any depth excludes everything below it,
/// whatever its ASCII case.
pub proof fn law_excluded_dir_at_any_depth(p: Seq<u8>, k: int, written: Seq<u8>, rest: Seq<u8>)
    requires
        p.len() == 0 || p.last() == SLASH,
        0 <= k < 13,
        ascii_lower(written) == DEFAULT_EXCLUDE_DIRS[k].spec_bytes(),
    ensures
        spec_default_excluded(p + written + seq![SLASH] + rest),
{
    lemma_dir_segment(p, written, ascii_lower(written), rest);
    assert(has_excluded_dir(ascii_lower(p + written + seq![SLASH] + rest)));
}

/// Byte-lexicographic order: the order of `str` and `String`.
pub open spec fn bytes_lt(a: Seq<u8>, b: Seq<u8>) -> bool
    decreases a.len(),
{
    if a.len() == 0 {
        b.len() > 0
    } else if b.len() == 0 {
        false
    } else if a[0] != b[0] {
        a[0] < b[0]
    } else {
        bytes_lt(a.drop_first(), b.drop_first())
    }
}

proof fn lemma_bytes_lt_irreflexive(a: Seq<u8>)
    ensures
        !bytes_lt(a, a),
    decreases a.len(),
{
    if a.len() > 0 {
        lemma_bytes_lt_irreflexive(a.drop_first());
    }
}

proof fn lemma_bytes_lt_transitive(a: Seq<u8>, b: Seq<u8>, c: Seq<u8>)
    requires
        bytes_lt(a, b),
        bytes_lt(b, c),
    ensures
        bytes_lt(a, c),
    decreases a.len(),
{
    if a.len() > 0 && b.len() > 0 && c.len() > 0 && a[0] == b[0] && b[0] == c[0] {
        lemma_bytes_lt_transitive(a.drop_first(), b.drop_first(), c.drop_first());
    }
}

proof fn lemma_bytes_lt_total(a: Seq<u8>, b: Seq<u8>)
    requires
        a != b,
    ensures
        bytes_lt(a, b) || bytes_lt(b, a),
    decreases a.len(),
{
    if a.len() > 0 && b.len() > 0 && a[0] == b[0] {
        assert(a.drop_first() != b.drop_first()) by {
            if a.drop_first() == b.drop_first() {
                assert(a.drop_first().len() == a.len() - 1);
                assert(b.drop_first().len() == b.len() - 1);
                assert forall|k: int| 0 <= k < a.len() implies a[k] == b[k] by {
                    if k > 0 {
                        assert(a[k] == a.drop_first()[k - 1]);
                        assert(b[k] == b.drop_first()[k - 1]);
                    }
                }
                assert(a =~= b);
            }
        }
        lemma_bytes_lt_total(a.drop_first(), b.drop_first());
    } else if a.len() == 0 && b.len() == 0 {
        assert(a =~= b);
    }
}

/// The bytes of a file's relative path, by which discovery orders files.
pub open spec fn rel_key(f: DiscoveredFile) -> Seq<u8> {
    encode_utf8(f.rel@)
}

/// File `i` of `files` comes before file `j`: its relative path is smaller
/// byte by byte, or the same and it was found first.
pub open spec fn rel_precedes(files: Seq<DiscoveredFile>, i: int, j: int) -> bool {
    ||| bytes_lt(rel_key(files[i]), rel_key(files[j]))
    ||| rel_key(files[i]) == rel_key(files[j]) && i < j
}

/// `order` lists positions of `files`, each strictly before the next by
/// relative path.
pub open spec fn in_rel_order(files: Seq<DiscoveredFile>, order: Seq<usize>) -> bool {
    forall|a: int, b: int|
        0 <= a < b < order.len() ==> rel_precedes(files, #[trigger] order[a] as int, #[trigger] order[b] as int)
}

proof fn lemma_precedes_transitive(files: Seq<DiscoveredFile>, i: int, j: int, k: int)
    requires
        rel_precedes(files, i, j),
        rel_precedes(files, j, k),
    ensures
        rel_precedes(files, i, k),
{
    let (a, b, c) = (rel_key(files[i]), rel_key(files[j]), rel_key(files[k]));
    if bytes_lt(a, b) && bytes_lt(b, c) {
        lemma_bytes_lt_transitive(a, b, c);
    }
}

proof fn lemma_precedes_total(files: Seq<DiscoveredFile>, i: int, j: int)
    requires
        i != j,
    ensures
        rel_precedes(files, i, j) || rel_precedes(files, j, i),
{
    if rel_key(files[i]) != rel_key(files[j]) {
        lemma_bytes_lt_total(rel_key(files[i]), rel_key(files[j]));
    }
}

fn bytes_lt_exec(a: &[u8], b: &[u8]) -> (r: bool)
    ensures
        r == bytes_lt(a@, b@),
{
    let mut k: usize = 0;
    assert(a@.skip(0) =~= a@ && b@.skip(0) =~= b@);
    while k < a.len() && k < b.len() && a[k] == b[k]
        invariant
            k <= a@.len(),
            k <= b@.len(),
            bytes_lt(a@, b@) == bytes_lt(a@.skip(k as int), b@.skip(k as int)),
        decreases a@.len() - k,
    {
        assert(a@.skip(k as int).drop_first() =~= a@.skip(k + 1));
        assert(b@.skip(k as int).drop_first() =~= b@.skip(k + 1));
        k += 1;
    }
    if k == a.len() {
        k < b.len()
    } else if k == b.len() {
        false
    } else {
        a[k] < b[k]
    }
}

fn precedes_exec(files: &Vec<DiscoveredFile>, i: usize, j: usize) -> (r: bool)
    requires
        i < files@.len(),
        j < files@.len(),
    ensures
        r == rel_precedes(files@, i as int, j as int),
{
    let a = files[i].rel.as_str().as_bytes();
    let b = files[j].rel.as_str().as_bytes();
    if bytes_lt_exec(a, b) {
        true
    } else if bytes_lt_exec(b, a) {
        proof {
            lemma_bytes_lt_irreflexive(a@);
        }
        false
    } else {
        proof {
            if a@ != b@ {
                lemma_bytes_lt_total(a@, b@);
            }
        }
        i < j
    }
}

fn merge_by_rel(files: &Vec<DiscoveredFile>, left: &Vec<usize>, right: &Vec<usize>, lo: usize, mid: usize, hi: usize) -> (r: Vec<usize>)
    requires
        lo <= mid <= hi <= files@.len(),
        left@.len() == mid - lo,
        right@.len() == hi - mid,
        forall|k: int| 0 <= k < left@.len() ==> lo <= #[trigger] left@[k] < mid,
        forall|k: int| 0 <= k < right@.len() ==> mid <= #[trigger] right@[k] < hi,
        in_rel_order(files@, left@),
        in_rel_order(files@, right@),
    ensures
        r@.len() == hi - lo,
        forall|k: int| 0 <= k < r@.len() ==> lo <= #[trigger] r@[k] < hi,
        in_rel_order(files@, r@),
{
    let mut out: Vec<usize> = Vec::new();
    let mut i: usize = 0;
    let mut j: usize = 0;
    while i < left.len() || j < right.len()
        invariant
            lo <= mid <= hi <= files@.len(),
            left@.len() == mid - lo,
            right@.len() == hi - mid,
            forall|k: int| 0 <= k < left@.len() ==> lo <= #[trigger] left@[k] < mid,
            forall|k: int| 0 <= k < right@.len() ==> mid <= #[trigger] right@[k] < hi,
            in_rel_order(files@, left@),
            in_rel_order(files@, right@),
            i <= left@.len(),
            j <= right@.len(),
            out@.len() == i + j,
            forall|k: int| 0 <= k < out@.len() ==> lo <= #[trigger] out@[k] < hi,
            in_rel_order(files@, out@),
            out@.len() > 0 && i < left@.len() ==> rel_precedes(files@, out@.last() as int, left@[i as int] as int),
            out@.len() > 0 && j < right@.len() ==> rel_precedes(files@, out@.last() as int, right@[j as int] as int),
        decreases left@.len() + right@.len() - i - j,
    {
        let take_left = if i == left.len() {
            false
        } else if j == right.len() {
            true
        } else {
            precedes_exec(files, left[i], right[j])
        };
        let x = if take_left {
            left[i]
        } else {
            right[j]
        };
        proof {
            if !take_left && i < left@.len() {
                lemma_precedes_total(files@, left@[i as int] as int, right@[j as int] as int);
            }
            if take_left && i + 1 < left@.len() {
                assert(rel_precedes(files@, left@[i as int] as int, left@[i + 1] as int));
            }
            if !take_left && j + 1 < right@.len() {
                assert(rel_precedes(files@, right@[j as int] as int, right@[j + 1] as int));
            }
            assert forall|a: int| 0 <= a < out@.len() implies rel_precedes(files@, out@[a] as int, x as int) by {
                if a < out@.len() - 1 {
                    assert(rel_precedes(files@, out@[a] as int, out@[out@.len() - 1] as int));
                    lemma_precedes_transitive(files@, out@[a] as int, out@.last() as int, x as int);
                }
            }
        }
        let ghost before = out@;
        out.push(x);
        proof {
            assert forall|a: int, b: int| 0 <= a < b < out@.len() implies rel_precedes(
                files@,
                #[trigger] out@[a] as int,
                #[trigger] out@[b] as int,
            ) by {
                if b < before.len() {
                    assert(out@[a] == before[a] && out@[b] == before[b]);
                } else {
                    assert(out@[a] == before[a]);
                }
            }
        }
        if take_left {
            i += 1;
        } else {
            j += 1;
        }
    }
    out
}

fn sort_range_by_rel(files: &Vec<DiscoveredFile>, lo: usize, hi: usize) -> (r: Vec<usize>)
    requires
        lo <= hi <= files@.len(),
    ensures
        r@.len() == hi - lo,
        forall|k: int| 0 <= k < r@.len() ==> lo <= #[trigger] r@[k] < hi,
        in_rel_order(files@, r@),
    decreases hi - lo,
{
    if hi - lo <= 1 {
        let mut r: Vec<usize> = Vec::new();
        if lo < hi {
            r.push(lo);
        }
        return r;
    }
    let mid = lo + (hi - lo) / 2;
    let left = sort_range_by_rel(files, lo, mid);
    let right = sort_range_by_rel(files, mid, hi);
    merge_by_rel(files, &left, &right, lo, mid, hi)
}

/// The order in which discovery lists what it found: the positions of
/// `files`, by relative path compared byte by byte (the order of `String`),
/// a tie kept in the order found. No position is listed twice, and there
/// are as many as files, so each is listed exactly once.
pub fn discovery_order(files: &Vec<DiscoveredFile>) -> (order: Vec<usize>)
    ensures
        order@.len() == files@.len(),
        forall|k: int| 0 <= k < order@.len() ==> #[trigger] order@[k] < files@.len(),
        in_rel_order(files@, order@),
        forall|a: int, b: int| 0 <= a < b < order@.len() ==> #[trigger] order@[a] != #[trigger] order@[b],
{
    let order = sort_range_by_rel(files, 0, files.len());
    proof {
        assert forall|a: int, b: int| 0 <= a < b < order@.len() implies #[trigger] order@[a]
            != #[trigger] order@[b] by {
            assert(rel_precedes(files@, order@[a] as int, order@[b] as int));
            lemma_bytes_lt_irreflexive(rel_key(files@[order@[a] as int]));
        }
    }
    order
}

/// The reason given for a file whose bytes are not UTF-8.
pub const NON_UTF8: &'static str = "non-utf8";

/// What a file's bytes give the analysis: their text when they are UTF-8
/// and pass the content rules, else why the file takes no part:
/// `NON_UTF8`, or the content rule's reason (`generated`, `minified`).
pub fn source_text(bytes: &[u8]) -> (r: Result<String, &'static str>)
    ensures
        r is Ok <==> valid_utf8(bytes@) && spec_content_skip_reason(bytes@) is None,
        r matches Ok(text) ==> encode_utf8(text@) == bytes@,
        r matches Err(reason) ==> reason == if valid_utf8(bytes@) {
            spec_content_skip_reason(bytes@).unwrap()
        } else {
            NON_UTF8
        },
{
    match utf8_str(bytes) {
        None => Err(NON_UTF8),
        Some(text) => match content_skip_reason(text) {
            Some(reason) => Err(reason),
            None => Ok(text.to_owned()),
        },
    }
}

/// Where line `k` sits in the lines joined with newlines.
proof fn lemma_join_holds_line(ls: Seq<Seq<u8>>, k: int) -> (off: int)
    requires
        0 <= k < ls.len(),
    ensures
        0 <= off,
        off + ls[k].len() <= join_lines(ls).len(),
        join_lines(ls).subrange(off, off + ls[k].len()) == ls[k],
    decreases ls.len(),
{
    if ls.len() == 1 {
        assert(join_lines(ls).subrange(0, ls[k].len() as int) =~= ls[k]);
        0
    } else {
        let front = join_lines(ls.drop_last());
        let j = join_lines(ls);
        assert(j == front + seq![crate::lines::NEWLINE] + ls.last());
        if k == ls.len() - 1 {
            let off: int = front.len() as int + 1;
            assert(j.subrange(off, off + ls[k].len()) =~= ls[k]);
            off
        } else {
            let off = lemma_join_holds_line(ls.drop_last(), k);
            assert(ls.drop_last()[k] == ls[k]);
            assert(j.subrange(off, off + ls[k].len()) =~= front.subrange(off, off + ls[k].len()));
            off
        }
    }
}

/// A marker found in a stretch of a text, after lowercasing, is found in
/// the lowercased text.
proof fn lemma_lower_contains_part(big: Seq<u8>, off: int, part: Seq<u8>, m: Seq<u8>)
    requires
        0 <= off,
        off + part.len() <= big.len(),
        big.subrange(off, off + part.len()) == part,
        contains(ascii_lower(part), m),
    ensures
        contains(ascii_lower(big), m),
{
    let i = choose|i: int| occurs_at(ascii_lower(part), m, i);
    assert(ascii_lower(big).subrange(off + i, off + i + m.len()) =~= ascii_lower(part).subrange(
        i,
        i + m.len(),
    )) by {
        assert forall|q: int| 0 <= q < m.len() implies #[trigger] ascii_lower(big).subrange(
            off + i,
            off + i + m.len(),
        )[q] == ascii_lower(part).subrange(i, i + m.len())[q] by {
            assert(big[off + i + q] == big.subrange(off, off + part.len())[i + q]);
        }
    }
    assert(occurs_at(ascii_lower(big), m, off + i));
}

/// A generated-code marker on any of the first ten lines, in any ASCII
/// case, marks the file as generated: "@generated", "do not edit",
/// "auto-generated", "autogenerated", "code generated by".
pub proof fn law_generated_markers(content: Seq<u8>, k: int)
    requires
        0 <= k < 10,
        k < lines(content).len(),
    ensures
        ({
            let line = lines(content)[k];
            contains(ascii_lower(line), "@generated".spec_bytes()) || contains(
                ascii_lower(line),
                "do not edit".spec_bytes(),
            ) || contains(ascii_lower(line), "auto-generated".spec_bytes()) || contains(
                ascii_lower(line),
                "autogenerated".spec_bytes(),
            ) || contains(ascii_lower(line), "code generated by".spec_bytes())
        }) ==> spec_content_skip_reason(content) == Some("generated"),
{
    let ls = lines(content);
    let head = first_ten(ls);
    assert(head[k] == ls[k]);
    let off = lemma_join_holds_line(head, k);
    let big = join_lines(head);
    let line = ls[k];
    if contains(ascii_lower(line), "@generated".spec_bytes()) {
        lemma_lower_contains_part(big, off, line, "@generated".spec_bytes());
    }
    if contains(ascii_lower(line), "do not edit".spec_bytes()) {
        lemma_lower_contains_part(big, off, line, "do not edit".spec_bytes());
    }
    if contains(ascii_lower(line), "auto-generated".spec_bytes()) {
        lemma_lower_contains_part(big, off, line, "auto-generated".spec_bytes());
    }
    if contains(ascii_lower(line), "autogenerated".spec_bytes()) {
        lemma_lower_contains_part(big, off, line, "autogenerated".spec_bytes());
    }
    if contains(ascii_lower(line), "code generated by".spec_bytes()) {
        lemma_lower_contains_part(big, off, line, "code generated by".spec_bytes());
    }
}

/// A file whose name, in any ASCII case, follows a test naming convention
/// (`*_test.go`, `*_test.py`, `test_*`, `*.spec.*`, `conftest.*`,
/// `*Test.java`, ...) is test code, in any directory or in none.
pub proof fn law_test_file_names(dir: Seq<u8>, name: Seq<u8>)
    requires
        forall|i: int| 0 <= i < name.len() ==> name[i] != SLASH,
    ensures
        ({
            let ln = ascii_lower(name);
            ||| ends_with(ln, "_test.go".spec_bytes())
            ||| ends_with(ln, "_test.py".spec_bytes())
            ||| ends_with(ln, "_test.rs".spec_bytes())
            ||| ln == "tests.rs".spec_bytes()
            ||| ln == "test.rs".spec_bytes()
            ||| starts_with(ln, "test_".spec_bytes())
            ||| contains(ln, ".test.".spec_bytes())
            ||| contains(ln, ".spec.".spec_bytes())
            ||| ends_with(ln, "test.java".spec_bytes())
            ||| ends_with(ln, "tests.java".spec_bytes())
            ||| starts_with(ln, "conftest.".spec_bytes())
            ||| ends_with(ln, "_spec.rb".spec_bytes())
            ||| ends_with(ln, "_test.rb".spec_bytes())
            ||| ends_with(ln, "tests.swift".spec_bytes())
            ||| ends_with(ln, "test.swift".spec_bytes())
            ||| ends_with(ln, "spec.swift".spec_bytes())
            ||| ends_with(ln, "test.php".spec_bytes())
            ||| ends_with(ln, "tests.php".spec_bytes())
            ||| ends_with(ln, "test.kt".spec_bytes())
            ||| ends_with(ln, "tests.kt".spec_bytes())
        }) ==> spec_is_test_path(name) && spec_is_test_path(dir + seq![SLASH] + name),
{
    lemma_lower_around(dir, SLASH, name);
    let ln = ascii_lower(name);
    assert forall|i: int| 0 <= i < ln.len() implies ln[i] != SLASH by {
        assert(name[i] != SLASH);
    }
    lemma_after_last_sep(ascii_lower(dir), SLASH, ln);
}

/// A file with a line longer than 2000 bytes is always skipped, as
/// generated or as minified; with no generated marker, it is minified.
pub proof fn law_enormous_line_skips(content: Seq<u8>, k: int)
    requires
        0 <= k < lines(content).len(),
        lines(content)[k].len() > 2000,
    ensures
        spec_content_skip_reason(content) is Some,
        !has_generated_marker(content) ==> spec_content_skip_reason(content) == Some("minified"),
{
    assert(lines(content)[k].len() > 2000);
}

} // verus!
