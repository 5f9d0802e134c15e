//! Function units: what is extracted and fingerprinted from each source
//! file, and the rules that flag test code and required implementations.

use crate::cluster::strictly_sorted;
use crate::fingerprint::{
    KGRAM, WINDOW, fingerprints_of, insert_sorted, lemma_fingerprints_of, lemma_sorted_set_of,
    lemma_strictly_sorted_unique, sorted_set_of, winnow,
};
use crate::lang::{
    CompiledQuery, Lang, capture_index_of, query_compiles, spec_query_source, ts_capture_index,
};
use crate::queries::CSHARP_SHAPE_QUERY;
use crate::lines::lines;
use crate::normalize::{
    fx_hash_str, fx_str_hash, law_sig_lines_are_distinct_rows, law_tokens_skip_comments,
    normalize, rows_ascend, significant_lines, spec_normalize_codes, spec_significant_lines,
    subtree_tokens, token_rows,
};
use crate::syntax::{
    NodeView, SyntaxNode, SyntaxTree, child_by_field, is_parse_of, kind_is, matches_of,
    node_count_of, node_is_view, node_text, parse_file, parse_ok, parsed_nodes, ts_query_matches,
};
use crate::text::{
    collapse_whitespace, collapse_ws, ends_with, matches_at, next_occ, next_occurrence, occurs_at,
    starts_with, str_get, trim_end, trim_end_to, trim_start, trim_start_from, utf8_or_empty,
    utf8_str,
};
use std::collections::HashMap;
use vstd::prelude::*;
use vstd::string::{StringExecFns, StringSliceAdditionalSpecFns};
use vstd::utf8::{decode_utf8, is_char_boundary, valid_utf8};

verus! {

/// One function (or method) found in a file. The unit of duplicate
/// comparison is the *body*, so signatures, imports and license headers
/// never participate in matches.
#[derive(Clone)]
pub struct FunctionUnit {
    pub file: u32,
    pub lang: Lang,
    pub name: String,
    /// 1-based, spanning the whole function node (for reporting).
    pub start_line: u32,
    pub end_line: u32,
    /// Byte range of the whole function node.
    pub start_byte: u32,
    pub end_byte: u32,
    /// Significant lines in the body.
    pub sig_lines: u32,
    /// Sorted, distinct winnowing fingerprints of the body.
    pub fingerprints: Vec<u64>,
    pub is_test: bool,
    /// A method whose name is shared with its near-duplicate siblings by
    /// construction, so the sharing is required rather than accidental: a
    /// Rust method inside an `impl Trait for Type` block, or a Clojure
    /// `defmethod` dispatch branch or protocol method implementation.
    pub is_trait_impl_method: bool,
}

/// What one file contributes: its function units and its line counts.
pub struct FileAnalysis {
    pub functions: Vec<FunctionUnit>,
    pub sig_lines: u32,
    pub total_lines: u32,
}

pub open spec fn cfg_test_mark() -> Seq<u8> {
    "#[cfg(test)]".spec_bytes()
}

/// `r` without a leading `pub `.
pub open spec fn after_pub(r: Seq<u8>) -> Seq<u8> {
    if starts_with(r, "pub ".spec_bytes()) {
        r.skip("pub ".spec_bytes().len() as int)
    } else {
        r
    }
}

/// Index of the first `{` or `;` in `r` at or after `from` (-1 if none).
pub open spec fn first_brace_or_semi(r: Seq<u8>, from: int) -> int
    decreases r.len() - from,
{
    if from < 0 || from >= r.len() {
        -1
    } else if r[from] == 123 || r[from] == 59 {
        from
    } else {
        first_brace_or_semi(r, from + 1)
    }
}

/// The item after the attribute at `at` is an inline `mod` (`mod x { .. }`,
/// optionally `pub`), not `mod x;`.
pub open spec fn opens_inline_mod(s: Seq<u8>, at: int) -> bool {
    let rest = after_pub(trim_start(s.skip(at + cfg_test_mark().len())));
    let i = first_brace_or_semi(rest, 0);
    (starts_with(rest, "mod ".spec_bytes()) || starts_with(rest, "mod\t".spec_bytes())) && i >= 0
        && rest[i] == 123
}

pub proof fn lemma_next_occ_range(s: Seq<u8>, p: Seq<u8>, from: int)
    ensures
        next_occ(s, p, from) == -1 || (from <= next_occ(s, p, from) <= s.len() && occurs_at(
            s,
            p,
            next_occ(s, p, from),
        )),
    decreases s.len() + 1 - from,
{
    if 0 <= from <= s.len() && !occurs_at(s, p, from) {
        lemma_next_occ_range(s, p, from + 1);
    }
}

/// The first `#[cfg(test)]` at or after `from` that introduces an inline
/// `mod`.
pub open spec fn cfg_test_scan(s: Seq<u8>, from: int) -> Option<int>
    decreases s.len() + 1 - from,
{
    let at = next_occ(s, cfg_test_mark(), from);
    if at < 0 || cfg_test_mark().len() == 0 || from < 0 {
        None
    } else if opens_inline_mod(s, at) {
        Some(at)
    } else {
        proof {
            lemma_next_occ_range(s, cfg_test_mark(), from);
        }
        cfg_test_scan(s, at + cfg_test_mark().len())
    }
}

pub open spec fn spec_cfg_test_mod_offset(src: Seq<u8>) -> Option<u32> {
    match cfg_test_scan(src, 0) {
        Some(at) => Some(at as u32),
        None => None,
    }
}

fn first_brace_or_semi_exec(r: &[u8], from: usize) -> (i: Option<usize>)
    requires
        from <= r@.len(),
    ensures
        match i {
            Some(k) => first_brace_or_semi(r@, from as int) == k as int && k < r@.len(),
            None => first_brace_or_semi(r@, from as int) == -1,
        },
{
    let mut k = from;
    while k < r.len()
        invariant
            from <= k <= r@.len(),
            first_brace_or_semi(r@, from as int) == first_brace_or_semi(r@, k as int),
        decreases r@.len() - k,
    {
        if r[k] == 123 || r[k] == 59 {
            return Some(k);
        }
        k += 1;
    }
    None
}

fn opens_inline_mod_exec(s: &[u8], at: usize, mark_len: usize) -> (r: bool)
    requires
        mark_len == cfg_test_mark().len(),
        at + mark_len <= s.len(),
    ensures
        r == opens_inline_mod(s@, at as int),
{
    let start = trim_start_from(s, at + mark_len);
    let ghost rest0 = s@.subrange(start as int, s@.len() as int);
    assert(s@.skip(at + mark_len) =~= s@.subrange(at + mark_len, s@.len() as int));
    let pub_kw = "pub ".as_bytes();
    let start2 = if matches_at(s, pub_kw, start) {
        assert(start + pub_kw@.len() <= s.len());
        start + pub_kw.len()
    } else {
        start
    };
    let rest = crate::walk::slice_from(s, start2);
    proof {
        assert(occurs_at(s@, pub_kw@, start as int) == starts_with(rest0, pub_kw@)) by {
            if start + pub_kw@.len() <= s@.len() {
                assert(rest0.subrange(0, pub_kw@.len() as int) =~= s@.subrange(
                    start as int,
                    start + pub_kw@.len(),
                ));
            }
        }
        if starts_with(rest0, pub_kw@) {
            assert(rest0.skip(pub_kw@.len() as int) =~= rest@);
        } else {
            assert(rest0 =~= rest@);
        }
    }
    let is_mod = crate::text::starts_with_bytes(rest, "mod ".as_bytes())
        || crate::text::starts_with_bytes(rest, "mod\t".as_bytes());
    if !is_mod {
        return false;
    }
    match first_brace_or_semi_exec(rest, 0) {
        Some(i) => rest[i] == 123,
        None => false,
    }
}

/// Byte offset of the first `#[cfg(test)]` attribute whose next item is an
/// inline `mod` (`mod tests { .. }`, `pub` or not), if any.
pub fn cfg_test_mod_offset(src: &str) -> (r: Option<u32>)
    ensures
        r == spec_cfg_test_mod_offset(src.spec_bytes()),
{
    let s = src.as_bytes();
    let mark = "#[cfg(test)]".as_bytes();
    let mark_len = mark.len();
    if mark_len == 0 {
        return None;
    }
    let mut from: usize = 0;
    loop
        invariant
            s@ == src.spec_bytes(),
            mark@ == cfg_test_mark(),
            mark_len == mark@.len(),
            mark_len > 0,
            from <= s@.len() + mark_len,
            cfg_test_scan(s@, 0) == cfg_test_scan(s@, from as int),
        decreases s@.len() + mark_len - from,
    {
        if from > s.len() {
            assert(next_occ(s@, mark@, from as int) == -1);
            return None;
        }
        match next_occurrence(s, mark, from) {
            None => {
                return None;
            },
            Some(at) => {
                proof {
                    lemma_next_occ_range(s@, mark@, from as int);
                }
                if opens_inline_mod_exec(s, at, mark_len) {
                    return Some(at as u32);
                }
                from = at + mark_len;
            },
        }
    }
}

/// The Rust rule: `func` sits in the `declaration_list` of an `impl_item`
/// that has a `trait` field (`impl Trait for Type { .. }`). Inherent impls
/// (`impl Type { .. }`) have no `trait` field.
pub open spec fn spec_is_rust_trait_impl_method(t: SyntaxTree, func: int) -> bool {
    match t.nodes@[func].parent {
        Some(d) => kind_is(t, d as int, "declaration_list".spec_bytes()) && match t.nodes@[d as int].parent {
            Some(i) => kind_is(t, i as int, "impl_item".spec_bytes()) && child_by_field(
                t,
                i as int,
                "trait".spec_bytes(),
            ) is Some,
            None => false,
        },
        None => false,
    }
}

/// The text of the head symbol of a Clojure list form: its `value` child,
/// when that is a `sym_lit`, through the symbol's `name` child. It is only
/// ever compared with ASCII words, which no text that fails UTF-8 equals,
/// so the bytes are taken as they are.
pub open spec fn clojure_head_text(t: SyntaxTree, list: int, src: Seq<u8>) -> Option<Seq<u8>> {
    match child_by_field(t, list, "value".spec_bytes()) {
        Some(h) => if kind_is(t, h as int, "sym_lit".spec_bytes()) {
            match child_by_field(t, h as int, "name".spec_bytes()) {
                Some(n) => node_text(t, n as int, src),
                None => None,
            }
        } else {
            None
        },
        None => None,
    }
}

pub open spec fn head_is(t: SyntaxTree, list: int, src: Seq<u8>, word: Seq<u8>) -> bool {
    clojure_head_text(t, list, src) == Some(word)
}

/// A `defmethod` form: every dispatch branch of a multimethod shares the
/// multimethod's name.
pub open spec fn spec_is_clojure_defmethod(t: SyntaxTree, func: int, src: Seq<u8>) -> bool {
    head_is(t, func, src, "defmethod".spec_bytes())
}

/// A protocol method implementation: the parent of `func` is a
/// `defrecord`, `deftype`, `extend-type`, `extend-protocol` or `reify` list.
pub open spec fn spec_is_clojure_protocol_method(t: SyntaxTree, func: int, src: Seq<u8>) -> bool {
    match t.nodes@[func].parent {
        Some(p) => kind_is(t, p as int, "list_lit".spec_bytes()) && (head_is(
            t,
            p as int,
            src,
            "defrecord".spec_bytes(),
        ) || head_is(t, p as int, src, "deftype".spec_bytes()) || head_is(
            t,
            p as int,
            src,
            "extend-type".spec_bytes(),
        ) || head_is(t, p as int, src, "extend-protocol".spec_bytes()) || head_is(
            t,
            p as int,
            src,
            "reify".spec_bytes(),
        )),
        None => false,
    }
}

/// Whether a function of `lang` is flagged as a required implementation.
pub open spec fn spec_trait_impl_flag(lang: Lang, t: SyntaxTree, func: int, src: Seq<u8>) -> bool {
    match lang {
        Lang::Rust => spec_is_rust_trait_impl_method(t, func),
        Lang::Clojure => spec_is_clojure_defmethod(t, func, src) || spec_is_clojure_protocol_method(
            t,
            func,
            src,
        ),
        _ => false,
    }
}

fn is_rust_trait_impl_method(t: &SyntaxTree, func: usize) -> (r: bool)
    requires
        t.wf(),
        func < t.nodes@.len(),
    ensures
        r == spec_is_rust_trait_impl_method(*t, func as int),
{
    proof {
        t.lemma_node(func as int);
    }
    let d = match t.nodes[func].parent {
        Some(d) => d,
        None => return false,
    };
    if !t.kind_is(d, "declaration_list".as_bytes()) {
        return false;
    }
    proof {
        t.lemma_node(d as int);
    }
    let i = match t.nodes[d].parent {
        Some(i) => i,
        None => return false,
    };
    t.kind_is(i, "impl_item".as_bytes()) && t.child_by_field_name(i, "trait".as_bytes()).is_some()
}

fn clojure_list_head_text<'a>(t: &SyntaxTree, list: usize, src: &'a [u8]) -> (r: Option<&'a [u8]>)
    requires
        t.wf(),
        list < t.nodes@.len(),
    ensures
        match r {
            Some(b) => clojure_head_text(*t, list as int, src@) == Some(b@),
            None => clojure_head_text(*t, list as int, src@) is None,
        },
{
    let h = match t.child_by_field_name(list, "value".as_bytes()) {
        Some(h) => h,
        None => return None,
    };
    if !t.kind_is(h, "sym_lit".as_bytes()) {
        return None;
    }
    match t.child_by_field_name(h, "name".as_bytes()) {
        Some(n) => t.text(n, src),
        None => None,
    }
}

fn head_is_exec(t: &SyntaxTree, list: usize, src: &[u8], word: &[u8]) -> (r: bool)
    requires
        t.wf(),
        list < t.nodes@.len(),
    ensures
        r == head_is(*t, list as int, src@, word@),
{
    match clojure_list_head_text(t, list, src) {
        Some(b) => crate::text::bytes_eq(b, word),
        None => false,
    }
}

fn is_clojure_defmethod(t: &SyntaxTree, func: usize, src: &[u8]) -> (r: bool)
    requires
        t.wf(),
        func < t.nodes@.len(),
    ensures
        r == spec_is_clojure_defmethod(*t, func as int, src@),
{
    head_is_exec(t, func, src, "defmethod".as_bytes())
}

fn is_clojure_protocol_method(t: &SyntaxTree, func: usize, src: &[u8]) -> (r: bool)
    requires
        t.wf(),
        func < t.nodes@.len(),
    ensures
        r == spec_is_clojure_protocol_method(*t, func as int, src@),
{
    proof {
        t.lemma_node(func as int);
    }
    let p = match t.nodes[func].parent {
        Some(p) => p,
        None => return false,
    };
    if !t.kind_is(p, "list_lit".as_bytes()) {
        return false;
    }
    head_is_exec(t, p, src, "defrecord".as_bytes()) || head_is_exec(t, p, src, "deftype".as_bytes())
        || head_is_exec(t, p, src, "extend-type".as_bytes()) || head_is_exec(
        t,
        p,
        src,
        "extend-protocol".as_bytes(),
    ) || head_is_exec(t, p, src, "reify".as_bytes())
}

fn trait_impl_flag(lang: Lang, t: &SyntaxTree, func: usize, src: &[u8]) -> (r: bool)
    requires
        t.wf(),
        func < t.nodes@.len(),
    ensures
        r == spec_trait_impl_flag(lang, *t, func as int, src@),
{
    match lang {
        Lang::Rust => is_rust_trait_impl_method(t, func),
        Lang::Clojure => is_clojure_defmethod(t, func, src) || is_clojure_protocol_method(t, func, src),
        _ => false,
    }
}

/// What a function unit holds, as plain values.
pub struct UnitView {
    pub file: u32,
    pub lang: Lang,
    pub name: Seq<char>,
    pub start_line: u32,
    pub end_line: u32,
    pub start_byte: u32,
    pub end_byte: u32,
    pub sig_lines: u32,
    pub fingerprints: Seq<u64>,
    pub is_test: bool,
    pub is_trait_impl_method: bool,
}

impl View for FunctionUnit {
    type V = UnitView;

    open spec fn view(&self) -> UnitView {
        UnitView {
            file: self.file,
            lang: self.lang,
            name: self.name@,
            start_line: self.start_line,
            end_line: self.end_line,
            start_byte: self.start_byte,
            end_byte: self.end_byte,
            sig_lines: self.sig_lines,
            fingerprints: self.fingerprints@,
            is_test: self.is_test,
            is_trait_impl_method: self.is_trait_impl_method,
        }
    }
}

/// What a file analysis holds, as plain values.
pub struct FileView {
    pub functions: Seq<UnitView>,
    pub sig_lines: u32,
    pub total_lines: u32,
}

impl View for FileAnalysis {
    type V = FileView;

    open spec fn view(&self) -> FileView {
        FileView {
            functions: self.functions@.map_values(|f: FunctionUnit| f@),
            sig_lines: self.sig_lines,
            total_lines: self.total_lines,
        }
    }
}

/// The capture indices of the function query's `@name`, `@body` and
/// `@func` captures.
#[derive(Clone, Copy)]
pub struct CaptureSlots {
    pub name: Option<u32>,
    pub body: Option<u32>,
    pub func: Option<u32>,
}

/// The slot a capture index fills: the first of name (0), body (1) and
/// func (2) whose index it is; 3 when none.
pub open spec fn slot_of(s: CaptureSlots, index: u32) -> int {
    if s.name == Some(index) {
        0
    } else if s.body == Some(index) {
        1
    } else if s.func == Some(index) {
        2
    } else {
        3
    }
}

/// The node id of the last capture of `caps` that fills `slot`.
pub open spec fn last_in_slot(caps: Seq<(u32, usize)>, s: CaptureSlots, slot: int) -> Option<usize>
    decreases caps.len(),
{
    if caps.len() == 0 {
        None
    } else if slot_of(s, caps.last().0) == slot {
        Some(caps.last().1)
    } else {
        last_in_slot(caps.drop_last(), s, slot)
    }
}

/// The first node of `t` at or after index `k` whose id is `id`.
pub open spec fn node_from(t: SyntaxTree, id: usize, k: int) -> Option<usize>
    decreases t.nodes@.len() - k,
{
    if k < 0 || k >= t.nodes@.len() {
        None
    } else if t.nodes@[k].id == id {
        Some(k as usize)
    } else {
        node_from(t, id, k + 1)
    }
}

/// The node of `t` that a match's captures put in `slot`.
pub open spec fn captured(t: SyntaxTree, caps: Seq<(u32, usize)>, s: CaptureSlots, slot: int) -> Option<
    usize,
> {
    match last_in_slot(caps, s, slot) {
        Some(id) => node_from(t, id, 0),
        None => None,
    }
}

/// A function's name: the text of its name node when that is valid UTF-8,
/// else `<anonymous>`.
pub open spec fn unit_name(t: SyntaxTree, name: Option<usize>, src: Seq<u8>) -> Seq<char> {
    match name {
        Some(n) => match node_text(t, n as int, src) {
            Some(b) => if valid_utf8(b) {
                decode_utf8(b)
            } else {
                "<anonymous>"@
            },
            None => "<anonymous>"@,
        },
        None => "<anonymous>"@,
    }
}

/// Where a Rust file's test module starts: only for Rust files that are
/// not test files as a whole.
pub open spec fn spec_test_boundary(lang: Lang, src: Seq<u8>, file_is_test: bool) -> Option<u32> {
    if lang == Lang::Rust && !file_is_test {
        spec_cfg_test_mod_offset(src)
    } else {
        None
    }
}

/// The unit one query match yields: none without a body and a function
/// node, nor when the body has fewer than `min_tokens` normalized tokens
/// or no fingerprint.
pub open spec fn spec_unit(
    file: u32,
    lang: Lang,
    t: SyntaxTree,
    src: Seq<u8>,
    caps: Seq<(u32, usize)>,
    s: CaptureSlots,
    min_tokens: usize,
    file_is_test: bool,
    boundary: Option<u32>,
) -> Option<UnitView> {
    match (captured(t, caps, s, 1), captured(t, caps, s, 2)) {
        (Some(body), Some(func)) => {
            let codes = spec_normalize_codes(t, body as int, src);
            let fps = fingerprints_of(codes);
            let f = t.nodes@[func as int];
            if codes.len() < min_tokens || fps.len() == 0 {
                None
            } else {
                Some(
                    UnitView {
                        file,
                        lang,
                        name: unit_name(t, captured(t, caps, s, 0), src),
                        start_line: ((f.start_row as u32) + 1) as u32,
                        end_line: ((f.end_row as u32) + 1) as u32,
                        start_byte: f.start_byte as u32,
                        end_byte: f.end_byte as u32,
                        sig_lines: spec_significant_lines(t, body as int, src) as u32,
                        fingerprints: fps,
                        is_test: file_is_test || (boundary matches Some(b) && (f.start_byte as u32)
                            >= b),
                        is_trait_impl_method: spec_trait_impl_flag(lang, t, func as int, src),
                    },
                )
            }
        },
        _ => None,
    }
}

/// The units of the matches `ms`, in match order.
pub open spec fn spec_units(
    file: u32,
    lang: Lang,
    t: SyntaxTree,
    src: Seq<u8>,
    ms: Seq<Seq<(u32, usize)>>,
    s: CaptureSlots,
    min_tokens: usize,
    file_is_test: bool,
    boundary: Option<u32>,
) -> Seq<UnitView>
    decreases ms.len(),
{
    if ms.len() == 0 {
        Seq::empty()
    } else {
        let prev = spec_units(
            file,
            lang,
            t,
            src,
            ms.drop_last(),
            s,
            min_tokens,
            file_is_test,
            boundary,
        );
        match spec_unit(file, lang, t, src, ms.last(), s, min_tokens, file_is_test, boundary) {
            Some(u) => prev.push(u),
            None => prev,
        }
    }
}

/// The analysis of `src` given its syntax tree `t` (root at index 0) and
/// the function query's matches `ms`.
pub open spec fn spec_file_analysis(
    file: u32,
    lang: Lang,
    src: Seq<u8>,
    min_tokens: usize,
    file_is_test: bool,
    t: SyntaxTree,
    ms: Seq<Seq<(u32, usize)>>,
    s: CaptureSlots,
) -> FileView {
    FileView {
        functions: spec_units(
            file,
            lang,
            t,
            src,
            ms,
            s,
            min_tokens,
            file_is_test,
            spec_test_boundary(lang, src, file_is_test),
        ),
        sig_lines: spec_significant_lines(t, 0, src) as u32,
        total_lines: lines(src).len() as u32,
    }
}

/// A node's rows are in order and fit a 1-based `u32` line number, and its
/// byte range is in order, inside a text of `len` bytes and within `u32`.
pub open spec fn node_fits(n: SyntaxNode, len: nat) -> bool {
    &&& n.start_row <= n.end_row < u32::MAX
    &&& n.start_byte <= n.end_byte <= len
    &&& n.end_byte <= u32::MAX
}

/// Every node of `t` fits a text of `len` bytes, and the nodes start on
/// rows that never go back up in pre-order.
#[verifier::opaque]
pub open spec fn tree_fits(t: SyntaxTree, len: nat) -> bool {
    &&& forall|i: int| 0 <= i < t.nodes@.len() ==> node_fits(#[trigger] t.nodes@[i], len)
    &&& forall|i: int, j: int|
        0 <= i <= j < t.nodes@.len() ==> (#[trigger] t.nodes@[i]).start_row
            <= (#[trigger] t.nodes@[j]).start_row
}

/// The same of what tree-sitter reported for a node.
pub open spec fn view_fits(v: NodeView, len: nat) -> bool {
    &&& v.start_row <= v.end_row < u32::MAX
    &&& v.start_byte <= v.end_byte <= len
    &&& v.end_byte <= u32::MAX
}

fn in_slot(o: Option<u32>, index: u32) -> (r: bool)
    ensures
        r == (o == Some(index)),
{
    match o {
        Some(x) => x == index,
        None => false,
    }
}

/// `m` maps each node id of `t` to the first node that has it.
pub open spec fn indexes_ids(t: SyntaxTree, m: Map<usize, usize>) -> bool {
    &&& forall|id: usize| #[trigger] m.contains_key(id) <==> node_from(t, id, 0) is Some
    &&& forall|id: usize|
        #[trigger] m.contains_key(id) ==> node_from(t, id, 0) == Some(m[id]) && m[id]
            < t.nodes@.len()
}

/// The map from node ids to (first) node indices.
fn id_index(t: &SyntaxTree) -> (m: HashMap<usize, usize>)
    ensures
        indexes_ids(*t, m@),
{
    broadcast use vstd::std_specs::hash::group_hash_axioms;

    let mut m: HashMap<usize, usize> = HashMap::new();
    let mut i: usize = 0;
    while i < t.nodes.len()
        invariant
            i <= t.nodes@.len(),
            forall|id: usize|
                #[trigger] m@.contains_key(id) ==> node_from(*t, id, 0) == Some(m@[id]) && m@[id]
                    < i,
            forall|id: usize|
                !(#[trigger] m@.contains_key(id)) ==> node_from(*t, id, 0) == node_from(
                    *t,
                    id,
                    i as int,
                ),
        decreases t.nodes@.len() - i,
    {
        let id = t.nodes[i].id;
        if !m.contains_key(&id) {
            m.insert(id, i);
        }
        assert forall|x: usize| !(#[trigger] m@.contains_key(x)) implies node_from(*t, x, 0)
            == node_from(*t, x, i + 1) by {
            assert(x != id);
        }
        i += 1;
    }
    m
}

fn node_index_of(ids: &HashMap<usize, usize>, t: &SyntaxTree, id: usize) -> (r: Option<usize>)
    requires
        indexes_ids(*t, ids@),
    ensures
        r == node_from(*t, id, 0),
        r matches Some(i) ==> i < t.nodes@.len(),
{
    broadcast use vstd::std_specs::hash::group_hash_axioms;

    match ids.get(&id) {
        Some(i) => Some(*i),
        None => None,
    }
}

fn unit_name_exec(t: &SyntaxTree, name: Option<usize>, src: &[u8]) -> (r: String)
    requires
        name matches Some(n) ==> n < t.nodes@.len(),
    ensures
        r@ == unit_name(*t, name, src@),
{
    match name {
        Some(n) => match t.text(n, src) {
            Some(b) => match utf8_str(b) {
                Some(text) => {
                    proof {
                        vstd::utf8::encode_utf8_decode_utf8(text@);
                    }
                    String::from_str(text)
                },
                None => String::from_str("<anonymous>"),
            },
            None => String::from_str("<anonymous>"),
        },
        None => String::from_str("<anonymous>"),
    }
}

/// The nodes a match puts in the name, body and func slots.
fn pick_captures(
    ids: &HashMap<usize, usize>,
    t: &SyntaxTree,
    caps: &Vec<(u32, usize)>,
    s: CaptureSlots,
) -> (r: (Option<usize>, Option<usize>, Option<usize>))
    requires
        indexes_ids(*t, ids@),
    ensures
        r.0 == captured(*t, caps@, s, 0),
        r.1 == captured(*t, caps@, s, 1),
        r.2 == captured(*t, caps@, s, 2),
        r.0 matches Some(i) ==> i < t.nodes@.len(),
        r.1 matches Some(i) ==> i < t.nodes@.len(),
        r.2 matches Some(i) ==> i < t.nodes@.len(),
{
    let mut name: Option<usize> = None;
    let mut body: Option<usize> = None;
    let mut func: Option<usize> = None;
    let mut k: usize = 0;
    while k < caps.len()
        invariant
            k <= caps@.len(),
            name == last_in_slot(caps@.take(k as int), s, 0),
            body == last_in_slot(caps@.take(k as int), s, 1),
            func == last_in_slot(caps@.take(k as int), s, 2),
        decreases caps@.len() - k,
    {
        let (index, id) = caps[k];
        proof {
            assert(caps@.take(k + 1).drop_last() =~= caps@.take(k as int));
            assert(caps@.take(k + 1).last() == caps@[k as int]);
        }
        if in_slot(s.name, index) {
            name = Some(id);
        } else if in_slot(s.body, index) {
            body = Some(id);
        } else if in_slot(s.func, index) {
            func = Some(id);
        }
        k += 1;
    }
    proof {
        assert(caps@.take(caps@.len() as int) =~= caps@);
    }
    let name = match name {
        Some(id) => node_index_of(ids, t, id),
        None => None,
    };
    let body = match body {
        Some(id) => node_index_of(ids, t, id),
        None => None,
    };
    let func = match func {
        Some(id) => node_index_of(ids, t, id),
        None => None,
    };
    (name, body, func)
}

fn unit_from_match(
    ids: &HashMap<usize, usize>,
    file: u32,
    lang: Lang,
    t: &SyntaxTree,
    src: &[u8],
    caps: &Vec<(u32, usize)>,
    s: CaptureSlots,
    min_tokens: usize,
    file_is_test: bool,
    boundary: Option<u32>,
) -> (r: Option<FunctionUnit>)
    requires
        indexes_ids(*t, ids@),
        t.wf(),
        t.nodes@.len() <= u32::MAX,
        tree_fits(*t, src@.len()),
    ensures
        match r {
            Some(u) => spec_unit(file, lang, *t, src@, caps@, s, min_tokens, file_is_test, boundary)
                == Some(u@) && strictly_sorted(u.fingerprints@),
            None => spec_unit(
                file,
                lang,
                *t,
                src@,
                caps@,
                s,
                min_tokens,
                file_is_test,
                boundary,
            ) is None,
        },
{
    proof {
        reveal(tree_fits);
    }
    let (name, body, func) = pick_captures(ids, t, caps, s);
    let (body, func) = match (body, func) {
        (Some(b), Some(f)) => (b, f),
        _ => return None,
    };
    let normalized = normalize(t, body, src);
    if normalized.codes.len() < min_tokens {
        return None;
    }
    let fingerprints = winnow(normalized.codes.as_slice(), KGRAM, WINDOW);
    proof {
        lemma_fingerprints_of(normalized.codes@, fingerprints@);
    }
    if fingerprints.len() == 0 {
        return None;
    }
    let name_text = unit_name_exec(t, name, src);
    let n = &t.nodes[func];
    let is_test = file_is_test || match boundary {
        Some(b) => n.start_byte as u32 >= b,
        None => false,
    };
    let flag = trait_impl_flag(lang, t, func, src);
    Some(
        FunctionUnit {
            file,
            lang,
            name: name_text,
            start_line: n.start_row as u32 + 1,
            end_line: n.end_row as u32 + 1,
            start_byte: n.start_byte as u32,
            end_byte: n.end_byte as u32,
            sig_lines: normalized.sig_lines,
            fingerprints,
            is_test,
            is_trait_impl_method: flag,
        },
    )
}

/// The analysis of `src`, given its syntax tree `t` and the function
/// query's matches over it (each match as its captures: capture index and
/// node id), with `slots` the query's capture indices. Every match with a
/// body and a function node yields a unit unless the body normalizes to
/// fewer than `min_tokens` codes or to no fingerprint; units keep match
/// order.
pub fn analyze_tree(
    file: u32,
    lang: Lang,
    src: &str,
    min_tokens: usize,
    file_is_test: bool,
    t: &SyntaxTree,
    matches: &Vec<Vec<(u32, usize)>>,
    slots: CaptureSlots,
) -> (r: FileAnalysis)
    requires
        t.wf(),
        0 < t.nodes@.len() <= u32::MAX,
        tree_fits(*t, src.spec_bytes().len()),
    ensures
        r@ == spec_file_analysis(
            file,
            lang,
            src.spec_bytes(),
            min_tokens,
            file_is_test,
            *t,
            matches@.map_values(|m: Vec<(u32, usize)>| m@),
            slots,
        ),
        forall|i: int|
            0 <= i < r.functions@.len() ==> strictly_sorted(
                (#[trigger] r.functions@[i]).fingerprints@,
            ),
{
    let bytes = src.as_bytes();
    let boundary = if lang == Lang::Rust && !file_is_test {
        cfg_test_mod_offset(src)
    } else {
        None
    };
    let ghost ms = matches@.map_values(|m: Vec<(u32, usize)>| m@);
    let ghost sb = src.spec_bytes();
    let ids = id_index(t);
    let mut functions: Vec<FunctionUnit> = Vec::new();
    let mut i: usize = 0;
    while i < matches.len()
        invariant
            indexes_ids(*t, ids@),
            t.wf(),
            t.nodes@.len() <= u32::MAX,
            tree_fits(*t, sb.len()),
            sb == src.spec_bytes(),
            bytes@ == sb,
            ms == matches@.map_values(|m: Vec<(u32, usize)>| m@),
            boundary == spec_test_boundary(lang, sb, file_is_test),
            i <= matches@.len(),
            functions@.map_values(|f: FunctionUnit| f@) == spec_units(
                file,
                lang,
                *t,
                sb,
                ms.take(i as int),
                slots,
                min_tokens,
                file_is_test,
                boundary,
            ),
            forall|j: int|
                0 <= j < functions@.len() ==> strictly_sorted(
                    (#[trigger] functions@[j]).fingerprints@,
                ),
        decreases matches@.len() - i,
    {
        let ghost before = functions@;
        let u = unit_from_match(
            &ids,
            file,
            lang,
            t,
            bytes,
            &matches[i],
            slots,
            min_tokens,
            file_is_test,
            boundary,
        );
        proof {
            assert(ms.take(i + 1).drop_last() =~= ms.take(i as int));
            assert(ms.take(i + 1).last() == matches@[i as int]@);
        }
        match u {
            Some(unit) => {
                functions.push(unit);
                proof {
                    assert(functions@.map_values(|f: FunctionUnit| f@) =~= before.map_values(
                        |f: FunctionUnit| f@,
                    ).push(functions@.last()@));
                }
            },
            None => {},
        }
        i += 1;
    }
    proof {
        assert(ms.take(matches@.len() as int) =~= ms);
    }
    let sig_lines = significant_lines(t, 0, bytes);
    let total_lines = crate::lines::line_spans(bytes).len() as u32;
    FileAnalysis { functions, sig_lines, total_lines }
}

/// Whether every node of `t` fits a text of `len` bytes.
fn tree_fits_exec(t: &SyntaxTree, len: usize) -> (r: bool)
    ensures
        r == tree_fits(*t, len as nat),
{
    proof {
        reveal(tree_fits);
    }
    let mut i: usize = 0;
    while i < t.nodes.len()
        invariant
            i <= t.nodes@.len(),
            forall|j: int| 0 <= j < i ==> node_fits(#[trigger] t.nodes@[j], len as nat),
            forall|a: int, b: int|
                0 <= a <= b < i ==> (#[trigger] t.nodes@[a]).start_row
                    <= (#[trigger] t.nodes@[b]).start_row,
        decreases t.nodes@.len() - i,
    {
        let n = &t.nodes[i];
        if !(n.start_row <= n.end_row && n.end_row < 0xffff_ffff && n.start_byte <= n.end_byte
            && n.end_byte <= len && n.end_byte <= 0xffff_ffff) {
            proof {
                reveal(tree_fits);
            }
            assert(!node_fits(t.nodes@[i as int], len as nat));
            return false;
        }
        if i > 0 && t.nodes[i - 1].start_row > n.start_row {
            proof {
                reveal(tree_fits);
            }
            assert(t.nodes@[i - 1].start_row > t.nodes@[i as int].start_row);
            return false;
        }
        proof {
            assert forall|a: int, b: int| 0 <= a <= b < i + 1 implies (#[trigger] t.nodes@[a]).start_row
                <= (#[trigger] t.nodes@[b]).start_row by {
                if b == i && a < i {
                    assert(t.nodes@[a].start_row <= t.nodes@[i - 1].start_row);
                }
            }
        }
        i += 1;
    }
    true
}

/// The first node of `t`, from index `k` on, with byte range `start..end`
/// and kind id `kind`.
pub open spec fn node_with(t: SyntaxTree, start: usize, end: usize, kind: u16, k: int) -> Option<
    usize,
>
    decreases t.nodes@.len() - k,
{
    if k < 0 || k >= t.nodes@.len() {
        None
    } else if t.nodes@[k].start_byte == start && t.nodes@[k].end_byte == end && t.nodes@[k].kind_id
        == kind {
        Some(k as usize)
    } else {
        node_with(t, start, end, kind, k + 1)
    }
}

/// A capture with its node named by the node's number in `t`: the first
/// node in pre-order with the capture's byte range and kind (two nested
/// nodes of one kind never share a range in these grammars' queries); a
/// number past the nodes when there is none.
pub open spec fn resolve_capture(t: SyntaxTree, c: (u32, usize, usize, u16)) -> (u32, usize) {
    (
        c.0,
        match node_with(t, c.1, c.2, c.3, 0) {
            Some(k) => k,
            None => t.nodes@.len() as usize,
        },
    )
}

pub open spec fn resolve_matches(t: SyntaxTree, ms: Seq<Seq<(u32, usize, usize, u16)>>) -> Seq<
    Seq<(u32, usize)>,
> {
    ms.map_values(
        |m: Seq<(u32, usize, usize, u16)>| m.map_values(|c: (u32, usize, usize, u16)| resolve_capture(t, c)),
    )
}

/// `m` maps each start byte of a node of `t` to the first node starting there.
pub open spec fn indexes_starts(t: SyntaxTree, m: Map<usize, usize>) -> bool {
    &&& forall|b: usize|
        #[trigger] m.contains_key(b) ==> m[b] < t.nodes@.len() && t.nodes@[m[b] as int].start_byte
            == b && forall|k: int| 0 <= k < m[b] ==> t.nodes@[k].start_byte != b
    &&& forall|b: usize|
        !(#[trigger] m.contains_key(b)) ==> forall|k: int|
            0 <= k < t.nodes@.len() ==> t.nodes@[k].start_byte != b
}

fn start_index(t: &SyntaxTree) -> (m: HashMap<usize, usize>)
    ensures
        indexes_starts(*t, m@),
{
    broadcast use vstd::std_specs::hash::group_hash_axioms;

    let mut m: HashMap<usize, usize> = HashMap::new();
    let mut i: usize = 0;
    while i < t.nodes.len()
        invariant
            i <= t.nodes@.len(),
            forall|b: usize|
                #[trigger] m@.contains_key(b) ==> m@[b] < i && t.nodes@[m@[b] as int].start_byte
                    == b && forall|k: int| 0 <= k < m@[b] ==> t.nodes@[k].start_byte != b,
            forall|b: usize|
                !(#[trigger] m@.contains_key(b)) ==> forall|k: int|
                    0 <= k < i ==> t.nodes@[k].start_byte != b,
        decreases t.nodes@.len() - i,
    {
        let b = t.nodes[i].start_byte;
        if !m.contains_key(&b) {
            m.insert(b, i);
        }
        i += 1;
    }
    m
}

proof fn lemma_node_with_skip(t: SyntaxTree, start: usize, end: usize, kind: u16, j: int)
    requires
        0 <= j <= t.nodes@.len(),
        forall|k: int| 0 <= k < j ==> t.nodes@[k].start_byte != start,
    ensures
        node_with(t, start, end, kind, 0) == node_with(t, start, end, kind, j),
    decreases j,
{
    if j > 0 {
        lemma_node_with_skip(t, start, end, kind, j - 1);
    }
}

fn resolve_capture_exec(
    starts: &HashMap<usize, usize>,
    t: &SyntaxTree,
    c: (u32, usize, usize, u16),
) -> (r: (u32, usize))
    requires
        indexes_starts(*t, starts@),
    ensures
        r == resolve_capture(*t, c),
{
    broadcast use vstd::std_specs::hash::group_hash_axioms;

    let (index, start, end, kind) = c;
    assert(c == (index, start, end, kind));
    let first = match starts.get(&start) {
        Some(j) => *j,
        None => {
            proof {
                lemma_node_with_skip(*t, start, end, kind, t.nodes@.len() as int);
            }
            return (index, t.nodes.len());
        },
    };
    proof {
        lemma_node_with_skip(*t, start, end, kind, first as int);
    }
    let mut k = first;
    while k < t.nodes.len()
        invariant
            c == (index, start, end, kind),
            first <= k <= t.nodes@.len(),
            node_with(*t, start, end, kind, 0) == node_with(*t, start, end, kind, k as int),
        decreases t.nodes@.len() - k,
    {
        let n = &t.nodes[k];
        if n.start_byte == start && n.end_byte == end && n.kind_id == kind {
            assert(node_with(*t, start, end, kind, k as int) == Some(k));
            assert(c == (index, start, end, kind));
            return (index, k);
        }
        k += 1;
    }
    (index, t.nodes.len())
}

/// The matches with each capture's node named by its number in `t`.
fn resolve_matches_exec(t: &SyntaxTree, ms: &Vec<Vec<(u32, usize, usize, u16)>>) -> (r: Vec<
    Vec<(u32, usize)>,
>)
    ensures
        r@.map_values(|m: Vec<(u32, usize)>| m@) == resolve_matches(
            *t,
            ms@.map_values(|m: Vec<(u32, usize, usize, u16)>| m@),
        ),
{
    let starts = start_index(t);
    let ghost msv = ms@.map_values(|m: Vec<(u32, usize, usize, u16)>| m@);
    let mut out: Vec<Vec<(u32, usize)>> = Vec::new();
    let mut i: usize = 0;
    while i < ms.len()
        invariant
            indexes_starts(*t, starts@),
            msv == ms@.map_values(|m: Vec<(u32, usize, usize, u16)>| m@),
            i <= ms@.len(),
            out@.map_values(|m: Vec<(u32, usize)>| m@) == resolve_matches(*t, msv.take(i as int)),
        decreases ms@.len() - i,
    {
        let caps = &ms[i];
        let mut row: Vec<(u32, usize)> = Vec::new();
        let mut j: usize = 0;
        while j < caps.len()
            invariant
                indexes_starts(*t, starts@),
                j <= caps@.len(),
                row@ == caps@.take(j as int).map_values(
                    |c: (u32, usize, usize, u16)| resolve_capture(*t, c),
                ),
            decreases caps@.len() - j,
        {
            let x = resolve_capture_exec(&starts, t, caps[j]);
            row.push(x);
            assert(caps@.take(j + 1) =~= caps@.take(j as int).push(caps@[j as int]));
            assert(row@ =~= caps@.take(j + 1).map_values(
                |c: (u32, usize, usize, u16)| resolve_capture(*t, c),
            ));
            j += 1;
        }
        assert(caps@.take(caps@.len() as int) =~= caps@);
        let ghost before = out@;
        out.push(row);
        proof {
            assert(msv.take(i + 1) =~= msv.take(i as int).push(msv[i as int]));
            assert(out@.map_values(|m: Vec<(u32, usize)>| m@) =~= before.map_values(
                |m: Vec<(u32, usize)>| m@,
            ).push(out@.last()@));
            assert(resolve_matches(*t, msv.take(i + 1)) =~= resolve_matches(
                *t,
                msv.take(i as int),
            ).push(msv[i as int].map_values(|c: (u32, usize, usize, u16)| resolve_capture(*t, c))));
        }
        i += 1;
    }
    assert(msv.take(ms@.len() as int) =~= msv);
    out
}

/// The capture indices of a compiled query's `@name`, `@body`, `@func`.
pub open spec fn slots_of(lang: Lang, source: Seq<char>) -> CaptureSlots {
    CaptureSlots {
        name: capture_index_of(lang, source, "name"@),
        body: capture_index_of(lang, source, "body"@),
        func: capture_index_of(lang, source, "func"@),
    }
}

fn slots_exec(q: &CompiledQuery) -> (r: CaptureSlots)
    ensures
        r == slots_of(q@.0, q@.1),
{
    CaptureSlots {
        name: ts_capture_index(q, "name"),
        body: ts_capture_index(q, "body"),
        func: ts_capture_index(q, "func"),
    }
}

/// What tree-sitter reports for `src` fits it: every node's rows and byte
/// range, and nodes start on rows that never go back up in pre-order.
pub open spec fn parse_fits(lang: Lang, src: Seq<u8>) -> bool {
    &&& forall|i: int|
        0 <= i < parsed_nodes(lang, src).len() ==> view_fits(
            #[trigger] parsed_nodes(lang, src)[i],
            src.len(),
        )
    &&& forall|i: int, j: int|
        0 <= i <= j < parsed_nodes(lang, src).len() ==> (#[trigger] parsed_nodes(lang, src)[i]).start_row
            <= (#[trigger] parsed_nodes(lang, src)[j]).start_row
}

/// When `analyze_source` has a result: the file parses into a tree of at
/// least one and at most `u32::MAX` nodes that fit the text, and the
/// language's function query compiles.
pub open spec fn analyzable(lang: Lang, src: Seq<u8>) -> bool {
    &&& parse_ok(lang, src)
    &&& 0 < node_count_of(lang, src) <= u32::MAX
    &&& parse_fits(lang, src)
    &&& query_compiles(lang, spec_query_source(lang)@)
}

proof fn lemma_fits_of_parse(t: SyntaxTree, lang: Lang, src: Seq<u8>)
    requires
        is_parse_of(t, lang, src),
    ensures
        tree_fits(t, src.len()) <==> parse_fits(lang, src),
{
    reveal(tree_fits);
    let pn = parsed_nodes(lang, src);
    if tree_fits(t, src.len()) {
        assert forall|i: int| 0 <= i < pn.len() implies view_fits(#[trigger] pn[i], src.len()) by {
            assert(node_fits(t.nodes@[i], src.len()));
            assert(node_is_view(t.nodes@[i], pn[i]));
        }
        assert forall|i: int, j: int| 0 <= i <= j < pn.len() implies (#[trigger] pn[i]).start_row
            <= (#[trigger] pn[j]).start_row by {
            assert(node_is_view(t.nodes@[i], pn[i]));
            assert(node_is_view(t.nodes@[j], pn[j]));
        }
    }
    if parse_fits(lang, src) {
        assert forall|i: int| 0 <= i < t.nodes@.len() implies node_fits(
            #[trigger] t.nodes@[i],
            src.len(),
        ) by {
            assert(node_is_view(t.nodes@[i], pn[i]));
            assert(view_fits(pn[i], src.len()));
        }
        assert forall|i: int, j: int| 0 <= i <= j < t.nodes@.len() implies (
        #[trigger] t.nodes@[i]).start_row <= (#[trigger] t.nodes@[j]).start_row by {
            assert(node_is_view(t.nodes@[i], pn[i]));
            assert(node_is_view(t.nodes@[j], pn[j]));
            assert(pn[i].start_row <= pn[j].start_row);
        }
    }
}

/// Extracts and fingerprints every function of `src` in `lang`. `file` is
/// the caller's id for the file, stamped on each unit; `file_is_test`
/// marks all units as test code, and in a Rust file the functions from a
/// `#[cfg(test)]` inline module on are marked too. `None` exactly when the
/// file cannot be parsed or the function query not compiled, or the tree
/// is empty, has more than `u32::MAX` nodes or nodes whose rows or byte
/// ranges do not fit the text and `u32`, or nodes that start on an earlier
/// row than the node before them (neither of which tree-sitter gives for a
/// real file). The result
/// is what `analyze_tree` gives for the parsed tree and the query's
/// matches over it.
pub fn analyze_source(file: u32, lang: Lang, src: &str, min_tokens: usize, file_is_test: bool) -> (r:
    Option<FileAnalysis>)
    ensures
        r is Some <==> analyzable(lang, src.spec_bytes()),
        r matches Some(fa) ==> exists|t: SyntaxTree|
            {
                &&& is_parse_of(t, lang, src.spec_bytes())
                &&& fa@ == spec_file_analysis(
                    file,
                    lang,
                    src.spec_bytes(),
                    min_tokens,
                    file_is_test,
                    t,
                    resolve_matches(
                        t,
                        matches_of(lang, spec_query_source(lang)@, src.spec_bytes()),
                    ),
                    slots_of(lang, spec_query_source(lang)@),
                )
            },
        r matches Some(fa) ==> forall|i: int|
            0 <= i < fa.functions@.len() ==> strictly_sorted(
                (#[trigger] fa.functions@[i]).fingerprints@,
            ),
        r matches Some(fa) ==> forall|i: int|
            0 <= i < fa@.functions.len() ==> placed(
                #[trigger] fa@.functions[i],
                file,
                lang,
                src.spec_bytes().len(),
            ) && fa@.functions[i].fingerprints.len() > 0,
{
    let ghost sb = src.spec_bytes();
    let parsed = match parse_file(&lang.grammar(), src.as_bytes()) {
        Some(p) => p,
        None => return None,
    };
    let t = &parsed.syntax;
    proof {
        lemma_fits_of_parse(*t, lang, sb);
    }
    if t.nodes.len() == 0 || t.nodes.len() > 0xffff_ffff {
        return None;
    }
    if !tree_fits_exec(t, src.as_bytes().len()) {
        return None;
    }
    let query = match lang.query() {
        Some(q) => q,
        None => return None,
    };
    let slots = slots_exec(&query);
    let found = ts_query_matches(&query, &parsed.source);
    let matches = resolve_matches_exec(t, &found);
    let fa = analyze_tree(file, lang, src, min_tokens, file_is_test, t, &matches, slots);
    proof {
        let ms = matches@.map_values(|m: Vec<(u32, usize)>| m@);
        let boundary = spec_test_boundary(lang, sb, file_is_test);
        law_units_are_placed(file, lang, *t, sb, ms, slots, min_tokens, file_is_test, boundary);
        law_units_are_fingerprinted(file, lang, *t, sb, ms, slots, min_tokens, file_is_test, boundary);
    }
    Some(fa)
}

/// A type needs at least this many distinct member signatures to be
/// compared; below it the shape is too generic to mean anything.
pub const SHAPE_MIN_MEMBERS: usize = 3;

/// Declaration kinds that are nested types rather than members.
pub open spec fn is_nested_type_kind(k: Seq<u8>) -> bool {
    ||| k == "class_declaration".spec_bytes()
    ||| k == "struct_declaration".spec_bytes()
    ||| k == "record_declaration".spec_bytes()
    ||| k == "interface_declaration".spec_bytes()
    ||| k == "enum_declaration".spec_bytes()
    ||| k == "delegate_declaration".spec_bytes()
    ||| k == "namespace_declaration".spec_bytes()
}

pub open spec fn spec_is_shape_member(k: Seq<u8>) -> bool {
    ends_with(k, "_declaration".spec_bytes()) && !is_nested_type_kind(k)
}

fn is_shape_member_bytes(kind: &[u8]) -> (r: bool)
    ensures
        r == spec_is_shape_member(kind@),
{
    crate::text::ends_with_bytes(kind, "_declaration".as_bytes()) && !(crate::text::bytes_eq(
        kind,
        "class_declaration".as_bytes(),
    ) || crate::text::bytes_eq(kind, "struct_declaration".as_bytes()) || crate::text::bytes_eq(
        kind,
        "record_declaration".as_bytes(),
    ) || crate::text::bytes_eq(kind, "interface_declaration".as_bytes()) || crate::text::bytes_eq(
        kind,
        "enum_declaration".as_bytes(),
    ) || crate::text::bytes_eq(kind, "delegate_declaration".as_bytes()) || crate::text::bytes_eq(
        kind,
        "namespace_declaration".as_bytes(),
    ))
}

/// True for declaration kinds that are real members of a type (property,
/// field, method, constructor, event, indexer, operator) rather than nested
/// types.
pub fn is_shape_member(kind: &str) -> (r: bool)
    ensures
        r == spec_is_shape_member(kind.spec_bytes()),
{
    is_shape_member_bytes(kind.as_bytes())
}

/// Kinds that start a member's body: method blocks, property accessor
/// lists, expression bodies.
pub open spec fn is_body_kind(k: Seq<u8>) -> bool {
    k == "block".spec_bytes() || k == "accessor_list".spec_bytes() || k
        == "arrow_expression_clause".spec_bytes()
}

/// The first of the nodes `cs` whose kind starts a body.
pub open spec fn first_body_child(t: SyntaxTree, cs: Seq<usize>) -> Option<usize>
    decreases cs.len(),
{
    if cs.len() == 0 {
        None
    } else if is_body_kind(t.nodes@[cs[0] as int].kind@) {
        Some(cs[0])
    } else {
        first_body_child(t, cs.drop_first())
    }
}

/// `s` without its trailing `;` and `{` characters.
pub open spec fn trim_end_semi_brace(s: Seq<u8>) -> Seq<u8>
    decreases s.len(),
{
    if s.len() > 0 && (s.last() == 59 || s.last() == 123) {
        trim_end_semi_brace(s.drop_last())
    } else {
        s
    }
}

/// A member's signature: its source text up to its body, trimmed, with
/// trailing `;`/`{` dropped and whitespace collapsed; `None` when that
/// range is not text of `src` or nothing is left.
pub open spec fn spec_member_signature(t: SyntaxTree, m: int, src: Seq<u8>) -> Option<Seq<u8>> {
    let start = t.nodes@[m].start_byte as int;
    let end = match first_body_child(t, t.nodes@[m].children@) {
        Some(c) => t.nodes@[c as int].start_byte as int,
        None => t.nodes@[m].end_byte as int,
    };
    if start <= end <= src.len() && is_char_boundary(src, start) && is_char_boundary(src, end) {
        let trimmed = trim_end(trim_end_semi_brace(trim_start(trim_end(src.subrange(start, end)))));
        if trimmed.len() == 0 {
            None
        } else {
            Some(collapse_ws(trimmed))
        }
    } else {
        None
    }
}

/// The type of constructor parameter `c`, whitespace collapsed: only for a
/// named `parameter` whose `type` child's text is UTF-8.
pub open spec fn param_type(t: SyntaxTree, c: int, src: Seq<u8>) -> Option<Seq<u8>> {
    if t.nodes@[c].named && kind_is(t, c, "parameter".spec_bytes()) {
        match child_by_field(t, c, "type".spec_bytes()) {
            Some(ty) => match node_text(t, ty as int, src) {
                Some(b) => if valid_utf8(b) {
                    Some(collapse_ws(b))
                } else {
                    None
                },
                None => None,
            },
            None => None,
        }
    } else {
        None
    }
}

/// The parameter types among the nodes `cs`, in order.
pub open spec fn param_types(t: SyntaxTree, cs: Seq<usize>, src: Seq<u8>) -> Seq<Seq<u8>>
    decreases cs.len(),
{
    if cs.len() == 0 {
        Seq::empty()
    } else {
        let prev = param_types(t, cs.drop_last(), src);
        match param_type(t, cs.last() as int, src) {
            Some(x) => prev.push(x),
            None => prev,
        }
    }
}

/// `ts` joined with `, `.
pub open spec fn join_comma(ts: Seq<Seq<u8>>) -> Seq<u8>
    decreases ts.len(),
{
    if ts.len() == 0 {
        Seq::empty()
    } else if ts.len() == 1 {
        ts[0]
    } else {
        join_comma(ts.drop_last()) + ", ".spec_bytes() + ts.last()
    }
}

/// The canonical constructor signature of parameter list `pl`:
/// `ctor(` + its parameter types joined with `, ` + `)`.
pub open spec fn spec_constructor_signature(t: SyntaxTree, pl: int, src: Seq<u8>) -> Seq<u8> {
    "ctor(".spec_bytes() + join_comma(param_types(t, t.nodes@[pl].children@, src))
        + ")".spec_bytes()
}

fn first_body_child_exec(t: &SyntaxTree, m: usize) -> (r: Option<usize>)
    requires
        t.wf(),
        m < t.nodes@.len(),
    ensures
        r == first_body_child(*t, t.nodes@[m as int].children@),
        r matches Some(c) ==> c < t.nodes@.len(),
{
    proof {
        t.lemma_node(m as int);
    }
    let cs = &t.nodes[m].children;
    let ghost all = cs@;
    assert(all.skip(0) =~= all);
    let mut k: usize = 0;
    while k < cs.len()
        invariant
            forall|j: int| 0 <= j < all.len() ==> #[trigger] all[j] < t.nodes@.len(),
            m < t.nodes@.len(),
            all == t.nodes@[m as int].children@,
            cs@ == all,
            k <= all.len(),
            first_body_child(*t, all) == first_body_child(*t, all.skip(k as int)),
        decreases all.len() - k,
    {
        let c = cs[k];
        assert(all.skip(k as int)[0] == c);
        assert(all.skip(k as int).drop_first() =~= all.skip(k + 1));
        let kind = t.nodes[c].kind.as_slice();
        if crate::text::bytes_eq(kind, "block".as_bytes()) || crate::text::bytes_eq(
            kind,
            "accessor_list".as_bytes(),
        ) || crate::text::bytes_eq(kind, "arrow_expression_clause".as_bytes()) {
            return Some(c);
        }
        k += 1;
    }
    assert(all.skip(k as int).len() == 0);
    None
}

/// A single member's signature: its source text up to its body (block,
/// accessors or arrow), trailing punctuation stripped and whitespace
/// collapsed. Identifiers and types are kept, so `int Age` and
/// `string Name` differ.
fn member_signature(t: &SyntaxTree, m: usize, src: &str) -> (r: Option<Vec<u8>>)
    requires
        t.wf(),
        m < t.nodes@.len(),
    ensures
        match r {
            Some(v) => spec_member_signature(*t, m as int, src.spec_bytes()) == Some(v@),
            None => spec_member_signature(*t, m as int, src.spec_bytes()) is None,
        },
{
    let start = t.nodes[m].start_byte;
    let end = match first_body_child_exec(t, m) {
        Some(c) => t.nodes[c].start_byte,
        None => t.nodes[m].end_byte,
    };
    let raw = match str_get(src, start, end) {
        Some(r) => r,
        None => return None,
    };
    let rb = raw.as_bytes();
    let e1 = trim_end_to(rb, rb.len());
    assert(rb@.subrange(0, rb@.len() as int) =~= rb@);
    let s1 = crate::walk::slice_range(rb, 0, e1);
    let a1 = trim_start_from(s1, 0);
    assert(s1@.subrange(0, s1@.len() as int) =~= s1@);
    let s2 = crate::walk::slice_from(s1, a1);
    let mut e2 = s2.len();
    assert(s2@.subrange(0, e2 as int) =~= s2@);
    while e2 > 0 && (s2[e2 - 1] == 59 || s2[e2 - 1] == 123)
        invariant
            e2 <= s2@.len(),
            trim_end_semi_brace(s2@) == trim_end_semi_brace(s2@.subrange(0, e2 as int)),
        decreases e2,
    {
        assert(s2@.subrange(0, e2 as int).drop_last() =~= s2@.subrange(0, e2 - 1));
        e2 -= 1;
    }
    let e3 = trim_end_to(s2, e2);
    if e3 == 0 {
        return None;
    }
    Some(collapse_whitespace(crate::walk::slice_range(s2, 0, e3)))
}

fn param_type_exec(t: &SyntaxTree, c: usize, src: &[u8]) -> (r: Option<Vec<u8>>)
    requires
        t.wf(),
        c < t.nodes@.len(),
    ensures
        match r {
            Some(v) => param_type(*t, c as int, src@) == Some(v@),
            None => param_type(*t, c as int, src@) is None,
        },
{
    if !t.nodes[c].named || !t.kind_is(c, "parameter".as_bytes()) {
        return None;
    }
    let ty = match t.child_by_field_name(c, "type".as_bytes()) {
        Some(ty) => ty,
        None => return None,
    };
    let b = match t.text(ty, src) {
        Some(b) => b,
        None => return None,
    };
    match utf8_str(b) {
        Some(_) => Some(collapse_whitespace(b)),
        None => None,
    }
}

fn append_bytes(out: &mut Vec<u8>, b: &[u8])
    ensures
        final(out)@ == old(out)@ + b@,
{
    let mut i: usize = 0;
    while i < b.len()
        invariant
            i <= b@.len(),
            out@ == old(out)@ + b@.subrange(0, i as int),
        decreases b@.len() - i,
    {
        out.push(b[i]);
        assert(b@.subrange(0, i + 1) =~= b@.subrange(0, i as int).push(b@[i as int]));
        i += 1;
    }
    assert(b@.subrange(0, b@.len() as int) =~= b@);
}

/// Canonical constructor signature: just the parameter types, e.g.
/// `ctor(Graph)`. A classic `constructor_declaration` and a C# primary
/// constructor on the class header both normalize to it, so the two forms
/// of the same class match.
fn constructor_signature(t: &SyntaxTree, pl: usize, src: &[u8]) -> (r: Vec<u8>)
    requires
        t.wf(),
        pl < t.nodes@.len(),
    ensures
        r@ == spec_constructor_signature(*t, pl as int, src@),
{
    proof {
        t.lemma_node(pl as int);
    }
    let cs = &t.nodes[pl].children;
    let ghost all = cs@;
    let mut joined: Vec<u8> = Vec::new();
    let mut any = false;
    let mut k: usize = 0;
    while k < cs.len()
        invariant
            any == (param_types(*t, all.take(k as int), src@).len() > 0),
            t.wf(),
            forall|j: int| 0 <= j < all.len() ==> #[trigger] all[j] < t.nodes@.len(),
            cs@ == all,
            k <= all.len(),
            joined@ == join_comma(param_types(*t, all.take(k as int), src@)),
        decreases all.len() - k,
    {
        let c = cs[k];
        let ghost before = param_types(*t, all.take(k as int), src@);
        assert(all.take(k + 1).drop_last() =~= all.take(k as int));
        assert(all.take(k + 1).last() == c);
        match param_type_exec(t, c, src) {
            Some(ty) => {
                if any {
                    append_bytes(&mut joined, ", ".as_bytes());
                }
                append_bytes(&mut joined, ty.as_slice());
                any = true;
                proof {
                    let after = before.push(ty@);
                    assert(after.drop_last() =~= before);
                    if before.len() == 0 {
                        assert(joined@ =~= ty@);
                    }
                }
            },
            None => {},
        }
        k += 1;
    }
    assert(all.take(all.len() as int) =~= all);
    let mut out: Vec<u8> = Vec::new();
    append_bytes(&mut out, "ctor(".as_bytes());
    append_bytes(&mut out, joined.as_slice());
    append_bytes(&mut out, ")".as_bytes());
    out
}

/// The signature member `m` of a type body contributes, if any: only named
/// members of a member kind; a constructor by its parameter types, any
/// other member by its text up to its body.
pub open spec fn member_sig(t: SyntaxTree, m: int, src: Seq<u8>) -> Option<Seq<u8>> {
    if !t.nodes@[m].named || !spec_is_shape_member(t.nodes@[m].kind@) {
        None
    } else if kind_is(t, m, "constructor_declaration".spec_bytes()) {
        match child_by_field(t, m, "parameters".spec_bytes()) {
            Some(pl) => Some(spec_constructor_signature(t, pl as int, src)),
            None => None,
        }
    } else {
        spec_member_signature(t, m, src)
    }
}

/// The member signatures among the nodes `cs`, in order.
pub open spec fn member_sigs(t: SyntaxTree, cs: Seq<usize>, src: Seq<u8>) -> Seq<Seq<u8>>
    decreases cs.len(),
{
    if cs.len() == 0 {
        Seq::empty()
    } else {
        let prev = member_sigs(t, cs.drop_last(), src);
        match member_sig(t, cs.last() as int, src) {
            Some(g) => prev.push(g),
            None => prev,
        }
    }
}

/// The first of the nodes `cs` of kind `kind`.
pub open spec fn first_of_kind(t: SyntaxTree, cs: Seq<usize>, kind: Seq<u8>) -> Option<usize>
    decreases cs.len(),
{
    if cs.len() == 0 {
        None
    } else if t.nodes@[cs[0] as int].kind@ == kind {
        Some(cs[0])
    } else {
        first_of_kind(t, cs.drop_first(), kind)
    }
}

/// All signatures of a type: its body's member signatures, then, for a C#
/// primary constructor (a `parameter_list` child of the declaration), the
/// constructor signature it stands for.
pub open spec fn shape_sigs(t: SyntaxTree, body: int, func: int, src: Seq<u8>) -> Seq<Seq<u8>> {
    let ms = member_sigs(t, t.nodes@[body].children@, src);
    match first_of_kind(t, t.nodes@[func].children@, "parameter_list".spec_bytes()) {
        Some(pl) => ms.push(spec_constructor_signature(t, pl as int, src)),
        None => ms,
    }
}

/// The hash of a signature: `FxHasher` over it as a `str` (the empty text
/// if the bytes were not UTF-8).
pub open spec fn sig_hash(sig: Seq<u8>) -> u64 {
    fx_str_hash(utf8_or_empty(sig))
}

/// The values of `hs`, distinct and in ascending order.
pub open spec fn sorted_distinct(hs: Seq<u64>) -> Seq<u64> {
    sorted_set_of(hs)
}

pub proof fn lemma_sorted_distinct(hs: Seq<u64>, v: Seq<u64>)
    requires
        strictly_sorted(v),
        forall|x: u64| v.contains(x) <==> hs.contains(x),
    ensures
        sorted_distinct(hs) == v,
{
    lemma_sorted_set_of(hs);
    lemma_strictly_sorted_unique(sorted_distinct(hs), v);
}

/// A type's shape fingerprints: the hashes of its signatures, distinct
/// and sorted.
pub open spec fn shape_fingerprints(t: SyntaxTree, body: int, func: int, src: Seq<u8>) -> Seq<u64> {
    sorted_distinct(shape_sigs(t, body, func, src).map_values(|g: Seq<u8>| sig_hash(g)))
}

/// The shape unit one match of the shape query yields: none without a
/// body and a declaration node, nor with fewer than `SHAPE_MIN_MEMBERS`
/// distinct signatures. Its `sig_lines` is its number of signatures.
pub open spec fn spec_shape_unit(
    file: u32,
    lang: Lang,
    t: SyntaxTree,
    src: Seq<u8>,
    caps: Seq<(u32, usize)>,
    s: CaptureSlots,
    file_is_test: bool,
) -> Option<UnitView> {
    match (captured(t, caps, s, 1), captured(t, caps, s, 2)) {
        (Some(body), Some(func)) => {
            let fps = shape_fingerprints(t, body as int, func as int, src);
            let f = t.nodes@[func as int];
            if fps.len() < SHAPE_MIN_MEMBERS {
                None
            } else {
                Some(
                    UnitView {
                        file,
                        lang,
                        name: unit_name(t, captured(t, caps, s, 0), src),
                        start_line: ((f.start_row as u32) + 1) as u32,
                        end_line: ((f.end_row as u32) + 1) as u32,
                        start_byte: f.start_byte as u32,
                        end_byte: f.end_byte as u32,
                        sig_lines: fps.len() as u32,
                        fingerprints: fps,
                        is_test: file_is_test,
                        is_trait_impl_method: false,
                    },
                )
            }
        },
        _ => None,
    }
}

/// The shape units of the matches `ms`, in match order.
pub open spec fn spec_shapes(
    file: u32,
    lang: Lang,
    t: SyntaxTree,
    src: Seq<u8>,
    ms: Seq<Seq<(u32, usize)>>,
    s: CaptureSlots,
    file_is_test: bool,
) -> Seq<UnitView>
    decreases ms.len(),
{
    if ms.len() == 0 {
        Seq::empty()
    } else {
        let prev = spec_shapes(file, lang, t, src, ms.drop_last(), s, file_is_test);
        match spec_shape_unit(file, lang, t, src, ms.last(), s, file_is_test) {
            Some(u) => prev.push(u),
            None => prev,
        }
    }
}

fn member_sig_exec(t: &SyntaxTree, m: usize, src: &str) -> (r: Option<Vec<u8>>)
    requires
        t.wf(),
        m < t.nodes@.len(),
    ensures
        match r {
            Some(v) => member_sig(*t, m as int, src.spec_bytes()) == Some(v@),
            None => member_sig(*t, m as int, src.spec_bytes()) is None,
        },
{
    if !t.nodes[m].named || !is_shape_member_bytes(t.nodes[m].kind.as_slice()) {
        return None;
    }
    if t.kind_is(m, "constructor_declaration".as_bytes()) {
        match t.child_by_field_name(m, "parameters".as_bytes()) {
            Some(pl) => Some(constructor_signature(t, pl, src.as_bytes())),
            None => None,
        }
    } else {
        member_signature(t, m, src)
    }
}

fn sig_hash_exec(sig: &[u8]) -> (r: u64)
    ensures
        r == sig_hash(sig@),
{
    let text = match utf8_str(sig) {
        Some(text) => text,
        None => "",
    };
    proof {
        reveal_strlit("");
    }
    fx_hash_str(text)
}

fn first_of_kind_exec(t: &SyntaxTree, p: usize, kind: &[u8]) -> (r: Option<usize>)
    requires
        t.wf(),
        p < t.nodes@.len(),
    ensures
        r == first_of_kind(*t, t.nodes@[p as int].children@, kind@),
        r matches Some(c) ==> c < t.nodes@.len(),
{
    proof {
        t.lemma_node(p as int);
    }
    let cs = &t.nodes[p].children;
    let ghost all = cs@;
    assert(all.skip(0) =~= all);
    let mut k: usize = 0;
    while k < cs.len()
        invariant
            forall|j: int| 0 <= j < all.len() ==> #[trigger] all[j] < t.nodes@.len(),
            p < t.nodes@.len(),
            all == t.nodes@[p as int].children@,
            cs@ == all,
            k <= all.len(),
            first_of_kind(*t, all, kind@) == first_of_kind(*t, all.skip(k as int), kind@),
        decreases all.len() - k,
    {
        let c = cs[k];
        assert(all.skip(k as int)[0] == c);
        assert(all.skip(k as int).drop_first() =~= all.skip(k + 1));
        if crate::text::bytes_eq(t.nodes[c].kind.as_slice(), kind) {
            return Some(c);
        }
        k += 1;
    }
    assert(all.skip(k as int).len() == 0);
    None
}

fn shape_from_match(
    ids: &HashMap<usize, usize>,
    file: u32,
    lang: Lang,
    t: &SyntaxTree,
    src: &str,
    caps: &Vec<(u32, usize)>,
    s: CaptureSlots,
    file_is_test: bool,
) -> (r: Option<FunctionUnit>)
    requires
        indexes_ids(*t, ids@),
        t.wf(),
        t.nodes@.len() <= u32::MAX,
        tree_fits(*t, src.spec_bytes().len()),
    ensures
        match r {
            Some(u) => spec_shape_unit(file, lang, *t, src.spec_bytes(), caps@, s, file_is_test)
                == Some(u@) && strictly_sorted(u.fingerprints@),
            None => spec_shape_unit(file, lang, *t, src.spec_bytes(), caps@, s, file_is_test) is None,
        },
{
    proof {
        reveal(tree_fits);
    }
    let ghost sb = src.spec_bytes();
    let (name, body, func) = pick_captures(ids, t, caps, s);
    let (body, func) = match (body, func) {
        (Some(b), Some(f)) => (b, f),
        _ => return None,
    };
    proof {
        t.lemma_node(body as int);
    }
    let cs = &t.nodes[body].children;
    let ghost all = cs@;
    let mut fps: Vec<u64> = Vec::new();
    let mut k: usize = 0;
    while k < cs.len()
        invariant
            t.wf(),
            forall|j: int| 0 <= j < all.len() ==> #[trigger] all[j] < t.nodes@.len(),
            cs@ == all,
            sb == src.spec_bytes(),
            k <= all.len(),
            strictly_sorted(fps@),
            forall|x: u64|
                fps@.contains(x) <==> member_sigs(*t, all.take(k as int), sb).map_values(
                    |g: Seq<u8>| sig_hash(g),
                ).contains(x),
        decreases all.len() - k,
    {
        let c = cs[k];
        let ghost before = member_sigs(*t, all.take(k as int), sb);
        let ghost old_fps = fps@;
        assert(all.take(k + 1).drop_last() =~= all.take(k as int));
        assert(all.take(k + 1).last() == c);
        match member_sig_exec(t, c, src) {
            Some(sig) => {
                let h = sig_hash_exec(sig.as_slice());
                insert_sorted(&mut fps, h);
                proof {
                    let hb = before.map_values(|g: Seq<u8>| sig_hash(g));
                    let ha = before.push(sig@).map_values(|g: Seq<u8>| sig_hash(g));
                    assert(ha =~= hb.push(h));
                    assert forall|x: u64| fps@.contains(x) <==> ha.contains(x) by {
                        if hb.contains(x) {
                            let i = choose|i: int| 0 <= i < hb.len() && hb[i] == x;
                            assert(ha[i] == x);
                        }
                        if ha.contains(x) {
                            let i = choose|i: int| 0 <= i < ha.len() && ha[i] == x;
                            if i < hb.len() {
                                assert(hb[i] == x);
                            }
                        }
                        if x == h {
                            assert(ha[hb.len() as int] == x);
                        }
                    }
                }
            },
            None => {},
        }
        k += 1;
    }
    assert(all.take(all.len() as int) =~= all);
    assert(all == t.nodes@[body as int].children@);
    let ghost ms = member_sigs(*t, all, sb);
    match first_of_kind_exec(t, func, "parameter_list".as_bytes()) {
        Some(pl) => {
            let sig = constructor_signature(t, pl, src.as_bytes());
            let h = sig_hash_exec(sig.as_slice());
            let ghost old_fps = fps@;
            insert_sorted(&mut fps, h);
            proof {
                let hb = ms.map_values(|g: Seq<u8>| sig_hash(g));
                let ha = ms.push(sig@).map_values(|g: Seq<u8>| sig_hash(g));
                assert(ha =~= hb.push(h));
                assert forall|x: u64| fps@.contains(x) <==> ha.contains(x) by {
                    if hb.contains(x) {
                        let i = choose|i: int| 0 <= i < hb.len() && hb[i] == x;
                        assert(ha[i] == x);
                    }
                    if ha.contains(x) {
                        let i = choose|i: int| 0 <= i < ha.len() && ha[i] == x;
                        if i < hb.len() {
                            assert(hb[i] == x);
                        }
                    }
                    if x == h {
                        assert(ha[hb.len() as int] == x);
                    }
                }
                lemma_sorted_distinct(ha, fps@);
            }
        },
        None => {
            proof {
                lemma_sorted_distinct(ms.map_values(|g: Seq<u8>| sig_hash(g)), fps@);
            }
        },
    }
    if fps.len() < SHAPE_MIN_MEMBERS {
        return None;
    }
    let name_text = unit_name_exec(t, name, src.as_bytes());
    let n = &t.nodes[func];
    let count = fps.len() as u32;
    Some(
        FunctionUnit {
            file,
            lang,
            name: name_text,
            start_line: n.start_row as u32 + 1,
            end_line: n.end_row as u32 + 1,
            start_byte: n.start_byte as u32,
            end_byte: n.end_byte as u32,
            sig_lines: count,
            fingerprints: fps,
            is_test: file_is_test,
            is_trait_impl_method: false,
        },
    )
}

/// The class shapes of `src`, given its syntax tree `t` and the shape
/// query's matches over it, with `slots` the query's capture indices. A
/// type yields a unit whose fingerprints are the hashes of its member
/// signatures (bodies dropped, identifiers kept), distinct and sorted,
/// when it has at least `SHAPE_MIN_MEMBERS` of them; units keep match
/// order.
pub fn shapes_tree(
    file: u32,
    lang: Lang,
    src: &str,
    file_is_test: bool,
    t: &SyntaxTree,
    matches: &Vec<Vec<(u32, usize)>>,
    slots: CaptureSlots,
) -> (r: Vec<FunctionUnit>)
    requires
        t.wf(),
        t.nodes@.len() <= u32::MAX,
        tree_fits(*t, src.spec_bytes().len()),
    ensures
        r@.map_values(|f: FunctionUnit| f@) == spec_shapes(
            file,
            lang,
            *t,
            src.spec_bytes(),
            matches@.map_values(|m: Vec<(u32, usize)>| m@),
            slots,
            file_is_test,
        ),
        forall|i: int|
            0 <= i < r@.len() ==> strictly_sorted((#[trigger] r@[i]).fingerprints@),
{
    let ghost ms = matches@.map_values(|m: Vec<(u32, usize)>| m@);
    let ghost sb = src.spec_bytes();
    let ids = id_index(t);
    let mut units: Vec<FunctionUnit> = Vec::new();
    let mut i: usize = 0;
    while i < matches.len()
        invariant
            indexes_ids(*t, ids@),
            t.wf(),
            t.nodes@.len() <= u32::MAX,
            tree_fits(*t, src.spec_bytes().len()),
            sb == src.spec_bytes(),
            ms == matches@.map_values(|m: Vec<(u32, usize)>| m@),
            i <= matches@.len(),
            units@.map_values(|f: FunctionUnit| f@) == spec_shapes(
                file,
                lang,
                *t,
                sb,
                ms.take(i as int),
                slots,
                file_is_test,
            ),
            forall|j: int|
                0 <= j < units@.len() ==> strictly_sorted((#[trigger] units@[j]).fingerprints@),
        decreases matches@.len() - i,
    {
        let ghost before = units@;
        let u = shape_from_match(&ids, file, lang, t, src, &matches[i], slots, file_is_test);
        proof {
            assert(ms.take(i + 1).drop_last() =~= ms.take(i as int));
            assert(ms.take(i + 1).last() == matches@[i as int]@);
        }
        match u {
            Some(unit) => {
                units.push(unit);
                proof {
                    assert(units@.map_values(|f: FunctionUnit| f@) =~= before.map_values(
                        |f: FunctionUnit| f@,
                    ).push(units@.last()@));
                }
            },
            None => {},
        }
        i += 1;
    }
    proof {
        assert(ms.take(matches@.len() as int) =~= ms);
    }
    units
}

/// When `extract_class_shapes` can have units: the language is C#, its
/// shape query compiles, and the file parses into a tree of at most
/// `u32::MAX` nodes that fit the text.
pub open spec fn shapes_analyzable(lang: Lang, src: Seq<u8>) -> bool {
    &&& lang == Lang::Csharp
    &&& query_compiles(lang, CSHARP_SHAPE_QUERY@)
    &&& parse_ok(lang, src)
    &&& node_count_of(lang, src) <= u32::MAX
    &&& parse_fits(lang, src)
}

/// Extracts one class-shape unit per type declaration whose set of member
/// signatures is large enough to be meaningful: a separate track from the
/// function bodies, for languages with a shape query (C#). Empty for other
/// languages, and when the file cannot be parsed or the query not
/// compiled, or (beyond any real file) the tree has more than `u32::MAX`
/// nodes or nodes that do not fit the text. Otherwise the result is what
/// `shapes_tree` gives for the parsed tree and the query's matches.
pub fn extract_class_shapes(file: u32, lang: Lang, src: &str, file_is_test: bool) -> (r: Vec<
    FunctionUnit,
>)
    ensures
        !shapes_analyzable(lang, src.spec_bytes()) ==> r@.len() == 0,
        shapes_analyzable(lang, src.spec_bytes()) ==> exists|t: SyntaxTree|
            {
                &&& is_parse_of(t, lang, src.spec_bytes())
                &&& r@.map_values(|f: FunctionUnit| f@) == spec_shapes(
                    file,
                    lang,
                    t,
                    src.spec_bytes(),
                    resolve_matches(t, matches_of(lang, CSHARP_SHAPE_QUERY@, src.spec_bytes())),
                    slots_of(lang, CSHARP_SHAPE_QUERY@),
                    file_is_test,
                )
            },
        forall|i: int| 0 <= i < r@.len() ==> strictly_sorted((#[trigger] r@[i]).fingerprints@),
        forall|i: int|
            0 <= i < r@.len() ==> {
                let u = (#[trigger] r@[i])@;
                &&& placed(u, file, lang, src.spec_bytes().len())
                &&& u.is_test == file_is_test
                &&& !u.is_trait_impl_method
                &&& u.fingerprints.len() >= SHAPE_MIN_MEMBERS
                &&& u.sig_lines == u.fingerprints.len() as u32
            },
{
    let ghost sb = src.spec_bytes();
    let query = match lang.shape_query() {
        Some(q) => q,
        None => return Vec::new(),
    };
    let parsed = match parse_file(&lang.grammar(), src.as_bytes()) {
        Some(p) => p,
        None => return Vec::new(),
    };
    let t = &parsed.syntax;
    proof {
        lemma_fits_of_parse(*t, lang, sb);
    }
    if t.nodes.len() > 0xffff_ffff || !tree_fits_exec(t, src.as_bytes().len()) {
        return Vec::new();
    }
    let slots = slots_exec(&query);
    let found = ts_query_matches(&query, &parsed.source);
    let matches = resolve_matches_exec(t, &found);
    let units = shapes_tree(file, lang, src, file_is_test, t, &matches, slots);
    proof {
        let ms = matches@.map_values(|m: Vec<(u32, usize)>| m@);
        law_shapes_are_placed(file, lang, *t, sb, ms, slots, file_is_test);
        assert forall|i: int| 0 <= i < units@.len() implies {
            let u = (#[trigger] units@[i])@;
            &&& placed(u, file, lang, sb.len())
            &&& u.is_test == file_is_test
            &&& !u.is_trait_impl_method
            &&& u.fingerprints.len() >= SHAPE_MIN_MEMBERS
            &&& u.sig_lines == u.fingerprints.len() as u32
        } by {
            assert(units@.map_values(|f: FunctionUnit| f@)[i] == units@[i]@);
        }
    }
    units
}

/// Every unit the analysis reports carries fingerprints: a body with none
/// (too short for a k-gram) is never reported, and the fingerprints are
/// distinct and ascending.
pub proof fn law_units_are_fingerprinted(
    file: u32,
    lang: Lang,
    t: SyntaxTree,
    src: Seq<u8>,
    ms: Seq<Seq<(u32, usize)>>,
    s: CaptureSlots,
    min_tokens: usize,
    file_is_test: bool,
    boundary: Option<u32>,
)
    ensures
        forall|i: int|
            0 <= i < spec_units(file, lang, t, src, ms, s, min_tokens, file_is_test, boundary).len()
                ==> (#[trigger] spec_units(
                file,
                lang,
                t,
                src,
                ms,
                s,
                min_tokens,
                file_is_test,
                boundary,
            )[i]).fingerprints.len() > 0 && strictly_sorted(
                spec_units(file, lang, t, src, ms, s, min_tokens, file_is_test, boundary)[i].fingerprints,
            ),
    decreases ms.len(),
{
    if ms.len() > 0 {
        law_units_are_fingerprinted(
            file,
            lang,
            t,
            src,
            ms.drop_last(),
            s,
            min_tokens,
            file_is_test,
            boundary,
        );
        let prev = spec_units(
            file,
            lang,
            t,
            src,
            ms.drop_last(),
            s,
            min_tokens,
            file_is_test,
            boundary,
        );
        let cur = spec_units(file, lang, t, src, ms, s, min_tokens, file_is_test, boundary);
        match spec_unit(file, lang, t, src, ms.last(), s, min_tokens, file_is_test, boundary) {
            Some(u) => {
                crate::fingerprint::lemma_fingerprints_of_selected(
                    spec_normalize_codes(
                        t,
                        captured(t, ms.last(), s, 1).unwrap() as int,
                        src,
                    ),
                );
                assert forall|i: int| 0 <= i < cur.len() implies (#[trigger] cur[i]).fingerprints.len()
                    > 0 && strictly_sorted(cur[i].fingerprints) by {
                    if i < prev.len() {
                        assert(cur[i] == prev[i]);
                    }
                }
            },
            None => {},
        }
    }
}

proof fn lemma_node_from_range(t: SyntaxTree, id: usize, k: int)
    requires
        0 <= k,
    ensures
        node_from(t, id, k) matches Some(j) ==> k <= j < t.nodes@.len(),
    decreases t.nodes@.len() - k,
{
    assert(t.nodes@.len() == t.nodes.len());
    if 0 <= k < t.nodes@.len() && t.nodes@[k].id != id {
        lemma_node_from_range(t, id, k + 1);
    }
}

/// A unit sits where its file says: stamped with the file and language,
/// its lines 1-based and in order, its byte range in order inside the text.
pub open spec fn placed(u: UnitView, file: u32, lang: Lang, len: nat) -> bool {
    &&& u.file == file
    &&& u.lang == lang
    &&& 1 <= u.start_line <= u.end_line
    &&& u.start_byte <= u.end_byte <= len
}

proof fn lemma_captured_fits(t: SyntaxTree, caps: Seq<(u32, usize)>, s: CaptureSlots, slot: int, len: nat)
    requires
        tree_fits(t, len),
    ensures
        captured(t, caps, s, slot) matches Some(f) ==> f < t.nodes@.len() && node_fits(
            t.nodes@[f as int],
            len,
        ),
{
    reveal(tree_fits);
    if let Some(id) = last_in_slot(caps, s, slot) {
        lemma_node_from_range(t, id, 0);
    }
}

/// Every unit of a tree whose nodes fit the text is placed in it: right
/// file and language, lines 1-based and in order, bytes in order within the
/// text.
pub proof fn law_units_are_placed(
    file: u32,
    lang: Lang,
    t: SyntaxTree,
    src: Seq<u8>,
    ms: Seq<Seq<(u32, usize)>>,
    s: CaptureSlots,
    min_tokens: usize,
    file_is_test: bool,
    boundary: Option<u32>,
)
    requires
        tree_fits(t, src.len()),
    ensures
        forall|i: int|
            0 <= i < spec_units(file, lang, t, src, ms, s, min_tokens, file_is_test, boundary).len()
                ==> placed(
                #[trigger] spec_units(file, lang, t, src, ms, s, min_tokens, file_is_test, boundary)[i],
                file,
                lang,
                src.len(),
            ),
    decreases ms.len(),
{
    if ms.len() > 0 {
        law_units_are_placed(file, lang, t, src, ms.drop_last(), s, min_tokens, file_is_test, boundary);
        let prev = spec_units(file, lang, t, src, ms.drop_last(), s, min_tokens, file_is_test, boundary);
        let cur = spec_units(file, lang, t, src, ms, s, min_tokens, file_is_test, boundary);
        lemma_captured_fits(t, ms.last(), s, 2, src.len());
        assert forall|i: int| 0 <= i < cur.len() implies placed(#[trigger] cur[i], file, lang, src.len()) by {
            if i < prev.len() {
                assert(cur[i] == prev[i]);
            }
        }
    }
}

/// Every class shape of a tree whose nodes fit the text is placed in it,
/// is never flagged as a required implementation, carries the file's test
/// flag, and has at least `SHAPE_MIN_MEMBERS` distinct ascending
/// signatures, counted in its `sig_lines`.
pub proof fn law_shapes_are_placed(
    file: u32,
    lang: Lang,
    t: SyntaxTree,
    src: Seq<u8>,
    ms: Seq<Seq<(u32, usize)>>,
    s: CaptureSlots,
    file_is_test: bool,
)
    requires
        tree_fits(t, src.len()),
    ensures
        forall|i: int|
            0 <= i < spec_shapes(file, lang, t, src, ms, s, file_is_test).len() ==> {
                let u = #[trigger] spec_shapes(file, lang, t, src, ms, s, file_is_test)[i];
                &&& placed(u, file, lang, src.len())
                &&& u.is_test == file_is_test
                &&& !u.is_trait_impl_method
                &&& u.fingerprints.len() >= SHAPE_MIN_MEMBERS
                &&& u.sig_lines == u.fingerprints.len() as u32
                &&& strictly_sorted(u.fingerprints)
            },
    decreases ms.len(),
{
    if ms.len() > 0 {
        law_shapes_are_placed(file, lang, t, src, ms.drop_last(), s, file_is_test);
        let prev = spec_shapes(file, lang, t, src, ms.drop_last(), s, file_is_test);
        let cur = spec_shapes(file, lang, t, src, ms, s, file_is_test);
        lemma_captured_fits(t, ms.last(), s, 2, src.len());
        if let (Some(body), Some(func)) = (captured(t, ms.last(), s, 1), captured(t, ms.last(), s, 2)) {
            lemma_sorted_set_of(
                shape_sigs(t, body as int, func as int, src).map_values(|g: Seq<u8>| sig_hash(g)),
            );
        }
        assert forall|i: int| 0 <= i < cur.len() implies {
            let u = #[trigger] cur[i];
            &&& placed(u, file, lang, src.len())
            &&& u.is_test == file_is_test
            &&& !u.is_trait_impl_method
            &&& u.fingerprints.len() >= SHAPE_MIN_MEMBERS
            &&& u.sig_lines == u.fingerprints.len() as u32
            &&& strictly_sorted(u.fingerprints)
        } by {
            if i < prev.len() {
                assert(cur[i] == prev[i]);
            }
        }
    }
}

/// One query match of one file, with what the analysis was given for it.
pub struct UnitCall {
    pub file: u32,
    pub lang: Lang,
    pub t: SyntaxTree,
    pub src: Seq<u8>,
    pub caps: Seq<(u32, usize)>,
    pub slots: CaptureSlots,
    pub min_tokens: usize,
    pub file_is_test: bool,
    pub boundary: Option<u32>,
}

/// The unit a match yields.
pub open spec fn unit_of(c: UnitCall) -> Option<UnitView> {
    spec_unit(c.file, c.lang, c.t, c.src, c.caps, c.slots, c.min_tokens, c.file_is_test, c.boundary)
}

/// The normalized codes of a match's body.
pub open spec fn body_codes(c: UnitCall) -> Seq<u16> {
    match captured(c.t, c.caps, c.slots, 1) {
        Some(b) => spec_normalize_codes(c.t, b as int, c.src),
        None => Seq::empty(),
    }
}

/// A unit's fingerprints are those of its normalized body; so two units
/// whose bodies share a run of `KGRAM + WINDOW - 1` (17) normalized codes
/// share a fingerprint, in any files.
pub proof fn law_units_catch_shared_runs(c1: UnitCall, c2: UnitCall, i: int, j: int, n: int)
    requires
        unit_of(c1) is Some,
        unit_of(c2) is Some,
        n >= KGRAM + WINDOW - 1,
        0 <= i,
        i + n <= body_codes(c1).len(),
        0 <= j,
        j + n <= body_codes(c2).len(),
        body_codes(c1).subrange(i, i + n) == body_codes(c2).subrange(j, j + n),
    ensures
        unit_of(c1).unwrap().fingerprints == fingerprints_of(body_codes(c1)),
        unit_of(c2).unwrap().fingerprints == fingerprints_of(body_codes(c2)),
        exists|x: u64|
            unit_of(c1).unwrap().fingerprints.contains(x) && unit_of(
                c2,
            ).unwrap().fingerprints.contains(x),
{
    crate::fingerprint::law_shared_run_shares_fingerprint(body_codes(c1), body_codes(c2), i, j, n);
}

/// The rows on which the tokens of a match's body start.
pub open spec fn body_rows(c: UnitCall) -> Seq<u32> {
    match captured(c.t, c.caps, c.slots, 1) {
        Some(b) => token_rows(c.t, subtree_tokens(c.t, b as int, c.src)),
        None => Seq::empty(),
    }
}

/// In a well-formed tree whose nodes fit the text (as every analysed tree
/// is checked to), a unit's significant lines are the distinct lines on
/// which its body's tokens start.
pub proof fn law_unit_sig_lines_are_distinct_rows(c: UnitCall)
    requires
        c.t.wf(),
        tree_fits(c.t, c.src.len()),
        unit_of(c) is Some,
    ensures
        unit_of(c).unwrap().sig_lines == body_rows(c).to_set().len() as u32,
{
    let t = c.t;
    lemma_captured_fits(t, c.caps, c.slots, 1, c.src.len());
    let b = captured(t, c.caps, c.slots, 1).unwrap() as int;
    t.lemma_node(b);
    let toks = subtree_tokens(t, b, c.src);
    law_tokens_skip_comments(t, b, t.nodes@[b].end as int, c.src);
    let rows = token_rows(t, toks);
    assert(rows_ascend(rows)) by {
        reveal(tree_fits);
        assert forall|i: int, j: int| 0 <= i <= j < rows.len() implies rows[i] <= rows[j] by {
            if i < j {
                assert(toks[i] < toks[j]);
            }
            assert(node_fits(t.nodes@[toks[i]], c.src.len()));
            assert(node_fits(t.nodes@[toks[j]], c.src.len()));
            assert(t.nodes@[toks[i]].start_row <= t.nodes@[toks[j]].start_row);
        }
        assert forall|i: int| 0 <= i < rows.len() implies rows[i] < u32::MAX by {
            assert(node_fits(t.nodes@[toks[i]], c.src.len()));
        }
    }
    law_sig_lines_are_distinct_rows(t, b, c.src);
}

/// A unit starting at byte `start` lies at or after the boundary, if any.
pub open spec fn from_boundary(boundary: Option<u32>, start: u32) -> bool {
    match boundary {
        Some(o) => start >= o,
        None => false,
    }
}

/// The same unit, marked as test code.
pub open spec fn as_test(u: UnitView) -> UnitView {
    UnitView { is_test: true, ..u }
}

proof fn lemma_units_test_flag(
    file: u32,
    lang: Lang,
    t: SyntaxTree,
    src: Seq<u8>,
    ms: Seq<Seq<(u32, usize)>>,
    s: CaptureSlots,
    min_tokens: usize,
    boundary: Option<u32>,
)
    ensures
        spec_units(file, lang, t, src, ms, s, min_tokens, true, None).len() == spec_units(
            file,
            lang,
            t,
            src,
            ms,
            s,
            min_tokens,
            false,
            boundary,
        ).len(),
        forall|i: int|
            0 <= i < spec_units(file, lang, t, src, ms, s, min_tokens, false, boundary).len() ==> {
                let b = #[trigger] spec_units(file, lang, t, src, ms, s, min_tokens, false, boundary)[i];
                &&& spec_units(file, lang, t, src, ms, s, min_tokens, true, None)[i] == as_test(b)
                    &&& b.is_test == from_boundary(boundary, b.start_byte)
            },
    decreases ms.len(),
{
    if ms.len() > 0 {
        lemma_units_test_flag(file, lang, t, src, ms.drop_last(), s, min_tokens, boundary);
        let pa = spec_units(file, lang, t, src, ms.drop_last(), s, min_tokens, true, None);
        let pb = spec_units(file, lang, t, src, ms.drop_last(), s, min_tokens, false, boundary);
        let ca = spec_units(file, lang, t, src, ms, s, min_tokens, true, None);
        let cb = spec_units(file, lang, t, src, ms, s, min_tokens, false, boundary);
        let ua = spec_unit(file, lang, t, src, ms.last(), s, min_tokens, true, None);
        let ub = spec_unit(file, lang, t, src, ms.last(), s, min_tokens, false, boundary);
        assert(ua is Some <==> ub is Some);
        if ub is Some {
            assert(ua.unwrap() == as_test(ub.unwrap()));
        }
        assert forall|i: int| 0 <= i < cb.len() implies {
            let b = #[trigger] cb[i];
            &&& ca[i] == as_test(b)
            &&& b.is_test == from_boundary(boundary, b.start_byte)
        } by {
            if i < pb.len() {
                assert(ca[i] == pa[i] && cb[i] == pb[i]);
            }
        }
    }
}

/// Marking a whole file as test code changes nothing but its units' test
/// flags: the units come out the same, in the same order, with the same
/// line counts, each marked as test code; without the mark a unit is test
/// code exactly when the file is Rust and the unit starts at or after its
/// `#[cfg(test)]` module.
pub proof fn law_file_test_flag_only_marks(
    file: u32,
    lang: Lang,
    src: Seq<u8>,
    min_tokens: usize,
    t: SyntaxTree,
    ms: Seq<Seq<(u32, usize)>>,
    s: CaptureSlots,
)
    ensures
        ({
            let a = spec_file_analysis(file, lang, src, min_tokens, true, t, ms, s);
            let b = spec_file_analysis(file, lang, src, min_tokens, false, t, ms, s);
            &&& a.functions.len() == b.functions.len()
            &&& a.sig_lines == b.sig_lines
            &&& a.total_lines == b.total_lines
            &&& forall|i: int|
                0 <= i < b.functions.len() ==> a.functions[i] == as_test(#[trigger] b.functions[i])
            &&& forall|i: int|
                0 <= i < b.functions.len() ==> (#[trigger] b.functions[i]).is_test == (lang
                    == Lang::Rust && from_boundary(
                    spec_cfg_test_mod_offset(src),
                    b.functions[i].start_byte,
                ))
        }),
{
    lemma_units_test_flag(file, lang, t, src, ms, s, min_tokens, spec_test_boundary(lang, src, false));
}

/// The call that analyses match `k` of `ms`.
pub open spec fn match_call(
    file: u32,
    lang: Lang,
    t: SyntaxTree,
    src: Seq<u8>,
    ms: Seq<Seq<(u32, usize)>>,
    k: int,
    s: CaptureSlots,
    min_tokens: usize,
    file_is_test: bool,
    boundary: Option<u32>,
) -> UnitCall {
    UnitCall { file, lang, t, src, caps: ms[k], slots: s, min_tokens, file_is_test, boundary }
}

/// The units of an analysis are exactly the units its matches yield: each
/// unit is some match's unit, and each match that yields a unit has it
/// among the units.
pub proof fn law_units_are_match_units(
    file: u32,
    lang: Lang,
    t: SyntaxTree,
    src: Seq<u8>,
    ms: Seq<Seq<(u32, usize)>>,
    s: CaptureSlots,
    min_tokens: usize,
    file_is_test: bool,
    boundary: Option<u32>,
)
    ensures
        forall|i: int|
            0 <= i < spec_units(file, lang, t, src, ms, s, min_tokens, file_is_test, boundary).len()
                ==> exists|k: int|
                0 <= k < ms.len() && unit_of(
                    #[trigger] match_call(file, lang, t, src, ms, k, s, min_tokens, file_is_test, boundary),
                ) == Some(
                    #[trigger] spec_units(file, lang, t, src, ms, s, min_tokens, file_is_test, boundary)[i],
                ),
        forall|k: int|
            0 <= k < ms.len() && (unit_of(
                #[trigger] match_call(file, lang, t, src, ms, k, s, min_tokens, file_is_test, boundary),
            ) is Some) ==> spec_units(file, lang, t, src, ms, s, min_tokens, file_is_test, boundary).contains(
                unit_of(match_call(file, lang, t, src, ms, k, s, min_tokens, file_is_test, boundary)).unwrap(),
            ),
    decreases ms.len(),
{
    if ms.len() > 0 {
        let pm = ms.drop_last();
        law_units_are_match_units(file, lang, t, src, pm, s, min_tokens, file_is_test, boundary);
        let prev = spec_units(file, lang, t, src, pm, s, min_tokens, file_is_test, boundary);
        let cur = spec_units(file, lang, t, src, ms, s, min_tokens, file_is_test, boundary);
        let last = ms.len() - 1;
        assert forall|k: int| 0 <= k < pm.len() implies #[trigger] match_call(
            file,
            lang,
            t,
            src,
            ms,
            k,
            s,
            min_tokens,
            file_is_test,
            boundary,
        ) == match_call(file, lang, t, src, pm, k, s, min_tokens, file_is_test, boundary) by {}
        assert(match_call(file, lang, t, src, ms, last, s, min_tokens, file_is_test, boundary).caps
            == ms.last());
        assert forall|i: int| 0 <= i < cur.len() implies exists|k: int|
            0 <= k < ms.len() && unit_of(
                #[trigger] match_call(file, lang, t, src, ms, k, s, min_tokens, file_is_test, boundary),
            ) == Some(#[trigger] cur[i]) by {
            if i < prev.len() {
                assert(cur[i] == prev[i]);
                let k = choose|k: int|
                    0 <= k < pm.len() && unit_of(
                        #[trigger] match_call(file, lang, t, src, pm, k, s, min_tokens, file_is_test, boundary),
                    ) == Some(prev[i]);
                assert(match_call(file, lang, t, src, ms, k, s, min_tokens, file_is_test, boundary)
                    == match_call(file, lang, t, src, pm, k, s, min_tokens, file_is_test, boundary));
            } else {
                assert(unit_of(match_call(file, lang, t, src, ms, last, s, min_tokens, file_is_test, boundary))
                    == Some(cur[i]));
            }
        }
        assert forall|k: int|
            0 <= k < ms.len() && (unit_of(
                #[trigger] match_call(file, lang, t, src, ms, k, s, min_tokens, file_is_test, boundary),
            ) is Some) implies cur.contains(
            unit_of(match_call(file, lang, t, src, ms, k, s, min_tokens, file_is_test, boundary)).unwrap(),
        ) by {
            let u = unit_of(match_call(file, lang, t, src, ms, k, s, min_tokens, file_is_test, boundary)).unwrap();
            if k < pm.len() {
                assert(match_call(file, lang, t, src, ms, k, s, min_tokens, file_is_test, boundary)
                    == match_call(file, lang, t, src, pm, k, s, min_tokens, file_is_test, boundary));
                assert(prev.contains(u));
                let j = choose|j: int| 0 <= j < prev.len() && prev[j] == u;
                assert(cur[j] == prev[j]);
            } else {
                assert(cur[cur.len() - 1] == u);
            }
        }
    }
}

/// Two analysed files (any files, any analyses) whose matched bodies share
/// a run of `KGRAM + WINDOW - 1` (17) normalized codes report units that
/// share a fingerprint: both units are among their files' functions.
pub proof fn law_analyses_catch_shared_runs(
    a: UnitCall,
    ams: Seq<Seq<(u32, usize)>>,
    ak: int,
    b: UnitCall,
    bms: Seq<Seq<(u32, usize)>>,
    bk: int,
    i: int,
    j: int,
    n: int,
)
    requires
        0 <= ak < ams.len(),
        a.caps == ams[ak],
        0 <= bk < bms.len(),
        b.caps == bms[bk],
        a.boundary == spec_test_boundary(a.lang, a.src, a.file_is_test),
        b.boundary == spec_test_boundary(b.lang, b.src, b.file_is_test),
        unit_of(a) is Some,
        unit_of(b) is Some,
        n >= KGRAM + WINDOW - 1,
        0 <= i,
        i + n <= body_codes(a).len(),
        0 <= j,
        j + n <= body_codes(b).len(),
        body_codes(a).subrange(i, i + n) == body_codes(b).subrange(j, j + n),
    ensures
        spec_file_analysis(a.file, a.lang, a.src, a.min_tokens, a.file_is_test, a.t, ams, a.slots).functions.contains(
            unit_of(a).unwrap(),
        ),
        spec_file_analysis(b.file, b.lang, b.src, b.min_tokens, b.file_is_test, b.t, bms, b.slots).functions.contains(
            unit_of(b).unwrap(),
        ),
        exists|x: u64|
            unit_of(a).unwrap().fingerprints.contains(x) && unit_of(b).unwrap().fingerprints.contains(x),
{
    law_units_are_match_units(a.file, a.lang, a.t, a.src, ams, a.slots, a.min_tokens, a.file_is_test, a.boundary);
    law_units_are_match_units(b.file, b.lang, b.t, b.src, bms, b.slots, b.min_tokens, b.file_is_test, b.boundary);
    assert(match_call(a.file, a.lang, a.t, a.src, ams, ak, a.slots, a.min_tokens, a.file_is_test, a.boundary) == a);
    assert(match_call(b.file, b.lang, b.t, b.src, bms, bk, b.slots, b.min_tokens, b.file_is_test, b.boundary) == b);
    law_units_catch_shared_runs(a, b, i, j, n);
}

} // verus!
