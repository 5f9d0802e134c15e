//! Turns a syntax subtree into a normalized token stream: identifiers and
//! literals are folded to sentinels (so renames and re-literaling don't
//! matter), comments are dropped, and everything structural keeps its
//! grammar kind id verbatim.

use crate::fingerprint::fingerprints_of;
use crate::lang::{TokenClass, classify, spec_classify};
use crate::syntax::{SyntaxTree, node_text};
use crate::text::{utf8_or_empty, utf8_str};
use std::hash::{Hash, Hasher};
use vstd::prelude::*;
use vstd::string::StringSliceAdditionalSpecFns;

verus! {

/// Sentinel codes live above any real grammar kind id.
pub const ID: u16 = 65535;

pub const STR: u16 = 65534;

pub const NUM: u16 = 65533;

/// Band reserved for `TokenClass::Op` codes (hashed leaf text, not a
/// grammar kind id), just below the three sentinels.
pub const OP_BASE: u16 = 61436;

pub const OP_BAND: u16 = 4096;

/// The value `FxHasher` finishes with after hashing a text (as a `str`),
/// given the text's bytes.
pub uninterp spec fn fx_str_hash(text: Seq<u8>) -> u64;

/// `rustc_hash::FxHasher`: a default hasher fed `text` (`Hash for str`),
/// then `Hasher::finish`. The contract only names the result: the same
/// text always gives the same value.
#[verifier::external_body]
pub(crate) fn fx_hash_str(text: &str) -> (r: u64)
    ensures
        r == fx_str_hash(text.spec_bytes()),
{
    let mut h = rustc_hash::FxHasher::default();
    text.hash(&mut h);
    h.finish()
}

pub open spec fn spec_op_code(text: Seq<u8>) -> u16 {
    (OP_BASE + ((fx_str_hash(text) % 65536) as u16) % OP_BAND) as u16
}

/// Code for an `Op`-classified leaf: the same text always gives the same
/// code, inside the band reserved for it.
pub fn op_code(text: &str) -> (r: u16)
    ensures
        r == spec_op_code(text.spec_bytes()),
        OP_BASE <= r < OP_BASE + OP_BAND,
{
    let h = fx_hash_str(text);
    let low = (h % 65536) as u16;
    OP_BASE + low % OP_BAND
}

/// The text an `Op` leaf is hashed by: its source text when that is valid
/// UTF-8, else the empty text.
pub open spec fn op_text(t: SyntaxTree, i: int, src: Seq<u8>) -> Seq<u8> {
    match node_text(t, i, src) {
        Some(b) => utf8_or_empty(b),
        None => Seq::empty(),
    }
}

/// The normalized code of leaf `i`.
pub open spec fn leaf_code(t: SyntaxTree, i: int, src: Seq<u8>) -> u16 {
    match spec_classify(t, i, src) {
        TokenClass::Ident => ID,
        TokenClass::Str => STR,
        TokenClass::Num => NUM,
        TokenClass::Op => spec_op_code(op_text(t, i, src)),
        _ => t.nodes@[i].kind_id,
    }
}

/// The leaves in `a..b` that are not comments, in order: the tokens of the
/// subtree when `a..b` is one.
pub open spec fn tokens(t: SyntaxTree, a: int, b: int, src: Seq<u8>) -> Seq<int>
    decreases b - a,
{
    if b <= a {
        Seq::empty()
    } else if t.is_leaf(b - 1) && spec_classify(t, b - 1, src) != TokenClass::Comment {
        tokens(t, a, b - 1, src).push(b - 1)
    } else {
        tokens(t, a, b - 1, src)
    }
}

/// Consecutive equal literal sentinels are collapsed into one code.
pub open spec fn collapse(cs: Seq<u16>) -> Seq<u16>
    decreases cs.len(),
{
    if cs.len() == 0 {
        Seq::empty()
    } else {
        let c = collapse(cs.drop_last());
        let x = cs.last();
        if (x == STR || x == NUM) && c.len() > 0 && c.last() == x {
            c
        } else {
            c.push(x)
        }
    }
}

/// Number of lines a row sequence starts: every row that differs from the
/// one before it (the first, unless it is the `u32::MAX` row).
pub open spec fn line_starts(rows: Seq<u32>) -> nat
    decreases rows.len(),
{
    if rows.len() == 0 {
        0
    } else {
        line_starts(rows.drop_last()) + if (rows.len() == 1 && rows[0] != u32::MAX) || (rows.len()
            > 1 && rows.last() != rows[rows.len() - 2]) {
            1nat
        } else {
            0nat
        }
    }
}

pub open spec fn token_rows(t: SyntaxTree, toks: Seq<int>) -> Seq<u32> {
    toks.map_values(|j: int| t.nodes@[j].start_row as u32)
}

pub open spec fn token_codes(t: SyntaxTree, toks: Seq<int>, src: Seq<u8>) -> Seq<u16> {
    toks.map_values(|j: int| leaf_code(t, j, src))
}

/// The normalized token stream of a subtree.
pub struct Normalized {
    pub codes: Vec<u16>,
    /// Distinct source lines holding at least one non-comment token.
    pub sig_lines: u32,
}

/// The subtree of `node`: its index range in pre-order.
pub open spec fn subtree_tokens(t: SyntaxTree, node: int, src: Seq<u8>) -> Seq<int> {
    tokens(t, node, t.nodes@[node].end as int, src)
}

pub open spec fn spec_normalize_codes(t: SyntaxTree, node: int, src: Seq<u8>) -> Seq<u16> {
    collapse(token_codes(t, subtree_tokens(t, node, src), src))
}

pub open spec fn spec_significant_lines(t: SyntaxTree, node: int, src: Seq<u8>) -> nat {
    line_starts(token_rows(t, subtree_tokens(t, node, src)))
}

proof fn lemma_tokens_len(t: SyntaxTree, a: int, b: int, src: Seq<u8>)
    ensures
        tokens(t, a, b, src).len() <= if b > a {
            b - a
        } else {
            0
        },
    decreases b - a,
{
    if b > a {
        lemma_tokens_len(t, a, b - 1, src);
    }
}

proof fn lemma_line_starts_len(rows: Seq<u32>)
    ensures
        line_starts(rows) <= rows.len(),
    decreases rows.len(),
{
    if rows.len() > 0 {
        lemma_line_starts_len(rows.drop_last());
    }
}

/// Normalizes the leaves of `node`: identifiers, strings and numbers become
/// sentinels (runs of equal literal sentinels collapse into one), Lisp call
/// heads become their text's op code, comments are dropped, and the rest
/// keep their kind id; `sig_lines` counts the lines that hold a token.
pub fn normalize(t: &SyntaxTree, node: usize, src: &[u8]) -> (r: Normalized)
    requires
        t.wf(),
        node < t.nodes@.len(),
        t.nodes@.len() <= u32::MAX,
    ensures
        r.codes@ == spec_normalize_codes(*t, node as int, src@),
        r.sig_lines == spec_significant_lines(*t, node as int, src@),
{
    proof {
        t.lemma_node(node as int);
    }
    let end = t.nodes[node].end;
    let mut codes: Vec<u16> = Vec::new();
    let mut sig_lines: u32 = 0;
    let mut last_line: u32 = u32::MAX;
    let mut j = node;
    while j < end
        invariant
            t.wf(),
            node <= j <= end <= t.nodes@.len() <= u32::MAX,
            end == t.nodes@[node as int].end,
            codes@ == collapse(token_codes(*t, tokens(*t, node as int, j as int, src@), src@)),
            sig_lines == line_starts(token_rows(*t, tokens(*t, node as int, j as int, src@))),
            tokens(*t, node as int, j as int, src@).len() == 0 ==> last_line == u32::MAX,
            tokens(*t, node as int, j as int, src@).len() > 0 ==> last_line == token_rows(
                *t,
                tokens(*t, node as int, j as int, src@),
            ).last(),
        decreases end - j,
    {
        let ghost toks = tokens(*t, node as int, j as int, src@);
        proof {
            lemma_tokens_len(*t, node as int, j as int, src@);
            lemma_line_starts_len(token_rows(*t, toks));
        }
        if t.nodes[j].children.len() == 0 {
            let class = classify(t, j, src);
            if class != TokenClass::Comment {
                let ghost toks2 = toks.push(j as int);
                assert(tokens(*t, node as int, j + 1, src@) == toks2);
                assert(token_rows(*t, toks2) =~= token_rows(*t, toks).push(
                    t.nodes@[j as int].start_row as u32,
                ));
                assert(token_codes(*t, toks2, src@) =~= token_codes(*t, toks, src@).push(
                    leaf_code(*t, j as int, src@),
                ));
                assert(token_rows(*t, toks2).drop_last() =~= token_rows(*t, toks));
                assert(token_codes(*t, toks2, src@).drop_last() =~= token_codes(*t, toks, src@));
                let row = t.nodes[j].start_row as u32;
                if row != last_line {
                    sig_lines += 1;
                    last_line = row;
                }
                let code = match class {
                    TokenClass::Ident => ID,
                    TokenClass::Str => STR,
                    TokenClass::Num => NUM,
                    TokenClass::Op => {
                        let text = match t.text(j, src) {
                            Some(b) => match utf8_str(b) {
                                Some(text) => text,
                                None => "",
                            },
                            None => "",
                        };
                        proof {
                            reveal_strlit("");
                        }
                        op_code(text)
                    },
                    _ => t.nodes[j].kind_id,
                };
                assert(code == leaf_code(*t, j as int, src@));
                let collapsible = code == STR || code == NUM;
                let n = codes.len();
                if !(collapsible && n > 0 && codes[n - 1] == code) {
                    codes.push(code);
                }
            } else {
                assert(tokens(*t, node as int, j + 1, src@) == toks);
            }
        } else {
            assert(tokens(*t, node as int, j + 1, src@) == toks);
        }
        j += 1;
    }
    Normalized { codes, sig_lines }
}

/// The number of lines of `node`'s subtree that hold at least one
/// non-comment token (the whole-file significant line count for the root).
pub fn significant_lines(t: &SyntaxTree, node: usize, src: &[u8]) -> (r: u32)
    requires
        t.wf(),
        node < t.nodes@.len(),
        t.nodes@.len() <= u32::MAX,
    ensures
        r == spec_significant_lines(*t, node as int, src@),
{
    proof {
        t.lemma_node(node as int);
    }
    let end = t.nodes[node].end;
    let mut count: u32 = 0;
    let mut last_line: u32 = u32::MAX;
    let mut j = node;
    while j < end
        invariant
            t.wf(),
            node <= j <= end <= t.nodes@.len() <= u32::MAX,
            end == t.nodes@[node as int].end,
            count == line_starts(token_rows(*t, tokens(*t, node as int, j as int, src@))),
            tokens(*t, node as int, j as int, src@).len() == 0 ==> last_line == u32::MAX,
            tokens(*t, node as int, j as int, src@).len() > 0 ==> last_line == token_rows(
                *t,
                tokens(*t, node as int, j as int, src@),
            ).last(),
        decreases end - j,
    {
        let ghost toks = tokens(*t, node as int, j as int, src@);
        proof {
            lemma_tokens_len(*t, node as int, j as int, src@);
            lemma_line_starts_len(token_rows(*t, toks));
        }
        if t.nodes[j].children.len() == 0 && classify(t, j, src) != TokenClass::Comment {
            let ghost toks2 = toks.push(j as int);
            assert(tokens(*t, node as int, j + 1, src@) == toks2);
            assert(token_rows(*t, toks2) =~= token_rows(*t, toks).push(
                t.nodes@[j as int].start_row as u32,
            ));
            assert(token_rows(*t, toks2).drop_last() =~= token_rows(*t, toks));
            let row = t.nodes[j].start_row as u32;
            if row != last_line {
                count += 1;
                last_line = row;
            }
        } else {
            assert(tokens(*t, node as int, j + 1, src@) == toks);
        }
        j += 1;
    }
    count
}

/// What normalization keeps of a leaf: its class, its kind id unless it is
/// an identifier, literal or operator, and its text when it is an operator.
pub open spec fn token_view(t: SyntaxTree, i: int, src: Seq<u8>) -> (TokenClass, u16, Seq<u8>) {
    let c = spec_classify(t, i, src);
    (
        c,
        if c == TokenClass::Ident || c == TokenClass::Str || c == TokenClass::Num || c
            == TokenClass::Op {
            0
        } else {
            t.nodes@[i].kind_id
        },
        if c == TokenClass::Op {
            op_text(t, i, src)
        } else {
            Seq::empty()
        },
    )
}

/// Renaming does not change a normalized body: two subtrees whose
/// non-comment leaves agree one for one in class, structural kind and
/// operator text normalize to the same codes, and so have the same
/// fingerprints, whatever their identifiers and literals say, wherever they
/// sit, and whatever comments they hold.
pub proof fn law_rename_invariance(
    t1: SyntaxTree,
    n1: int,
    s1: Seq<u8>,
    t2: SyntaxTree,
    n2: int,
    s2: Seq<u8>,
)
    requires
        subtree_tokens(t1, n1, s1).len() == subtree_tokens(t2, n2, s2).len(),
        forall|k: int|
            0 <= k < subtree_tokens(t1, n1, s1).len() ==> token_view(
                t1,
                #[trigger] subtree_tokens(t1, n1, s1)[k],
                s1,
            ) == token_view(t2, subtree_tokens(t2, n2, s2)[k], s2),
    ensures
        spec_normalize_codes(t1, n1, s1) == spec_normalize_codes(t2, n2, s2),
        fingerprints_of(spec_normalize_codes(t1, n1, s1)) == fingerprints_of(
            spec_normalize_codes(t2, n2, s2),
        ),
{
    let a = subtree_tokens(t1, n1, s1);
    let b = subtree_tokens(t2, n2, s2);
    assert forall|k: int| 0 <= k < a.len() implies leaf_code(t1, a[k], s1) == leaf_code(
        t2,
        b[k],
        s2,
    ) by {
        assert(token_view(t1, a[k], s1) == token_view(t2, b[k], s2));
    }
    assert(token_codes(t1, a, s1) =~= token_codes(t2, b, s2));
}

/// Operator codes stay in their band, clear of every sentinel.
pub proof fn law_op_code_in_band(text: Seq<u8>)
    ensures
        OP_BASE <= spec_op_code(text) < OP_BASE + OP_BAND,
        spec_op_code(text) != ID,
        spec_op_code(text) != STR,
        spec_op_code(text) != NUM,
{
}

/// After collapsing, no literal sentinel follows an equal one.
pub proof fn law_collapse_no_repeated_literal(cs: Seq<u16>)
    ensures
        forall|i: int|
            0 < i < collapse(cs).len() ==> !(#[trigger] collapse(cs)[i] == collapse(cs)[i - 1] && (
            collapse(cs)[i] == STR || collapse(cs)[i] == NUM)),
    decreases cs.len(),
{
    if cs.len() > 0 {
        law_collapse_no_repeated_literal(cs.drop_last());
        let c = collapse(cs.drop_last());
        let r = collapse(cs);
        assert forall|i: int| 0 < i < r.len() implies !(#[trigger] r[i] == r[i - 1] && (r[i] == STR
            || r[i] == NUM)) by {
            if i < c.len() {
                assert(r[i] == c[i] && r[i - 1] == c[i - 1]);
            }
        }
    }
}

/// Comments never reach the token stream: every token of `a..b` is a
/// leaf in that range that is not a comment, and they come in tree order.
pub proof fn law_tokens_skip_comments(t: SyntaxTree, a: int, b: int, src: Seq<u8>)
    ensures
        forall|k: int|
            0 <= k < tokens(t, a, b, src).len() ==> a <= #[trigger] tokens(t, a, b, src)[k] < b
                && t.is_leaf(tokens(t, a, b, src)[k]) && spec_classify(
                t,
                tokens(t, a, b, src)[k],
                src,
            ) != TokenClass::Comment,
        forall|k1: int, k2: int|
            0 <= k1 < k2 < tokens(t, a, b, src).len() ==> #[trigger] tokens(t, a, b, src)[k1]
                < #[trigger] tokens(t, a, b, src)[k2],
    decreases b - a,
{
    if b > a {
        law_tokens_skip_comments(t, a, b - 1, src);
        let prev = tokens(t, a, b - 1, src);
        let cur = tokens(t, a, b, src);
        assert forall|k: int| 0 <= k < cur.len() implies a <= #[trigger] cur[k] < b && t.is_leaf(
            cur[k],
        ) && spec_classify(t, cur[k], src) != TokenClass::Comment by {
            if k < prev.len() {
                assert(cur[k] == prev[k]);
            }
        }
        assert forall|k1: int, k2: int| 0 <= k1 < k2 < cur.len() implies #[trigger] cur[k1]
            < #[trigger] cur[k2] by {
            if k2 < prev.len() {
                assert(cur[k1] == prev[k1] && cur[k2] == prev[k2]);
            } else {
                assert(cur[k1] == prev[k1]);
            }
        }
    }
}

/// Rows that never go back up, each below the `u32::MAX` sentinel.
pub open spec fn rows_ascend(rows: Seq<u32>) -> bool {
    &&& forall|i: int, j: int| 0 <= i <= j < rows.len() ==> rows[i] <= rows[j]
    &&& forall|i: int| 0 <= i < rows.len() ==> rows[i] < u32::MAX
}

/// When the token rows never go back up (as in a tree whose leaves are in
/// source order), counting line starts counts the distinct lines that hold
/// a token.
pub proof fn law_line_starts_count_distinct_rows(rows: Seq<u32>)
    requires
        rows_ascend(rows),
    ensures
        line_starts(rows) == rows.to_set().len(),
    decreases rows.len(),
{
    broadcast use vstd::seq_lib::seq_to_set_is_finite;
    broadcast use vstd::set::axiom_set_insert_len;

    if rows.len() == 0 {
        assert(rows.to_set() =~= Set::empty());
    } else {
        let init = rows.drop_last();
        law_line_starts_count_distinct_rows(init);
        assert(rows.to_set() =~= init.to_set().insert(rows.last())) by {
            assert forall|v: u32| rows.contains(v) implies init.contains(v) || v == rows.last() by {
                let k = choose|k: int| 0 <= k < rows.len() && rows[k] == v;
                if k < init.len() {
                    assert(init[k] == v);
                }
            }
            assert forall|v: u32| init.contains(v) implies rows.contains(v) by {
                let k = choose|k: int| 0 <= k < init.len() && init[k] == v;
                assert(rows[k] == v);
            }
            assert(rows[rows.len() - 1] == rows.last());
        }
        if rows.len() == 1 {
            assert(init.to_set() =~= Set::empty());
        } else if rows.last() != rows[rows.len() - 2] {
            assert(!init.contains(rows.last())) by {
                if init.contains(rows.last()) {
                    let k = choose|k: int| 0 <= k < init.len() && init[k] == rows.last();
                    assert(rows[k] <= rows[rows.len() - 2]);
                    assert(rows[rows.len() - 2] <= rows[rows.len() - 1]);
                }
            }
        } else {
            assert(init[init.len() - 1] == rows.last());
            assert(init.contains(rows.last()));
            assert(init.to_set().insert(rows.last()) =~= init.to_set());
        }
    }
}

/// A subtree's significant-line count is the number of distinct lines that
/// hold one of its tokens, whenever its token rows never go back up.
pub proof fn law_sig_lines_are_distinct_rows(t: SyntaxTree, node: int, src: Seq<u8>)
    requires
        rows_ascend(token_rows(t, subtree_tokens(t, node, src))),
    ensures
        spec_significant_lines(t, node, src) == token_rows(t, subtree_tokens(t, node, src)).to_set().len(),
{
    law_line_starts_count_distinct_rows(token_rows(t, subtree_tokens(t, node, src)));
}

/// How many times `x` occurs in `s`.
pub open spec fn count_of(s: Seq<u16>, x: u16) -> nat
    decreases s.len(),
{
    if s.len() == 0 {
        0
    } else {
        count_of(s.drop_last(), x) + if s.last() == x {
            1nat
        } else {
            0nat
        }
    }
}

/// How many runs of consecutive `x` codes `s` holds.
pub open spec fn runs_of(s: Seq<u16>, x: u16) -> nat
    decreases s.len(),
{
    if s.len() == 0 {
        0
    } else {
        runs_of(s.drop_last(), x) + if s.last() == x && (s.len() == 1 || s[s.len() - 2] != x) {
            1nat
        } else {
            0nat
        }
    }
}

proof fn lemma_count_push(s: Seq<u16>, y: u16, x: u16)
    ensures
        count_of(s.push(y), x) == count_of(s, x) + if y == x {
            1nat
        } else {
            0nat
        },
{
    assert(s.push(y).drop_last() =~= s);
}

proof fn lemma_collapse_last(cs: Seq<u16>)
    ensures
        (collapse(cs).len() == 0) == (cs.len() == 0),
        cs.len() > 0 ==> collapse(cs).last() == cs.last(),
    decreases cs.len(),
{
    if cs.len() > 0 {
        lemma_collapse_last(cs.drop_last());
    }
}

proof fn lemma_collapse_count(cs: Seq<u16>, x: u16)
    ensures
        x != STR && x != NUM ==> count_of(collapse(cs), x) == count_of(cs, x),
        x == STR || x == NUM ==> count_of(collapse(cs), x) == runs_of(cs, x),
    decreases cs.len(),
{
    if cs.len() > 0 {
        let dl = cs.drop_last();
        let y = cs.last();
        lemma_collapse_count(dl, x);
        lemma_collapse_last(dl);
        let c = collapse(dl);
        if !((y == STR || y == NUM) && c.len() > 0 && c.last() == y) {
            lemma_count_push(c, y, x);
            if cs.len() > 1 {
                assert(dl.last() == cs[cs.len() - 2]);
            }
        } else {
            assert(dl.last() == cs[cs.len() - 2]);
        }
    }
}

/// Collapsing drops only repeats of a literal sentinel: every code other
/// than `STR` and `NUM` (identifiers' `ID` among them) is kept as often as
/// it occurs, and `STR` and `NUM` are kept once per run of equal codes.
pub proof fn law_collapse_drops_only_repeated_literals(cs: Seq<u16>)
    ensures
        forall|x: u16| x != STR && x != NUM ==> #[trigger] count_of(collapse(cs), x) == count_of(cs, x),
        count_of(collapse(cs), STR) == runs_of(cs, STR),
        count_of(collapse(cs), NUM) == runs_of(cs, NUM),
{
    assert forall|x: u16| x != STR && x != NUM implies #[trigger] count_of(collapse(cs), x) == count_of(cs, x) by {
        lemma_collapse_count(cs, x);
    }
    lemma_collapse_count(cs, STR);
    lemma_collapse_count(cs, NUM);
}

/// A subtree's normalized codes hold one code per non-comment leaf, `ID`
/// for each identifier, `STR` for each string and `NUM` for each number,
/// with only repeated `STR` or `NUM` codes dropped: every other code, `ID`
/// included, occurs as often as among the leaves.
pub proof fn law_normalized_codes_per_leaf(t: SyntaxTree, node: int, src: Seq<u8>)
    ensures
        forall|k: int|
            0 <= k < subtree_tokens(t, node, src).len() ==> {
                let leaf = #[trigger] subtree_tokens(t, node, src)[k];
                let code = token_codes(t, subtree_tokens(t, node, src), src)[k];
                &&& spec_classify(t, leaf, src) == TokenClass::Ident ==> code == ID
                &&& spec_classify(t, leaf, src) == TokenClass::Str ==> code == STR
                &&& spec_classify(t, leaf, src) == TokenClass::Num ==> code == NUM
            },
        forall|x: u16|
            x != STR && x != NUM ==> #[trigger] count_of(spec_normalize_codes(t, node, src), x)
                == count_of(token_codes(t, subtree_tokens(t, node, src), src), x),
        count_of(spec_normalize_codes(t, node, src), STR) == runs_of(
            token_codes(t, subtree_tokens(t, node, src), src),
            STR,
        ),
        count_of(spec_normalize_codes(t, node, src), NUM) == runs_of(
            token_codes(t, subtree_tokens(t, node, src), src),
            NUM,
        ),
{
    law_collapse_drops_only_repeated_literals(token_codes(t, subtree_tokens(t, node, src), src));
}

/// No token is lost: every leaf in `a..b` that is not a comment is among
/// the tokens of `a..b`.
pub proof fn law_tokens_keep_every_leaf(t: SyntaxTree, a: int, b: int, src: Seq<u8>)
    ensures
        forall|j: int|
            a <= j < b && t.is_leaf(j) && spec_classify(t, j, src) != TokenClass::Comment ==> tokens(
                t,
                a,
                b,
                src,
            ).contains(j),
    decreases b - a,
{
    if b > a {
        law_tokens_keep_every_leaf(t, a, b - 1, src);
        let prev = tokens(t, a, b - 1, src);
        let cur = tokens(t, a, b, src);
        assert forall|j: int|
            a <= j < b && t.is_leaf(j) && spec_classify(t, j, src) != TokenClass::Comment implies cur.contains(
            j,
        ) by {
            if j < b - 1 {
                let k = choose|k: int| 0 <= k < prev.len() && prev[k] == j;
                if cur != prev {
                    assert(cur[k] == prev[k]);
                }
            } else {
                assert(cur[cur.len() - 1] == j);
            }
        }
    }
}

} // verus!
