//! Byte-level text primitives shared by the path rules, the content
//! heuristics and the signature extraction. Text is handled as its UTF-8
//! bytes; every needle the library searches for is ASCII.

use vstd::prelude::*;
use vstd::string::StringSliceAdditionalSpecFns;
use vstd::utf8::{is_char_boundary, valid_utf8};

verus! {

/// ASCII lowercase of one byte; every other byte is left alone.
pub open spec fn lower_byte(b: u8) -> u8 {
    if 65 <= b && b <= 90 {
        (b + 32) as u8
    } else {
        b
    }
}

/// `str::to_ascii_lowercase`, on the UTF-8 bytes.
pub open spec fn ascii_lower(s: Seq<u8>) -> Seq<u8> {
    s.map_values(|b: u8| lower_byte(b))
}

pub open spec fn starts_with(s: Seq<u8>, p: Seq<u8>) -> bool {
    p.len() <= s.len() && s.subrange(0, p.len() as int) == p
}

pub open spec fn ends_with(s: Seq<u8>, p: Seq<u8>) -> bool {
    p.len() <= s.len() && s.subrange(s.len() - p.len(), s.len() as int) == p
}

/// `p` occurs in `s` starting at byte `i`.
pub open spec fn occurs_at(s: Seq<u8>, p: Seq<u8>, i: int) -> bool {
    0 <= i && i + p.len() <= s.len() && s.subrange(i, i + p.len()) == p
}

pub open spec fn contains(s: Seq<u8>, p: Seq<u8>) -> bool {
    exists|i: int| occurs_at(s, p, i)
}

/// Index of the last byte equal to `c`, or -1.
pub open spec fn last_index_of(s: Seq<u8>, c: u8) -> int
    decreases s.len(),
{
    if s.len() == 0 {
        -1
    } else if s.last() == c {
        s.len() - 1
    } else {
        last_index_of(s.drop_last(), c)
    }
}

/// What follows the last `c` (all of `s` when there is none): the first item
/// of `s.rsplit(c)`.
pub open spec fn after_last(s: Seq<u8>, c: u8) -> Seq<u8> {
    s.subrange(last_index_of(s, c) + 1, s.len() as int)
}

/// `seg` is one of the items of `s.split(c)`, where `seg` holds no `c`.
pub open spec fn is_segment(s: Seq<u8>, seg: Seq<u8>, c: u8) -> bool {
    exists|i: int|
        #![trigger occurs_at(s, seg, i)]
        occurs_at(s, seg, i) && (i == 0 || s[i - 1] == c) && (i + seg.len() == s.len() || s[i
            + seg.len()] == c)
}

pub proof fn lemma_last_index_of(s: Seq<u8>, c: u8)
    ensures
        -1 <= last_index_of(s, c) < s.len(),
        last_index_of(s, c) >= 0 ==> s[last_index_of(s, c)] == c,
        forall|j: int| last_index_of(s, c) < j < s.len() ==> s[j] != c,
    decreases s.len(),
{
    if s.len() > 0 && s.last() != c {
        let t = s.drop_last();
        lemma_last_index_of(t, c);
        assert forall|j: int| 0 <= j < t.len() implies t[j] == s[j] by {}
    }
}

/// Byte-wise equality of two slices.
pub fn bytes_eq(a: &[u8], b: &[u8]) -> (r: bool)
    ensures
        r == (a@ == b@),
{
    if a.len() != b.len() {
        return false;
    }
    let mut i: usize = 0;
    while i < a.len()
        invariant
            a@.len() == b@.len(),
            i <= a@.len(),
            forall|j: int| 0 <= j < i ==> a@[j] == b@[j],
        decreases a@.len() - i,
    {
        if a[i] != b[i] {
            return false;
        }
        i += 1;
    }
    assert(a@ =~= b@);
    true
}

/// Does `p` occur in `s` at byte `at`?
pub fn matches_at(s: &[u8], p: &[u8], at: usize) -> (r: bool)
    ensures
        r == occurs_at(s@, p@, at as int),
{
    if at > s.len() || p.len() > s.len() - at {
        return false;
    }
    let mut i: usize = 0;
    while i < p.len()
        invariant
            at + p@.len() <= s@.len(),
            s@.len() == s.len(),
            i <= p@.len(),
            forall|j: int| 0 <= j < i ==> s@[at + j] == p@[j],
        decreases p@.len() - i,
    {
        assert(at + i < s@.len());
        if s[at + i] != p[i] {
            assert(s@.subrange(at as int, at + p@.len())[i as int] != p@[i as int]);
            return false;
        }
        i += 1;
    }
    assert(s@.subrange(at as int, at + p@.len()) =~= p@);
    true
}

pub fn starts_with_bytes(s: &[u8], p: &[u8]) -> (r: bool)
    ensures
        r == starts_with(s@, p@),
{
    matches_at(s, p, 0)
}

pub fn ends_with_bytes(s: &[u8], p: &[u8]) -> (r: bool)
    ensures
        r == ends_with(s@, p@),
{
    if p.len() > s.len() {
        return false;
    }
    matches_at(s, p, s.len() - p.len())
}

/// First index at or after `from` where `p` occurs in `s`.
pub fn find_from(s: &[u8], p: &[u8], from: usize) -> (r: Option<usize>)
    requires
        from <= s@.len(),
    ensures
        match r {
            Some(i) => from <= i && occurs_at(s@, p@, i as int) && forall|j: int|
                from <= j < i ==> !occurs_at(s@, p@, j),
            None => forall|j: int| from <= j ==> !occurs_at(s@, p@, j),
        },
{
    let mut i = from;
    while i < s.len()
        invariant
            from <= i <= s@.len(),
            forall|j: int| from <= j < i ==> !occurs_at(s@, p@, j),
        decreases s@.len() - i,
    {
        if matches_at(s, p, i) {
            return Some(i);
        }
        i += 1;
    }
    if matches_at(s, p, i) {
        return Some(i);
    }
    None
}

pub fn contains_bytes(s: &[u8], p: &[u8]) -> (r: bool)
    ensures
        r == contains(s@, p@),
{
    match find_from(s, p, 0) {
        Some(i) => true,
        None => false,
    }
}

pub fn to_ascii_lower(s: &[u8]) -> (r: Vec<u8>)
    ensures
        r@ == ascii_lower(s@),
{
    let mut out: Vec<u8> = Vec::with_capacity(s.len());
    let mut i: usize = 0;
    while i < s.len()
        invariant
            i <= s@.len(),
            out@ == ascii_lower(s@.subrange(0, i as int)),
        decreases s@.len() - i,
    {
        let b = s[i];
        let l = if b >= 65 && b <= 90 {
            b + 32
        } else {
            b
        };
        out.push(l);
        assert(ascii_lower(s@.subrange(0, i + 1)) =~= ascii_lower(s@.subrange(0, i as int)).push(
            l,
        ));
        i += 1;
    }
    assert(s@.subrange(0, s@.len() as int) =~= s@);
    out
}

/// Index just past the last `c` in `s` (0 when there is none), so that
/// `s[r..]` is the first item of `s.rsplit(c)`.
pub fn after_last_index(s: &[u8], c: u8) -> (r: usize)
    ensures
        r == last_index_of(s@, c) + 1,
        r <= s@.len(),
{
    proof {
        lemma_last_index_of(s@, c);
    }
    let mut i = s.len();
    assert(s@.subrange(0, i as int) =~= s@);
    while i > 0
        invariant
            i <= s@.len(),
            last_index_of(s@, c) == last_index_of(s@.subrange(0, i as int), c),
        decreases i,
    {
        assert(s@.subrange(0, i - 1) =~= s@.subrange(0, i as int).drop_last());
        if s[i - 1] == c {
            return i;
        }
        i -= 1;
    }
    i
}

/// Is `seg` (which holds no `c`) one of the items of `s.split(c)`?
pub fn has_segment(s: &[u8], seg: &[u8], c: u8) -> (r: bool)
    ensures
        r == is_segment(s@, seg@, c),
{
    let mut i: usize = 0;
    loop
        invariant
            i <= s@.len(),
            forall|j: int|
                #![trigger occurs_at(s@, seg@, j)]
                0 <= j < i ==> !(occurs_at(s@, seg@, j) && (j == 0 || s@[j - 1] == c) && (j
                    + seg@.len() == s@.len() || s@[j + seg@.len()] == c)),
        ensures
            forall|j: int|
                #![trigger occurs_at(s@, seg@, j)]
                0 <= j <= s@.len() ==> !(occurs_at(s@, seg@, j) && (j == 0 || s@[j - 1] == c) && (j
                    + seg@.len() == s@.len() || s@[j + seg@.len()] == c)),
        decreases s@.len() - i,
    {
        if (i == 0 || s[i - 1] == c) && matches_at(s, seg, i) {
            let end = i + seg.len();
            if end == s.len() || s[end] == c {
                return true;
            }
        }
        if i == s.len() {
            assert(forall|j: int|
                #![trigger occurs_at(s@, seg@, j)]
                0 <= j <= i ==> !(occurs_at(s@, seg@, j) && (j == 0 || s@[j - 1] == c) && (j
                    + seg@.len() == s@.len() || s@[j + seg@.len()] == c)));
            break;
        }
        i += 1;
    }
    proof {
        assert forall|j: int|
            #![trigger occurs_at(s@, seg@, j)]
            occurs_at(s@, seg@, j) implies !((j == 0 || s@[j - 1] == c) && (j + seg@.len()
                == s@.len() || s@[j + seg@.len()] == c)) by {
            assert(j <= s@.len());
        }
    }
    false
}

/// Index of the first occurrence of `p` at or after `from` (-1 if none).
pub open spec fn next_occ(s: Seq<u8>, p: Seq<u8>, from: int) -> int
    decreases s.len() + 1 - from,
{
    if from < 0 || from > s.len() {
        -1
    } else if occurs_at(s, p, from) {
        from
    } else {
        next_occ(s, p, from + 1)
    }
}

pub fn next_occurrence(s: &[u8], p: &[u8], from: usize) -> (r: Option<usize>)
    requires
        from <= s@.len(),
    ensures
        match r {
            Some(i) => next_occ(s@, p@, from as int) == i as int && from <= i <= s@.len(),
            None => next_occ(s@, p@, from as int) == -1,
        },
{
    let mut i = from;
    while i < s.len()
        invariant
            from <= i <= s@.len(),
            next_occ(s@, p@, from as int) == next_occ(s@, p@, i as int),
        decreases s@.len() - i,
    {
        if matches_at(s, p, i) {
            return Some(i);
        }
        i += 1;
    }
    if matches_at(s, p, i) {
        return Some(i);
    }
    assert(next_occ(s@, p@, i + 1) == -1);
    None
}

/// Length of the Unicode whitespace character that `s` starts with (0 when
/// it starts with none), on UTF-8 bytes.
pub open spec fn ws_prefix_len(s: Seq<u8>) -> nat {
    if s.len() >= 1 && ((9 <= s[0] && s[0] <= 13) || s[0] == 32) {
        1
    } else if s.len() >= 2 && s[0] == 0xC2 && (s[1] == 0x85 || s[1] == 0xA0) {
        2
    } else if s.len() >= 3 && ((s[0] == 0xE1 && s[1] == 0x9A && s[2] == 0x80) || (s[0] == 0xE2
        && s[1] == 0x80 && ((0x80 <= s[2] && s[2] <= 0x8A) || s[2] == 0xA8 || s[2] == 0xA9 || s[2]
        == 0xAF)) || (s[0] == 0xE2 && s[1] == 0x81 && s[2] == 0x9F) || (s[0] == 0xE3 && s[1]
        == 0x80 && s[2] == 0x80)) {
        3
    } else {
        0
    }
}

/// Length of the Unicode whitespace character that `s` ends with (0 when
/// it ends with none).
pub open spec fn ws_suffix_len(s: Seq<u8>) -> nat {
    let n = s.len() as int;
    if n >= 1 && ws_prefix_len(s.subrange(n - 1, n)) == 1 {
        1
    } else if n >= 2 && ws_prefix_len(s.subrange(n - 2, n)) == 2 {
        2
    } else if n >= 3 && ws_prefix_len(s.subrange(n - 3, n)) == 3 {
        3
    } else {
        0
    }
}

/// `str::trim_start`.
pub open spec fn trim_start(s: Seq<u8>) -> Seq<u8>
    decreases s.len(),
{
    if s.len() > 0 && ws_prefix_len(s) > 0 {
        trim_start(s.skip(ws_prefix_len(s) as int))
    } else {
        s
    }
}

/// `str::trim_end`.
pub open spec fn trim_end(s: Seq<u8>) -> Seq<u8>
    decreases s.len(),
{
    if s.len() > 0 && ws_suffix_len(s) > 0 {
        trim_end(s.take(s.len() - ws_suffix_len(s)))
    } else {
        s
    }
}

/// The words of `s` (its maximal runs without whitespace) joined by single
/// spaces: `s.split_whitespace().collect::<Vec<_>>().join(" ")`. `gap`: a
/// space is owed before the next word; `any`: a word has been written.
pub open spec fn squeeze(s: Seq<u8>, gap: bool, any: bool) -> Seq<u8>
    decreases s.len(),
{
    if s.len() == 0 {
        Seq::empty()
    } else if ws_prefix_len(s) > 0 {
        squeeze(s.skip(ws_prefix_len(s) as int), true, any)
    } else {
        (if gap && any {
            seq![32u8]
        } else {
            Seq::empty()
        }) + seq![s[0]] + squeeze(s.drop_first(), false, true)
    }
}

pub open spec fn collapse_ws(s: Seq<u8>) -> Seq<u8> {
    squeeze(s, false, false)
}

/// Length of the whitespace character at `s[i..]`.
pub fn ws_len_at(s: &[u8], i: usize) -> (r: usize)
    requires
        i <= s@.len(),
    ensures
        r == ws_prefix_len(s@.subrange(i as int, s@.len() as int)),
        r <= s@.len() - i,
{
    let ghost t = s@.subrange(i as int, s@.len() as int);
    let n = s.len() - i;
    if n >= 1 && ((9 <= s[i] && s[i] <= 13) || s[i] == 32) {
        return 1;
    }
    if n >= 2 && s[i] == 0xC2 && (s[i + 1] == 0x85 || s[i + 1] == 0xA0) {
        return 2;
    }
    if n >= 3 {
        let (a, b, c) = (s[i], s[i + 1], s[i + 2]);
        assert(t[0] == a && t[1] == b && t[2] == c);
        if (a == 0xE1 && b == 0x9A && c == 0x80) || (a == 0xE2 && b == 0x80 && ((0x80 <= c && c
            <= 0x8A) || c == 0xA8 || c == 0xA9 || c == 0xAF)) || (a == 0xE2 && b == 0x81 && c
            == 0x9F) || (a == 0xE3 && b == 0x80 && c == 0x80) {
            return 3;
        }
    }
    0
}

/// Length of the whitespace character that `s[..end]` ends with.
pub fn ws_suffix_len_at(s: &[u8], end: usize) -> (r: usize)
    requires
        end <= s@.len(),
    ensures
        r == ws_suffix_len(s@.subrange(0, end as int)),
        r <= end,
{
    let ghost t = s@.subrange(0, end as int);
    if end >= 1 {
        let k = ws_len_at_range(s, end - 1, end);
        assert(t.subrange(end - 1, end as int) =~= s@.subrange(end - 1, end as int));
        if k == 1 {
            return 1;
        }
    }
    if end >= 2 {
        let k = ws_len_at_range(s, end - 2, end);
        assert(t.subrange(end - 2, end as int) =~= s@.subrange(end - 2, end as int));
        if k == 2 {
            return 2;
        }
    }
    if end >= 3 {
        let k = ws_len_at_range(s, end - 3, end);
        assert(t.subrange(end - 3, end as int) =~= s@.subrange(end - 3, end as int));
        if k == 3 {
            return 3;
        }
    }
    0
}

/// Length of the whitespace character at the start of `s[i..end]`.
fn ws_len_at_range(s: &[u8], i: usize, end: usize) -> (r: usize)
    requires
        i <= end <= s@.len(),
    ensures
        r == ws_prefix_len(s@.subrange(i as int, end as int)),
{
    let sub = vstd::slice::slice_subrange(s, i, end);
    ws_len_at(sub, 0)
}

/// Index where `trim_start(s[from..])` begins.
pub fn trim_start_from(s: &[u8], from: usize) -> (r: usize)
    requires
        from <= s@.len(),
    ensures
        from <= r <= s@.len(),
        trim_start(s@.subrange(from as int, s@.len() as int)) == s@.subrange(
            r as int,
            s@.len() as int,
        ),
{
    let mut i = from;
    loop
        invariant
            from <= i <= s@.len(),
            trim_start(s@.subrange(from as int, s@.len() as int)) == trim_start(
                s@.subrange(i as int, s@.len() as int),
            ),
        decreases s@.len() - i,
    {
        let k = ws_len_at(s, i);
        if i == s.len() || k == 0 {
            return i;
        }
        assert(s@.subrange(i as int, s@.len() as int).skip(k as int) =~= s@.subrange(
            i + k,
            s@.len() as int,
        ));
        i = i + k;
    }
}

/// Index where `trim_end(s[..end])` ends.
pub fn trim_end_to(s: &[u8], end: usize) -> (r: usize)
    requires
        end <= s@.len(),
    ensures
        r <= end,
        trim_end(s@.subrange(0, end as int)) == s@.subrange(0, r as int),
{
    let mut e = end;
    loop
        invariant
            e <= end <= s@.len(),
            trim_end(s@.subrange(0, end as int)) == trim_end(s@.subrange(0, e as int)),
        decreases e,
    {
        let k = ws_suffix_len_at(s, e);
        if e == 0 || k == 0 {
            return e;
        }
        assert(s@.subrange(0, e as int).take(e - k) =~= s@.subrange(0, e - k));
        e = e - k;
    }
}

/// `s.split_whitespace().collect::<Vec<_>>().join(" ")`.
pub fn collapse_whitespace(s: &[u8]) -> (r: Vec<u8>)
    ensures
        r@ == collapse_ws(s@),
{
    let mut out: Vec<u8> = Vec::new();
    let mut gap = false;
    let mut any = false;
    let mut i: usize = 0;
    assert(s@.subrange(0, s@.len() as int) =~= s@);
    while i < s.len()
        invariant
            i <= s@.len(),
            collapse_ws(s@) == out@ + squeeze(s@.subrange(i as int, s@.len() as int), gap, any),
        decreases s@.len() - i,
    {
        let ghost t = s@.subrange(i as int, s@.len() as int);
        let k = ws_len_at(s, i);
        if k > 0 {
            assert(t.skip(k as int) =~= s@.subrange(i + k, s@.len() as int));
            gap = true;
            i = i + k;
        } else {
            let ghost before = out@;
            if gap && any {
                out.push(32u8);
            }
            out.push(s[i]);
            assert(t.drop_first() =~= s@.subrange(i + 1, s@.len() as int));
            assert(t[0] == s@[i as int]);
            proof {
                let pre = if gap && any {
                    seq![32u8]
                } else {
                    Seq::<u8>::empty()
                };
                assert(out@ =~= before + pre + seq![t[0]]);
                assert(squeeze(t, gap, any) == pre + seq![t[0]] + squeeze(t.drop_first(), false, true));
                assert(before + squeeze(t, gap, any) =~= out@ + squeeze(t.drop_first(), false, true));
            }
            gap = false;
            any = true;
            i += 1;
        }
    }
    assert(s@.subrange(i as int, s@.len() as int) =~= Seq::<u8>::empty());
    assert(out@ + Seq::<u8>::empty() =~= out@);
    out
}

/// `bytes` when they are valid UTF-8, else nothing: what
/// `str::from_utf8(..).unwrap_or("")` keeps.
pub open spec fn utf8_or_empty(bytes: Seq<u8>) -> Seq<u8> {
    if valid_utf8(bytes) {
        bytes
    } else {
        Seq::empty()
    }
}

/// `std::str::from_utf8`: the bytes as text when they are valid UTF-8
/// (the text's bytes are then exactly `bytes`), `None` when they are not.
#[verifier::external_body]
pub(crate) fn utf8_str(bytes: &[u8]) -> (r: Option<&str>)
    ensures
        r is Some <==> valid_utf8(bytes@),
        r matches Some(text) ==> text.spec_bytes() == bytes@,
{
    std::str::from_utf8(bytes).ok()
}

/// The text of bytes `start..end` of `s`, as `str::get` with a byte range
/// gives it: `None` unless `start <= end <= len` and both ends are
/// character boundaries.
pub(crate) fn str_get(s: &str, start: usize, end: usize) -> (r: Option<&str>)
    ensures
        r is Some <==> (start <= end <= s.spec_bytes().len() && is_char_boundary(
            s.spec_bytes(),
            start as int,
        ) && is_char_boundary(s.spec_bytes(), end as int)),
        r matches Some(text) ==> text.spec_bytes() == s.spec_bytes().subrange(
            start as int,
            end as int,
        ),
{
    if !(start <= end && end <= s.as_bytes().len() && s.is_char_boundary(start) && s.is_char_boundary(end)) {
        return None;
    }
    let ghost b = s.spec_bytes();
    proof {
        vstd::utf8::encode_utf8_valid_utf8(s@);
        vstd::utf8::valid_utf8_split(b, start as int);
    }
    let (_, tail) = s.split_at(start);
    let ghost tb = tail.spec_bytes();
    proof {
        vstd::utf8::is_char_boundary_start_end_of_seq(tb);
        if end < b.len() {
            vstd::utf8::is_char_boundary_iff_not_is_continuation_byte(b, end as int);
            vstd::utf8::is_char_boundary_iff_not_is_continuation_byte(tb, (end - start) as int);
            assert(tb[(end - start) as int] == b[end as int]);
        } else {
            assert(tb.len() == end - start);
        }
    }
    let (mid, _) = tail.split_at(end - start);
    assert(mid.spec_bytes() =~= b.subrange(start as int, end as int));
    Some(mid)
}

/// The UTF-8 bytes of ASCII text are its characters, one byte each.
pub proof fn lemma_ascii_bytes(s: &str)
    requires
        vstd::utf8::is_ascii_chars(s@),
    ensures
        s.spec_bytes() == s@.map_values(|c: char| c as u8),
{
    vstd::utf8::is_ascii_chars_encode_utf8(s@);
    assert(s.spec_bytes() =~= s@.map_values(|c: char| c as u8));
}

/// After a separator `c` followed by text holding no `c`, that text is what
/// follows the last `c`; a text holding no `c` follows none.
pub proof fn lemma_after_last_sep(p: Seq<u8>, c: u8, e: Seq<u8>)
    requires
        forall|i: int| 0 <= i < e.len() ==> e[i] != c,
    ensures
        after_last(p + seq![c] + e, c) == e,
        after_last(e, c) == e,
{
    let s = p + seq![c] + e;
    lemma_last_index_of(s, c);
    lemma_last_index_of(e, c);
    let idx = last_index_of(s, c);
    assert(s[p.len() as int] == c);
    if idx > p.len() {
        assert(s[idx] == e[idx - p.len() - 1]);
    }
    assert(idx == p.len());
    assert(after_last(s, c) =~= e);
    if last_index_of(e, c) >= 0 {
        assert(e[last_index_of(e, c)] == c);
    }
    assert(after_last(e, c) =~= e);
}

/// Lowercasing works byte by byte, so it keeps a separator in place.
pub proof fn lemma_lower_around(d: Seq<u8>, c: u8, n: Seq<u8>)
    requires
        !(65 <= c <= 90),
    ensures
        ascii_lower(d + seq![c] + n) == ascii_lower(d) + seq![c] + ascii_lower(n),
        forall|i: int| 0 <= i < n.len() && n[i] != c && !(97 <= c <= 122) ==> ascii_lower(n)[i] != c,
{
    assert(ascii_lower(d + seq![c] + n) =~= ascii_lower(d) + seq![c] + ascii_lower(n));
}

} // verus!
