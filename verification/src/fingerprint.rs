//! Winnowing fingerprints of a normalized token stream: every k-gram of
//! codes is hashed, and in every window of `w` consecutive k-gram hashes the
//! minimum is selected; a function's fingerprints are the distinct selected
//! hashes, sorted. Any run of `w + k - 1` shared tokens shares a window,
//! hence a fingerprint.

use crate::cluster::strictly_sorted;
use vstd::prelude::*;
use vstd::wrapping::u64_specs;

verus! {

/// Tokens per k-gram.
pub const KGRAM: usize = 10;

/// K-gram hashes per window: with `KGRAM` this catches any shared run of
/// 17 normalized tokens.
pub const WINDOW: usize = 8;

/// Multiplier of the polynomial k-gram hash.
pub const HASH_BASE: u64 = 0x100000001b3;

/// Polynomial hash of a k-gram, with wrapping `u64` arithmetic.
pub open spec fn kgram_hash(s: Seq<u16>) -> u64
    decreases s.len(),
{
    if s.len() == 0 {
        0
    } else {
        u64_specs::wrapping_add(
            u64_specs::wrapping_mul(kgram_hash(s.drop_last()), HASH_BASE),
            (s.last() as u64 + 1) as u64,
        )
    }
}

/// The hash of every k-gram of `c`, in order.
pub open spec fn kgram_hashes(c: Seq<u16>, k: nat) -> Seq<u64> {
    if c.len() < k {
        Seq::empty()
    } else {
        Seq::new((c.len() - k + 1) as nat, |i: int| kgram_hash(c.subrange(i, i + k)))
    }
}

pub open spec fn seq_min(s: Seq<u64>) -> u64
    decreases s.len(),
{
    if s.len() <= 1 {
        s[0]
    } else {
        let m = seq_min(s.drop_last());
        if s.last() < m {
            s.last()
        } else {
            m
        }
    }
}

/// Number of windows over `m` hashes: one (possibly short) window when
/// there are no more than `w`.
pub open spec fn num_windows(m: nat, w: nat) -> nat {
    if m == 0 {
        0
    } else if m <= w {
        1
    } else {
        (m - w + 1) as nat
    }
}

/// The minimum of window `j`.
pub open spec fn window_min(h: Seq<u64>, j: int, w: nat) -> u64 {
    seq_min(h.subrange(j, if j + w <= h.len() { j + w } else { h.len() as int }))
}

/// `x` is the minimum of some window of the k-gram hashes of `c`.
pub open spec fn selected(c: Seq<u16>, k: nat, w: nat, x: u64) -> bool {
    let h = kgram_hashes(c, k);
    exists|j: int| 0 <= j < num_windows(h.len(), w) && x == #[trigger] window_min(h, j, w)
}

fn kgram_hash_at(c: &[u16], i: usize, k: usize) -> (r: u64)
    requires
        i + k <= c@.len(),
    ensures
        r == kgram_hash(c@.subrange(i as int, i + k)),
{
    let mut h: u64 = 0;
    let mut t: usize = 0;
    while t < k
        invariant
            t <= k,
            i + k <= c@.len(),
            c@.len() == c.len(),
            h == kgram_hash(c@.subrange(i as int, i + t)),
        decreases k - t,
    {
        let ghost s = c@.subrange(i as int, i + t + 1);
        assert(s.drop_last() =~= c@.subrange(i as int, i + t));
        assert(s.last() == c@[i + t]);
        h = h.wrapping_mul(HASH_BASE).wrapping_add(c[i + t] as u64 + 1);
        t += 1;
    }
    h
}

fn min_of(h: &Vec<u64>, a: usize, b: usize) -> (r: u64)
    requires
        a < b <= h@.len(),
    ensures
        r == seq_min(h@.subrange(a as int, b as int)),
{
    let mut m = h[a];
    let mut i = a + 1;
    assert(h@.subrange(a as int, a + 1).len() == 1);
    while i < b
        invariant
            a < i <= b <= h@.len(),
            m == seq_min(h@.subrange(a as int, i as int)),
        decreases b - i,
    {
        let ghost s = h@.subrange(a as int, i + 1);
        assert(s.drop_last() =~= h@.subrange(a as int, i as int));
        assert(s.last() == h@[i as int]);
        if h[i] < m {
            m = h[i];
        }
        i += 1;
    }
    m
}

/// Adds `x` to the strictly sorted `v`, unless it is there already.
pub(crate) fn insert_sorted(v: &mut Vec<u64>, x: u64)
    requires
        strictly_sorted(old(v)@),
    ensures
        strictly_sorted(final(v)@),
        forall|y: u64| final(v)@.contains(y) <==> (old(v)@.contains(y) || y == x),
{
    let mut j: usize = 0;
    while j < v.len() && v[j] < x
        invariant
            j <= v@.len(),
            v@ == old(v)@,
            strictly_sorted(v@),
            forall|t: int| 0 <= t < j ==> v@[t] < x,
        decreases v@.len() - j,
    {
        j += 1;
    }
    if j < v.len() && v[j] == x {
        assert(v@[j as int] == x);
        assert(v@.contains(x));
        return;
    }
    let ghost before = v@;
    v.insert(j, x);
    proof {
        assert(v@ =~= before.take(j as int).push(x) + before.skip(j as int));
        assert forall|a: int, b: int| 0 <= a < b < v@.len() implies v@[a] < v@[b] by {
            if b < j {
            } else if b == j {
            } else if a < j {
                assert(before[b - 1] >= before[j as int] || b - 1 == j);
            } else if a == j {
                assert(before[j as int] > x);
                assert(before[b - 1] >= before[j as int]);
            } else {
            }
        }
        assert forall|y: u64|
            #![trigger v@.contains(y)]
            #![trigger before.contains(y)]
            v@.contains(y) <==> (before.contains(y) || y == x) by {
            if v@.contains(y) {
                let q = choose|q: int| 0 <= q < v@.len() && v@[q] == y;
                if q < j {
                    assert(before[q] == y);
                } else if q > j {
                    assert(before[q - 1] == y);
                }
            }
            if before.contains(y) {
                let q = choose|q: int| 0 <= q < before.len() && before[q] == y;
                if q < j {
                    assert(v@[q] == y);
                } else {
                    assert(v@[q + 1] == y);
                }
            }
            if y == x {
                assert(v@[j as int] == y);
            }
        }
    }
}

/// The winnowing fingerprints of `codes`: the distinct minima of the
/// windows of `w` consecutive `k`-gram hashes, sorted; empty when there are
/// fewer than `k` codes.
pub fn winnow(codes: &[u16], k: usize, w: usize) -> (r: Vec<u64>)
    requires
        k >= 1,
        w >= 1,
    ensures
        strictly_sorted(r@),
        forall|x: u64| r@.contains(x) <==> selected(codes@, k as nat, w as nat, x),
{
    let mut out: Vec<u64> = Vec::new();
    if codes.len() < k {
        proof {
            assert(kgram_hashes(codes@, k as nat).len() == 0);
        }
        return out;
    }
    let m = codes.len() - k + 1;
    let ghost hs = kgram_hashes(codes@, k as nat);
    let mut h: Vec<u64> = Vec::with_capacity(m);
    let mut i: usize = 0;
    while i < m
        invariant
            m == codes@.len() - k + 1,
            hs == kgram_hashes(codes@, k as nat),
            hs.len() == m,
            i <= m,
            h@ == hs.take(i as int),
        decreases m - i,
    {
        let x = kgram_hash_at(codes, i, k);
        h.push(x);
        assert(h@ =~= hs.take(i + 1));
        i += 1;
    }
    assert(h@ =~= hs);
    let nw = if m <= w {
        1
    } else {
        m - w + 1
    };
    let mut j: usize = 0;
    while j < nw
        invariant
            h@ == hs,
            hs == kgram_hashes(codes@, k as nat),
            m == hs.len(),
            m >= 1,
            w >= 1,
            nw == num_windows(m as nat, w as nat),
            j <= nw,
            strictly_sorted(out@),
            forall|x: u64|
                out@.contains(x) <==> exists|q: int| 0 <= q < j && x == #[trigger] window_min(hs, q, w as nat),
        decreases nw - j,
    {
        assert(j < m);
        assert(m <= w ==> j == 0);
        let end = if j + w <= m {
            j + w
        } else {
            m
        };
        let x = min_of(&h, j, end);
        assert(x == window_min(hs, j as int, w as nat));
        let ghost before = out@;
        insert_sorted(&mut out, x);
        proof {
            assert forall|y: u64| out@.contains(y) <==> exists|q: int|
                0 <= q < j + 1 && y == #[trigger] window_min(hs, q, w as nat) by {
                if out@.contains(y) && y != x {
                    assert(before.contains(y));
                }
                if exists|q: int| 0 <= q < j + 1 && y == #[trigger] window_min(hs, q, w as nat) {
                    let q = choose|q: int| 0 <= q < j + 1 && y == #[trigger] window_min(hs, q, w as nat);
                    if q < j {
                        assert(before.contains(y));
                    }
                }
            }
        }
        j += 1;
    }
    out
}

/// `x` inserted into the ascending, repeat-free `v` (unless already there).
pub open spec fn sorted_insert(v: Seq<u64>, x: u64) -> Seq<u64>
    decreases v.len(),
{
    if v.len() == 0 {
        seq![x]
    } else if x < v[0] {
        seq![x] + v
    } else if x == v[0] {
        v
    } else {
        seq![v[0]] + sorted_insert(v.drop_first(), x)
    }
}

/// The values of `s`, distinct and in ascending order.
pub open spec fn sorted_set_of(s: Seq<u64>) -> Seq<u64>
    decreases s.len(),
{
    if s.len() == 0 {
        Seq::empty()
    } else {
        sorted_insert(sorted_set_of(s.drop_last()), s.last())
    }
}

proof fn lemma_sorted_insert(v: Seq<u64>, x: u64)
    requires
        strictly_sorted(v),
    ensures
        strictly_sorted(sorted_insert(v, x)),
        forall|y: u64| #[trigger] sorted_insert(v, x).contains(y) <==> v.contains(y) || y == x,
    decreases v.len(),
{
    let r = sorted_insert(v, x);
    if v.len() == 0 {
        assert(r[0] == x);
    } else if x < v[0] {
        assert forall|y: u64| #[trigger] r.contains(y) <==> v.contains(y) || y == x by {
            if r.contains(y) {
                let i = choose|i: int| 0 <= i < r.len() && r[i] == y;
                if i > 0 {
                    assert(v[i - 1] == y);
                }
            }
            if v.contains(y) {
                let i = choose|i: int| 0 <= i < v.len() && v[i] == y;
                assert(r[i + 1] == y);
            }
            if y == x {
                assert(r[0] == x);
            }
        }
        assert forall|i: int, j: int| 0 <= i < j < r.len() implies r[i] < r[j] by {
            if i > 0 {
                assert(r[i] == v[i - 1] && r[j] == v[j - 1]);
            } else if j > 1 {
                assert(v[0] < v[j - 1]);
            }
        }
    } else if x == v[0] {
        assert(v.contains(v[0]));
    } else {
        let t = v.drop_first();
        assert(strictly_sorted(t)) by {
            assert forall|i: int, j: int| 0 <= i < j < t.len() implies t[i] < t[j] by {
                assert(t[i] == v[i + 1] && t[j] == v[j + 1]);
            }
        }
        lemma_sorted_insert(t, x);
        let u = sorted_insert(t, x);
        assert forall|y: u64| #[trigger] r.contains(y) <==> v.contains(y) || y == x by {
            if r.contains(y) {
                let i = choose|i: int| 0 <= i < r.len() && r[i] == y;
                if i > 0 {
                    assert(u[i - 1] == y);
                    assert(u.contains(y));
                    if y != x {
                        let k = choose|k: int| 0 <= k < t.len() && t[k] == y;
                        assert(v[k + 1] == y);
                    }
                } else {
                    assert(v[0] == y);
                }
            }
            if v.contains(y) {
                let i = choose|i: int| 0 <= i < v.len() && v[i] == y;
                if i > 0 {
                    assert(t[i - 1] == y);
                    assert(t.contains(y));
                    assert(u.contains(y));
                    let k = choose|k: int| 0 <= k < u.len() && u[k] == y;
                    assert(r[k + 1] == y);
                } else {
                    assert(r[0] == y);
                }
            }
            if y == x {
                assert(u.contains(x));
                let k = choose|k: int| 0 <= k < u.len() && u[k] == x;
                assert(r[k + 1] == x);
            }
        }
        assert forall|i: int, j: int| 0 <= i < j < r.len() implies r[i] < r[j] by {
            if i > 0 {
                assert(r[i] == u[i - 1] && r[j] == u[j - 1]);
            } else {
                assert(r[j] == u[j - 1]);
                assert(u.contains(u[j - 1]));
                if u[j - 1] != x {
                    let k = choose|k: int| 0 <= k < t.len() && t[k] == u[j - 1];
                    assert(v[0] < v[k + 1]);
                }
            }
        }
    }
}

pub proof fn lemma_sorted_set_of(s: Seq<u64>)
    ensures
        strictly_sorted(sorted_set_of(s)),
        forall|y: u64| #[trigger] sorted_set_of(s).contains(y) <==> s.contains(y),
    decreases s.len(),
{
    if s.len() > 0 {
        let t = s.drop_last();
        lemma_sorted_set_of(t);
        lemma_sorted_insert(sorted_set_of(t), s.last());
        assert forall|y: u64| #[trigger] sorted_set_of(s).contains(y) <==> s.contains(y) by {
            if t.contains(y) {
                let i = choose|i: int| 0 <= i < t.len() && t[i] == y;
                assert(s[i] == y);
            }
            if s.contains(y) {
                let i = choose|i: int| 0 <= i < s.len() && s[i] == y;
                if i < t.len() {
                    assert(t[i] == y);
                }
            }
            assert(s[s.len() - 1] == s.last());
        }
    }
}

/// The minimum of every window, in order.
pub open spec fn window_mins(c: Seq<u16>, k: nat, w: nat) -> Seq<u64> {
    let h = kgram_hashes(c, k);
    Seq::new(num_windows(h.len(), w), |j: int| window_min(h, j, w))
}

/// The fingerprints of a token stream with the standard k-gram and window
/// sizes: the selected hashes, distinct and in ascending order.
pub open spec fn fingerprints_of(codes: Seq<u16>) -> Seq<u64> {
    sorted_set_of(window_mins(codes, KGRAM as nat, WINDOW as nat))
}

/// `fingerprints_of` holds exactly the selected hashes, in ascending order.
pub proof fn lemma_fingerprints_of_selected(codes: Seq<u16>)
    ensures
        strictly_sorted(fingerprints_of(codes)),
        forall|x: u64|
            #[trigger] fingerprints_of(codes).contains(x) <==> selected(
                codes,
                KGRAM as nat,
                WINDOW as nat,
                x,
            ),
{
    let m = window_mins(codes, KGRAM as nat, WINDOW as nat);
    let h = kgram_hashes(codes, KGRAM as nat);
    lemma_sorted_set_of(m);
    assert forall|x: u64|
        #[trigger] fingerprints_of(codes).contains(x) <==> selected(
            codes,
            KGRAM as nat,
            WINDOW as nat,
            x,
        ) by {
        if m.contains(x) {
            let j = choose|j: int| 0 <= j < m.len() && m[j] == x;
            assert(x == window_min(h, j, WINDOW as nat));
        }
        if selected(codes, KGRAM as nat, WINDOW as nat, x) {
            let j = choose|j: int|
                0 <= j < num_windows(h.len(), WINDOW as nat) && x == #[trigger] window_min(
                    h,
                    j,
                    WINDOW as nat,
                );
            assert(m[j] == x);
        }
    }
}

/// Two ascending sequences without repeats that hold the same values are
/// the same sequence.
pub proof fn lemma_strictly_sorted_unique(a: Seq<u64>, b: Seq<u64>)
    requires
        strictly_sorted(a),
        strictly_sorted(b),
        forall|x: u64| a.contains(x) <==> b.contains(x),
    ensures
        a == b,
    decreases a.len(),
{
    if a.len() == 0 {
        if b.len() > 0 {
            assert(b.contains(b[0]));
        }
        assert(a =~= b);
    } else if b.len() == 0 {
        assert(a.contains(a[0]));
    } else {
        assert(a.contains(a[0]));
        assert(b.contains(b[0]));
        let i = choose|i: int| 0 <= i < b.len() && b[i] == a[0];
        let j = choose|j: int| 0 <= j < a.len() && a[j] == b[0];
        assert(a[0] == b[0]) by {
            if i > 0 {
                assert(b[0] < b[i]);
            }
            if j > 0 {
                assert(a[0] < a[j]);
            }
        }
        let a1 = a.drop_first();
        let b1 = b.drop_first();
        assert forall|x: u64| a1.contains(x) <==> b1.contains(x) by {
            if a1.contains(x) {
                let p = choose|p: int| 0 <= p < a1.len() && a1[p] == x;
                assert(a[p + 1] == x);
                assert(a[0] < a[p + 1]);
                assert(b.contains(x));
                let q = choose|q: int| 0 <= q < b.len() && b[q] == x;
                assert(q != 0);
                assert(b1[q - 1] == x);
            }
            if b1.contains(x) {
                let p = choose|p: int| 0 <= p < b1.len() && b1[p] == x;
                assert(b[p + 1] == x);
                assert(b[0] < b[p + 1]);
                assert(a.contains(x));
                let q = choose|q: int| 0 <= q < a.len() && a[q] == x;
                assert(q != 0);
                assert(a1[q - 1] == x);
            }
        }
        lemma_strictly_sorted_unique(a1, b1);
        assert(a =~= seq![a[0]] + a1);
        assert(b =~= seq![b[0]] + b1);
    }
}

/// What `winnow` returns with the standard sizes is `fingerprints_of`.
pub proof fn lemma_fingerprints_of(codes: Seq<u16>, fps: Seq<u64>)
    requires
        strictly_sorted(fps),
        forall|x: u64| fps.contains(x) <==> selected(codes, KGRAM as nat, WINDOW as nat, x),
    ensures
        fingerprints_of(codes) == fps,
{
    lemma_fingerprints_of_selected(codes);
    lemma_strictly_sorted_unique(fingerprints_of(codes), fps);
}

/// Winnowing's guarantee: two token streams that share a run of
/// `KGRAM + WINDOW - 1` consecutive codes share a fingerprint, since the
/// run holds a whole window of k-grams in both.
pub proof fn law_shared_run_shares_fingerprint(a: Seq<u16>, b: Seq<u16>, i: int, j: int, n: int)
    requires
        n >= KGRAM + WINDOW - 1,
        0 <= i,
        i + n <= a.len(),
        0 <= j,
        j + n <= b.len(),
        a.subrange(i, i + n) == b.subrange(j, j + n),
    ensures
        exists|x: u64| fingerprints_of(a).contains(x) && fingerprints_of(b).contains(x),
{
    let k = KGRAM as nat;
    let w = WINDOW as nat;
    let ha = kgram_hashes(a, k);
    let hb = kgram_hashes(b, k);
    assert(ha.len() == a.len() - k + 1);
    assert(hb.len() == b.len() - k + 1);
    let sa = ha.subrange(i, i + w);
    let sb = hb.subrange(j, j + w);
    assert forall|t: int| 0 <= t < w implies sa[t] == sb[t] by {
        assert(a.subrange(i + t, i + t + k) =~= a.subrange(i, i + n).subrange(t, t + k));
        assert(b.subrange(j + t, j + t + k) =~= b.subrange(j, j + n).subrange(t, t + k));
    }
    assert(sa =~= sb);
    // The run's window is a window of both streams.
    assert(i < num_windows(ha.len(), w));
    assert(j < num_windows(hb.len(), w));
    assert(window_min(ha, i, w) == seq_min(sa));
    assert(window_min(hb, j, w) == seq_min(sb));
    let x = seq_min(sa);
    assert(selected(a, k, w, x));
    assert(selected(b, k, w, x));
    lemma_fingerprints_of_selected(a);
    lemma_fingerprints_of_selected(b);
    assert(fingerprints_of(a).contains(x) && fingerprints_of(b).contains(x));
}

} // verus!
