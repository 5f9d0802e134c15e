//! Stable insertion order: the specification of a stable sort by a
//! total preorder, and the step that the executable sorts take.

use vstd::prelude::*;

verus! {

/// Inserts `x` into `s` after every trailing element that must not follow
/// it; in a sequence sorted by `le`, this is just after the last element
/// that `le`-precedes `x`.
pub open spec fn ins<T>(s: Seq<T>, x: T, le: spec_fn(T, T) -> bool) -> Seq<T>
    decreases s.len(),
{
    if s.len() == 0 {
        seq![x]
    } else if le(s.last(), x) {
        s.push(x)
    } else {
        ins(s.drop_last(), x, le).push(s.last())
    }
}

/// Stable sort of `s` by `le` (elements that compare equal keep their order).
pub open spec fn isort<T>(s: Seq<T>, le: spec_fn(T, T) -> bool) -> Seq<T>
    decreases s.len(),
{
    if s.len() == 0 {
        Seq::empty()
    } else {
        ins(isort(s.drop_last(), le), s.last(), le)
    }
}

/// `le` is a total preorder.
pub open spec fn total_preorder<T>(le: spec_fn(T, T) -> bool) -> bool {
    &&& forall|a: T, b: T| #[trigger] le(a, b) || le(b, a)
    &&& forall|a: T, b: T, c: T| #[trigger] le(a, b) && #[trigger] le(b, c) ==> le(a, c)
}

pub open spec fn sorted_by<T>(s: Seq<T>, le: spec_fn(T, T) -> bool) -> bool {
    forall|i: int, j: int| 0 <= i < j < s.len() ==> le(#[trigger] s[i], #[trigger] s[j])
}

/// Inserting at `j`, where everything from `j` on must follow `x` and the
/// element before `j` may precede it, is `ins`.
pub proof fn lemma_ins_at<T>(s: Seq<T>, x: T, le: spec_fn(T, T) -> bool, j: int)
    requires
        0 <= j <= s.len(),
        j == 0 || le(s[j - 1], x),
        forall|t: int| j <= t < s.len() ==> !le(#[trigger] s[t], x),
    ensures
        ins(s, x, le) == s.take(j).push(x) + s.skip(j),
    decreases s.len(),
{
    if s.len() == 0 {
        assert(s.take(j).push(x) + s.skip(j) =~= seq![x]);
    } else if j == s.len() {
        assert(le(s.last(), x));
        assert(s.take(j).push(x) + s.skip(j) =~= s.push(x));
    } else {
        assert(!le(s[s.len() - 1], x));
        let t = s.drop_last();
        assert forall|u: int| j <= u < t.len() implies !le(#[trigger] t[u], x) by {
            assert(t[u] == s[u]);
        }
        lemma_ins_at(t, x, le, j);
        assert(t.take(j).push(x) + t.skip(j) + seq![s.last()] =~= s.take(j).push(x) + s.skip(j));
    }
}

/// `ins` and `isort` keep the multiset of elements and their count.
pub proof fn lemma_ins_len<T>(s: Seq<T>, x: T, le: spec_fn(T, T) -> bool)
    ensures
        ins(s, x, le).len() == s.len() + 1,
    decreases s.len(),
{
    if s.len() > 0 && !le(s.last(), x) {
        lemma_ins_len(s.drop_last(), x, le);
    }
}

pub proof fn lemma_isort_len<T>(s: Seq<T>, le: spec_fn(T, T) -> bool)
    ensures
        isort(s, le).len() == s.len(),
    decreases s.len(),
{
    if s.len() > 0 {
        lemma_isort_len(s.drop_last(), le);
        lemma_ins_len(isort(s.drop_last(), le), s.last(), le);
    }
}

/// Sorting commutes with a map that carries one order onto the other on
/// the elements being sorted.
pub proof fn lemma_ins_map<A, B>(
    s: Seq<A>,
    x: A,
    le1: spec_fn(A, A) -> bool,
    f: spec_fn(A) -> B,
    le2: spec_fn(B, B) -> bool,
)
    requires
        forall|i: int| 0 <= i < s.len() ==> le1(#[trigger] s[i], x) == le2(f(s[i]), f(x)),
    ensures
        ins(s, x, le1).map_values(f) == ins(s.map_values(f), f(x), le2),
    decreases s.len(),
{
    if s.len() == 0 {
        assert(ins(s, x, le1).map_values(f) =~= seq![f(x)]);
    } else {
        let sm = s.map_values(f);
        assert(sm.last() == f(s.last()));
        assert(le1(s[s.len() - 1], x) == le2(f(s[s.len() - 1]), f(x)));
        if le1(s.last(), x) {
            assert(s.push(x).map_values(f) =~= sm.push(f(x)));
        } else {
            let t = s.drop_last();
            assert forall|i: int| 0 <= i < t.len() implies le1(#[trigger] t[i], x) == le2(
                f(t[i]),
                f(x),
            ) by {
                assert(t[i] == s[i]);
            }
            lemma_ins_map(t, x, le1, f, le2);
            assert(t.map_values(f) =~= sm.drop_last());
            assert(ins(t, x, le1).push(s.last()).map_values(f) =~= ins(t, x, le1).map_values(
                f,
            ).push(f(s.last())));
        }
    }
}

/// `ins` and `isort` only rearrange their input.
pub proof fn lemma_ins_multiset<T>(s: Seq<T>, x: T, le: spec_fn(T, T) -> bool)
    ensures
        ins(s, x, le).to_multiset() == s.to_multiset().insert(x),
    decreases s.len(),
{
    broadcast use vstd::seq_lib::group_to_multiset_ensures;

    if s.len() == 0 {
        assert(ins(s, x, le) == s.push(x));
    } else if le(s.last(), x) {
        assert(ins(s, x, le) == s.push(x));
    } else {
        let t = s.drop_last();
        lemma_ins_multiset(t, x, le);
        assert(t.push(s.last()) =~= s);
        assert(ins(s, x, le).to_multiset() =~= s.to_multiset().insert(x));
    }
}

pub proof fn lemma_isort_multiset<T>(s: Seq<T>, le: spec_fn(T, T) -> bool)
    ensures
        isort(s, le).to_multiset() == s.to_multiset(),
    decreases s.len(),
{
    broadcast use vstd::seq_lib::group_to_multiset_ensures;

    if s.len() == 0 {
        assert(isort(s, le).to_multiset() =~= s.to_multiset());
    } else {
        let t = s.drop_last();
        lemma_isort_multiset(t, le);
        lemma_ins_multiset(isort(t, le), s.last(), le);
        assert(t.push(s.last()) =~= s);
    }
}

pub proof fn lemma_isort_elems<T>(s: Seq<T>, le: spec_fn(T, T) -> bool)
    ensures
        forall|y: T| #[trigger] isort(s, le).contains(y) <==> s.contains(y),
{
    broadcast use vstd::seq_lib::group_to_multiset_ensures;

    lemma_isort_multiset(s, le);
    assert forall|y: T| #[trigger] isort(s, le).contains(y) <==> s.contains(y) by {
        assert(isort(s, le).to_multiset().count(y) == s.to_multiset().count(y));
    }
}

pub proof fn lemma_isort_map<A, B>(
    s: Seq<A>,
    le1: spec_fn(A, A) -> bool,
    f: spec_fn(A) -> B,
    le2: spec_fn(B, B) -> bool,
)
    requires
        forall|a: A, b: A| s.contains(a) && s.contains(b) ==> #[trigger] le1(a, b) == le2(f(a), f(b)),
    ensures
        isort(s, le1).map_values(f) == isort(s.map_values(f), le2),
    decreases s.len(),
{
    if s.len() == 0 {
        assert(isort(s, le1).map_values(f) =~= Seq::<B>::empty());
    } else {
        let t = s.drop_last();
        assert forall|a: A, b: A| t.contains(a) && t.contains(b) implies #[trigger] le1(a, b) == le2(
            f(a),
            f(b),
        ) by {
            let i = choose|i: int| 0 <= i < t.len() && t[i] == a;
            let j = choose|j: int| 0 <= j < t.len() && t[j] == b;
            assert(t[i] == s[i] && t[j] == s[j]);
            assert(s.contains(a) && s.contains(b));
        }
        lemma_isort_map(t, le1, f, le2);
        assert(t.map_values(f) =~= s.map_values(f).drop_last());
        let u = isort(t, le1);
        lemma_isort_elems(t, le1);
        assert forall|i: int| 0 <= i < u.len() implies le1(#[trigger] u[i], s.last()) == le2(
            f(u[i]),
            f(s.last()),
        ) by {
            assert(u.contains(u[i]));
            assert(t.contains(u[i]));
            let j = choose|j: int| 0 <= j < t.len() && t[j] == u[i];
            assert(t[j] == s[j]);
            assert(s.contains(u[i]));
            assert(s[s.len() - 1] == s.last());
            assert(s.contains(s.last()));
        }
        lemma_ins_map(u, s.last(), le1, f, le2);
    }
}

proof fn lemma_ins_sorted<T>(s: Seq<T>, x: T, le: spec_fn(T, T) -> bool)
    requires
        total_preorder(le),
        sorted_by(s, le),
    ensures
        sorted_by(ins(s, x, le), le),
    decreases s.len(),
{
    if s.len() == 0 {
    } else if le(s.last(), x) {
        let r = s.push(x);
        assert forall|i: int, j: int| 0 <= i < j < r.len() implies le(#[trigger] r[i], #[trigger] r[j]) by {
            if j == s.len() {
                if i < s.len() - 1 {
                    assert(le(s[i], s[s.len() - 1]));
                }
                assert(le(r[i], s.last()) && le(s.last(), x));
            } else {
                assert(r[i] == s[i] && r[j] == s[j]);
            }
        }
    } else {
        let t = s.drop_last();
        assert(sorted_by(t, le)) by {
            assert forall|i: int, j: int| 0 <= i < j < t.len() implies le(#[trigger] t[i], #[trigger] t[j]) by {
                assert(t[i] == s[i] && t[j] == s[j]);
            }
        }
        lemma_ins_sorted(t, x, le);
        lemma_ins_multiset(t, x, le);
        let u = ins(t, x, le);
        let r = u.push(s.last());
        assert(le(x, s.last()));
        assert forall|i: int, j: int| 0 <= i < j < r.len() implies le(#[trigger] r[i], #[trigger] r[j]) by {
            if j == u.len() {
                assert(u.to_multiset().count(u[i]) > 0) by {
                    broadcast use vstd::seq_lib::group_to_multiset_ensures;

                    assert(u.contains(u[i]));
                }
                assert(t.to_multiset().insert(x).count(u[i]) > 0);
                if u[i] != x {
                    assert(t.to_multiset().count(u[i]) > 0);
                    assert(t.contains(u[i])) by {
                        broadcast use vstd::seq_lib::group_to_multiset_ensures;

                    }
                    let k = choose|k: int| 0 <= k < t.len() && t[k] == u[i];
                    assert(le(s[k], s[s.len() - 1]));
                }
            } else {
                assert(r[i] == u[i] && r[j] == u[j]);
            }
        }
    }
}

/// A stable sort by a total preorder is sorted.
pub proof fn lemma_isort_sorted<T>(s: Seq<T>, le: spec_fn(T, T) -> bool)
    requires
        total_preorder(le),
    ensures
        sorted_by(isort(s, le), le),
    decreases s.len(),
{
    if s.len() > 0 {
        lemma_isort_sorted(s.drop_last(), le);
        lemma_ins_sorted(isort(s.drop_last(), le), s.last(), le);
    }
}

} // verus!
