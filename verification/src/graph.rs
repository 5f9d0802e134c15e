//! The match graph: matching pairs of functions, the connectivity they
//! induce, and its grouping into classes in order of first appearance.

use crate::union_find::UnionFind;
use vstd::prelude::*;

verus! {

/// Two functions (by index) whose similarity reached the threshold.
#[derive(Clone, Copy, PartialEq, Eq, Debug)]
pub struct Pair {
    pub a: u32,
    pub b: u32,
}

/// Some pair joins `x` and `y`, in either direction.
pub open spec fn joined(ps: Seq<Pair>, x: u32, y: u32) -> bool {
    exists|i: int|
        0 <= i < ps.len() && ((#[trigger] ps[i]).a == x && ps[i].b == y || ps[i].a == y && ps[i].b
            == x)
}

pub open spec fn is_walk(ps: Seq<Pair>, w: Seq<u32>) -> bool {
    w.len() > 0 && forall|i: int| 0 <= i < w.len() - 1 ==> joined(ps, #[trigger] w[i], w[i + 1])
}

/// `y` is reachable from `x` through the pairs (every element reaches itself).
pub open spec fn connected(ps: Seq<Pair>, x: u32, y: u32) -> bool {
    exists|w: Seq<u32>| #[trigger] is_walk(ps, w) && w[0] == x && w.last() == y
}

/// Every pair only names elements below `n`.
pub open spec fn pairs_below(ps: Seq<Pair>, n: nat) -> bool {
    forall|i: int| 0 <= i < ps.len() ==> (#[trigger] ps[i]).a < n && ps[i].b < n
}

pub proof fn lemma_connected_refl(ps: Seq<Pair>, x: u32)
    ensures
        connected(ps, x, x),
{
    let w = seq![x];
    assert(is_walk(ps, w));
}

pub proof fn lemma_connected_sym(ps: Seq<Pair>, x: u32, y: u32)
    requires
        connected(ps, x, y),
    ensures
        connected(ps, y, x),
{
    let w = choose|w: Seq<u32>| #[trigger] is_walk(ps, w) && w[0] == x && w.last() == y;
    let v = w.reverse();
    assert forall|i: int| 0 <= i < v.len() - 1 implies joined(ps, #[trigger] v[i], v[i + 1]) by {
        let j = w.len() - 2 - i;
        assert(joined(ps, w[j], w[j + 1]));
        let k = choose|k: int|
            0 <= k < ps.len() && ((#[trigger] ps[k]).a == w[j] && ps[k].b == w[j + 1] || ps[k].a
                == w[j + 1] && ps[k].b == w[j]);
        assert(v[i] == w[j + 1] && v[i + 1] == w[j]);
        assert(0 <= k < ps.len() && (ps[k].a == v[i] && ps[k].b == v[i + 1] || ps[k].a == v[i + 1]
            && ps[k].b == v[i]));
    }
    assert(is_walk(ps, v));
}

pub proof fn lemma_connected_trans(ps: Seq<Pair>, x: u32, y: u32, z: u32)
    requires
        connected(ps, x, y),
        connected(ps, y, z),
    ensures
        connected(ps, x, z),
{
    let w1 = choose|w: Seq<u32>| #[trigger] is_walk(ps, w) && w[0] == x && w.last() == y;
    let w2 = choose|w: Seq<u32>| #[trigger] is_walk(ps, w) && w[0] == y && w.last() == z;
    let w = w1 + w2.drop_first();
    assert forall|i: int| 0 <= i < w.len() - 1 implies joined(ps, #[trigger] w[i], w[i + 1]) by {
        if i < w1.len() - 1 {
            assert(w[i] == w1[i] && w[i + 1] == w1[i + 1]);
        } else if i == w1.len() - 1 {
            assert(w[i] == w2[0] && w[i + 1] == w2[1]);
            assert(joined(ps, w2[0], w2[1]));
        } else {
            let j = i - w1.len() + 1;
            assert(w[i] == w2[j] && w[i + 1] == w2[j + 1]);
            assert(joined(ps, w2[j], w2[j + 1]));
        }
    }
    if w2.len() == 1 {
        assert(w =~= w1);
    } else {
        assert(w.last() == w2.last());
    }
    assert(is_walk(ps, w));
}

pub proof fn lemma_connected_mono(ps: Seq<Pair>, p: Pair, x: u32, y: u32)
    requires
        connected(ps, x, y),
    ensures
        connected(ps.push(p), x, y),
{
    let w = choose|w: Seq<u32>| #[trigger] is_walk(ps, w) && w[0] == x && w.last() == y;
    assert forall|i: int| 0 <= i < w.len() - 1 implies joined(ps.push(p), #[trigger] w[i], w[i + 1]) by {
        assert(joined(ps, w[i], w[i + 1]));
        let k = choose|k: int|
            0 <= k < ps.len() && ((#[trigger] ps[k]).a == w[i] && ps[k].b == w[i + 1] || ps[k].a
                == w[i + 1] && ps[k].b == w[i]);
        assert(ps.push(p)[k] == ps[k]);
    }
    assert(is_walk(ps.push(p), w));
}

pub proof fn lemma_connected_edge(ps: Seq<Pair>, p: Pair)
    ensures
        connected(ps.push(p), p.a, p.b),
{
    let q = ps.push(p);
    let w = seq![p.a, p.b];
    assert(q[ps.len() as int] == p);
    assert(joined(q, w[0], w[1]));
    assert(is_walk(q, w));
}

/// A labelling that agrees across every pair agrees along every walk.
pub proof fn lemma_walk_constant(ps: Seq<Pair>, r: Seq<u32>, w: Seq<u32>)
    requires
        is_walk(ps, w),
        pairs_below(ps, r.len()),
        forall|i: int| 0 <= i < ps.len() ==> r[(#[trigger] ps[i]).a as int] == r[ps[i].b as int],
    ensures
        w.len() == 1 || r[w[0] as int] == r[w.last() as int],
    decreases w.len(),
{
    if w.len() > 1 {
        let v = w.drop_last();
        assert(is_walk(ps, v)) by {
            assert forall|i: int| 0 <= i < v.len() - 1 implies joined(ps, #[trigger] v[i], v[i + 1]) by {
                assert(joined(ps, w[i], w[i + 1]));
            }
        }
        lemma_walk_constant(ps, r, v);
        let j = w.len() - 2;
        assert(joined(ps, w[j], w[j + 1]));
        let k = choose|k: int|
            0 <= k < ps.len() && ((#[trigger] ps[k]).a == w[j] && ps[k].b == w[j + 1] || ps[k].a
                == w[j + 1] && ps[k].b == w[j]);
        assert(r[ps[k].a as int] == r[ps[k].b as int]);
    }
}

/// The labelling that `uf` holds after merging the pairs `ps` matches
/// connectivity over `ps`.
pub open spec fn roots_match(ps: Seq<Pair>, r: Seq<u32>) -> bool {
    forall|x: int, y: int|
        #![trigger r[x], r[y]]
        0 <= x < r.len() && 0 <= y < r.len() ==> (r[x] == r[y] <==> connected(
            ps,
            x as u32,
            y as u32,
        ))
}

/// One merge step keeps the labelling in line with connectivity.
proof fn lemma_union_step(pairs: Seq<Pair>, i: int, before: Seq<u32>, after: Seq<u32>)
    requires
        0 <= i < pairs.len(),
        before.len() == after.len(),
        pairs_below(pairs, before.len()),
        roots_match(pairs.take(i), before),
        forall|x: int, y: int|
            0 <= x < before.len() && 0 <= y < before.len() ==> (after[x] == after[y] <==> {
                ||| before[x] == before[y]
                ||| before[x] == before[pairs[i].a as int] && before[y] == before[pairs[i].b as int]
                ||| before[x] == before[pairs[i].b as int] && before[y] == before[pairs[i].a as int]
            }),
    ensures
        roots_match(pairs.take(i + 1), after),
{
    let n = before.len();
    let p = pairs[i];
    let ps = pairs.take(i);
    let qs = pairs.take(i + 1);
    assert(qs =~= ps.push(p));
    lemma_connected_edge(ps, p);
    assert forall|x: int, y: int|
        #![trigger after[x], after[y]]
        0 <= x < n && 0 <= y < n implies (after[x] == after[y] <==> connected(
            qs,
            x as u32,
            y as u32,
        )) by {
        let xu = x as u32;
        let yu = y as u32;
        if after[x] == after[y] {
            if before[x] == before[y] {
                lemma_connected_mono(ps, p, xu, yu);
            } else if before[x] == before[p.a as int] && before[y] == before[p.b as int] {
                assert(connected(ps, xu, p.a));
                assert(connected(ps, p.b, yu));
                lemma_connected_mono(ps, p, xu, p.a);
                lemma_connected_mono(ps, p, p.b, yu);
                lemma_connected_trans(qs, xu, p.a, p.b);
                lemma_connected_trans(qs, xu, p.b, yu);
            } else {
                assert(before[x] == before[p.b as int] && before[y] == before[p.a as int]);
                assert(connected(ps, xu, p.b));
                assert(connected(ps, p.a, yu));
                lemma_connected_mono(ps, p, xu, p.b);
                lemma_connected_mono(ps, p, p.a, yu);
                lemma_connected_sym(qs, p.a, p.b);
                lemma_connected_trans(qs, xu, p.b, p.a);
                lemma_connected_trans(qs, xu, p.a, yu);
            }
        }
        if connected(qs, xu, yu) {
            let w = choose|w: Seq<u32>| #[trigger] is_walk(qs, w) && w[0] == xu && w.last() == yu;
            assert forall|k: int| 0 <= k < qs.len() implies after[(#[trigger] qs[k]).a as int]
                == after[qs[k].b as int] by {
                let a = qs[k].a as int;
                let b = qs[k].b as int;
                assert(pairs[k] == qs[k]);
                if k < ps.len() {
                    assert(ps[k] == qs[k]);
                    assert(connected(ps, qs[k].a, qs[k].b)) by {
                        let w2 = seq![qs[k].a, qs[k].b];
                        assert(joined(ps, w2[0], w2[1]));
                        assert(is_walk(ps, w2));
                    }
                    assert(before[a] == before[b]);
                } else {
                    assert(qs[k] == p);
                    lemma_connected_refl(ps, p.a);
                    lemma_connected_refl(ps, p.b);
                    assert(before[a] == before[p.a as int]);
                    assert(before[b] == before[p.b as int]);
                }
            }
            assert(pairs_below(qs, after.len())) by {
                assert forall|k: int| 0 <= k < qs.len() implies (#[trigger] qs[k]).a < after.len()
                    && qs[k].b < after.len() by {
                    assert(pairs[k] == qs[k]);
                }
            }
            lemma_walk_constant(qs, after, w);
        }
    }
}

/// Merges every pair into a fresh union-find over `0..n`.
pub fn merge_pairs(n: usize, pairs: &[Pair]) -> (uf: UnionFind)
    requires
        n <= u32::MAX + 1,
        pairs_below(pairs@, n as nat),
    ensures
        uf.wf(),
        uf.size() == n,
        roots_match(pairs@, uf.roots()),
{
    let mut uf = UnionFind::new(n);
    proof {
        uf.lemma_roots();
        assert forall|x: int, y: int|
            #![trigger uf.roots()[x], uf.roots()[y]]
            0 <= x < n && 0 <= y < n implies (uf.roots()[x] == uf.roots()[y] <==> connected(
                pairs@.take(0),
                x as u32,
                y as u32,
            )) by {
            if x == y {
                lemma_connected_refl(pairs@.take(0), x as u32);
            }
            if connected(pairs@.take(0), x as u32, y as u32) {
                let w = choose|w: Seq<u32>|
                    #[trigger] is_walk(pairs@.take(0), w) && w[0] == x as u32 && w.last() == y as u32;
                if w.len() > 1 {
                    assert(joined(pairs@.take(0), w[0], w[1]));
                }
            }
        }
    }
    let mut i: usize = 0;
    while i < pairs.len()
        invariant
            i <= pairs@.len(),
            uf.wf(),
            uf.size() == n,
            pairs_below(pairs@, n as nat),
            roots_match(pairs@.take(i as int), uf.roots()),
        decreases pairs@.len() - i,
    {
        let p = pairs[i];
        assert(pairs@[i as int] == p);
        proof {
            uf.lemma_roots();
        }
        let ghost before = uf.roots();
        let ghost ps = pairs@.take(i as int);
        uf.union(p.a, p.b);
        proof {
            uf.lemma_roots();
        }
        let ghost after = uf.roots();
        proof {
            lemma_union_step(pairs@, i as int, before, after);
        }
        i += 1;
    }
    assert(pairs@.take(pairs@.len() as int) =~= pairs@);
    uf
}

/// Both elements of every pair, in order: `a0, b0, a1, b1, ...`.
pub open spec fn endpoints(ps: Seq<Pair>) -> Seq<u32>
    decreases ps.len(),
{
    if ps.len() == 0 {
        Seq::empty()
    } else {
        endpoints(ps.drop_last()) + seq![ps.last().a, ps.last().b]
    }
}

/// Index of the first group whose first member is connected to `x`
/// (`g.len()` when there is none).
pub open spec fn group_index(ps: Seq<Pair>, g: Seq<Seq<u32>>, x: u32) -> int
    decreases g.len(),
{
    if g.len() == 0 {
        0
    } else {
        let k = group_index(ps, g.drop_last(), x);
        if k < g.len() - 1 {
            k
        } else if connected(ps, g.last()[0], x) {
            g.len() - 1
        } else {
            g.len() as int
        }
    }
}

/// Adds `x` to the group of its class (once), or opens a new group for it.
pub open spec fn add_member(ps: Seq<Pair>, g: Seq<Seq<u32>>, x: u32) -> Seq<Seq<u32>> {
    let k = group_index(ps, g, x);
    if k < g.len() {
        if g[k].contains(x) {
            g
        } else {
            g.update(k, g[k].push(x))
        }
    } else {
        g.push(seq![x])
    }
}

/// The classes of connectivity over `ps` among `xs`, each listing its
/// members once in order of first appearance, the classes themselves in
/// order of their first member's appearance.
pub open spec fn groups_of(ps: Seq<Pair>, xs: Seq<u32>) -> Seq<Seq<u32>>
    decreases xs.len(),
{
    if xs.len() == 0 {
        Seq::empty()
    } else {
        add_member(ps, groups_of(ps, xs.drop_last()), xs.last())
    }
}

/// The duplicate groups that a list of matching pairs forms.
pub open spec fn pair_groups(ps: Seq<Pair>) -> Seq<Seq<u32>> {
    groups_of(ps, endpoints(ps))
}

pub proof fn lemma_group_index(ps: Seq<Pair>, g: Seq<Seq<u32>>, x: u32)
    ensures
        0 <= group_index(ps, g, x) <= g.len(),
        group_index(ps, g, x) < g.len() ==> connected(ps, g[group_index(ps, g, x)][0], x),
        forall|j: int| 0 <= j < group_index(ps, g, x) ==> !connected(ps, #[trigger] g[j][0], x),
    decreases g.len(),
{
    if g.len() > 0 {
        lemma_group_index(ps, g.drop_last(), x);
        let k = group_index(ps, g.drop_last(), x);
        assert forall|j: int| 0 <= j < k implies g[j] == g.drop_last()[j] by {}
    }
}

/// The grouping invariant: every group is non-empty, all its members are
/// below `n` and share the labelling `roots[k]` of its group.
pub open spec fn groups_labelled(g: Seq<Seq<u32>>, roots: Seq<u32>, r: Seq<u32>) -> bool {
    &&& roots.len() == g.len()
    &&& forall|k: int|
        #![trigger g[k]]
        0 <= k < g.len() ==> g[k].len() > 0 && forall|m: int|
            0 <= m < g[k].len() ==> (#[trigger] g[k][m]) < r.len() && r[g[k][m] as int]
                == roots[k]
}

fn copy_ids(v: &Vec<u32>) -> (r: Vec<u32>)
    ensures
        r@ == v@,
{
    let mut out: Vec<u32> = Vec::with_capacity(v.len());
    let mut i: usize = 0;
    while i < v.len()
        invariant
            i <= v@.len(),
            out@ == v@.subrange(0, i as int),
        decreases v@.len() - i,
    {
        out.push(v[i]);
        assert(v@.subrange(0, i + 1) =~= v@.subrange(0, i as int).push(v@[i as int]));
        i += 1;
    }
    assert(v@.subrange(0, v@.len() as int) =~= v@);
    out
}

fn contains_id(v: &Vec<u32>, x: u32) -> (r: bool)
    ensures
        r == v@.contains(x),
{
    let mut i: usize = 0;
    while i < v.len()
        invariant
            i <= v@.len(),
            forall|j: int| 0 <= j < i ==> v@[j] != x,
        decreases v@.len() - i,
    {
        if v[i] == x {
            return true;
        }
        i += 1;
    }
    false
}

fn add_endpoint(
    uf: &mut UnionFind,
    groups: &mut Vec<Vec<u32>>,
    roots: &mut Vec<u32>,
    x: u32,
    Ghost(ps): Ghost<Seq<Pair>>,
)
    requires
        old(uf).wf(),
        roots_match(ps, old(uf).roots()),
        x < old(uf).size(),
        groups_labelled(old(groups).deep_view(), old(roots)@, old(uf).roots()),
    ensures
        final(uf).wf(),
        final(uf).size() == old(uf).size(),
        final(uf).roots() == old(uf).roots(),
        final(groups).deep_view() == add_member(ps, old(groups).deep_view(), x),
        groups_labelled(final(groups).deep_view(), final(roots)@, old(uf).roots()),
{
    let ghost g = groups.deep_view();
    let ghost rr = uf.roots();
    proof {
        uf.lemma_roots();
        lemma_group_index(ps, g, x);
    }
    let r = uf.find(x);
    let mut k: usize = 0;
    while k < roots.len()
        invariant
            groups.deep_view() == g,
            groups_labelled(g, roots@, rr),
            rr == uf.roots(),
            uf.wf(),
            x < rr.len(),
            r == rr[x as int],
            roots_match(ps, rr),
            k <= roots@.len(),
            forall|j: int| 0 <= j < k ==> roots@[j] != r,
        ensures
            k <= roots@.len(),
            k < roots@.len() ==> roots@[k as int] == r,
            forall|j: int| 0 <= j < k ==> roots@[j] != r,
            groups.deep_view() == g,
            rr == uf.roots(),
            uf.wf(),
        decreases roots@.len() - k,
    {
        if roots[k] == r {
            break;
        }
        k += 1;
    }
    assert(k <= roots@.len());
    proof {
        uf.lemma_roots();
        assert forall|j: int| 0 <= j < g.len() implies (connected(ps, #[trigger] g[j][0], x)
            <==> roots@[j] == r) by {
            assert(g[j].len() > 0);
            assert(g[j][0] < rr.len());
            assert(rr[g[j][0] as int] == roots@[j]);
        }
        let gi = group_index(ps, g, x);
        if k < g.len() {
            assert(roots@[k as int] == r);
            assert(connected(ps, g[k as int][0], x));
            if gi < k {
                assert(connected(ps, g[gi][0], x));
                assert(roots@[gi] == r);
            }
            assert(gi == k);
        } else {
            if gi < g.len() {
                assert(connected(ps, g[gi][0], x));
                assert(roots@[gi] == r);
            }
            assert(gi == g.len());
        }
    }
    if k < roots.len() {
        assert(groups@[k as int]@ == g[k as int]);
        if !contains_id(&groups[k], x) {
            let mut v = copy_ids(&groups[k]);
            v.push(x);
            let ghost before = groups@;
            groups.set(k, v);
            proof {
                let g2 = g.update(k as int, g[k as int].push(x));
                assert forall|j: int| 0 <= j < g2.len() implies #[trigger] groups.deep_view()[j] == g2[j] by {
                    if j != k {
                        assert(groups@[j] == before[j]);
                    }
                }
                assert(groups.deep_view() =~= g2);
                assert forall|j: int|
                    #![trigger g2[j]]
                    0 <= j < g2.len() implies g2[j].len() > 0 && forall|m: int|
                        0 <= m < g2[j].len() ==> (#[trigger] g2[j][m]) < rr.len() && rr[g2[j][m] as int]
                            == roots@[j] by {
                    if j == k {
                        assert forall|m: int| 0 <= m < g2[j].len() implies (#[trigger] g2[j][m]) < rr.len()
                            && rr[g2[j][m] as int] == roots@[j] by {
                            if m < g[j].len() {
                                assert(g2[j][m] == g[j][m]);
                            }
                        }
                    } else {
                        assert(g2[j] == g[j]);
                    }
                }
            }
        }
    } else {
        let mut v: Vec<u32> = Vec::new();
        v.push(x);
        let ghost before = groups@;
        groups.push(v);
        roots.push(r);
        proof {
            let g2 = g.push(seq![x]);
            assert forall|j: int| 0 <= j < g2.len() implies #[trigger] groups.deep_view()[j] == g2[j] by {
                if j < g.len() {
                    assert(groups@[j] == before[j]);
                }
            }
            assert(groups.deep_view() =~= g2);
            assert forall|j: int|
                #![trigger g2[j]]
                0 <= j < g2.len() implies g2[j].len() > 0 && forall|m: int|
                    0 <= m < g2[j].len() ==> (#[trigger] g2[j][m]) < rr.len() && rr[g2[j][m] as int]
                        == roots@[j] by {
                if j < g.len() {
                    assert(g2[j] == g[j]);
                } else {
                    assert(g2[j] =~= seq![x]);
                }
            }
        }
    }
}

/// Groups the endpoints of `pairs` by the classes that `uf` (which merged
/// exactly these pairs) holds.
pub fn group_pairs(uf: &mut UnionFind, pairs: &[Pair]) -> (gs: Vec<Vec<u32>>)
    requires
        old(uf).wf(),
        roots_match(pairs@, old(uf).roots()),
        pairs_below(pairs@, old(uf).size()),
    ensures
        gs.deep_view() == pair_groups(pairs@),
        forall|k: int|
            #![trigger gs.deep_view()[k]]
            0 <= k < gs.deep_view().len() ==> gs.deep_view()[k].len() > 0 && forall|m: int|
                0 <= m < gs.deep_view()[k].len() ==> (#[trigger] gs.deep_view()[k][m]) < old(
                    uf,
                ).size(),
{
    let mut groups: Vec<Vec<u32>> = Vec::new();
    let mut roots: Vec<u32> = Vec::new();
    let ghost ps = pairs@;
    let ghost rr = uf.roots();
    proof {
        uf.lemma_roots();
    }
    assert(groups.deep_view() =~= groups_of(ps, endpoints(ps.take(0))));
    let mut i: usize = 0;
    while i < pairs.len()
        invariant
            ps == pairs@,
            i <= ps.len(),
            uf.wf(),
            uf.roots() == rr,
            uf.size() == rr.len(),
            roots_match(ps, rr),
            pairs_below(ps, rr.len()),
            groups_labelled(groups.deep_view(), roots@, rr),
            groups.deep_view() == groups_of(ps, endpoints(ps.take(i as int))),
        decreases ps.len() - i,
    {
        let p = pairs[i];
        assert(ps[i as int] == p);
        proof {
            uf.lemma_roots();
        }
        add_endpoint(uf, &mut groups, &mut roots, p.a, Ghost(ps));
        add_endpoint(uf, &mut groups, &mut roots, p.b, Ghost(ps));
        proof {
            let t = ps.take(i + 1);
            assert(t.drop_last() =~= ps.take(i as int));
            let e = endpoints(t);
            assert(e == endpoints(ps.take(i as int)) + seq![p.a, p.b]);
            assert(e.drop_last().drop_last() =~= endpoints(ps.take(i as int)));
            assert(e.drop_last().last() == p.a);
            assert(e.last() == p.b);
            assert(groups_of(ps, e) == add_member(ps, groups_of(ps, e.drop_last()), p.b));
            assert(groups_of(ps, e.drop_last()) == add_member(
                ps,
                groups_of(ps, e.drop_last().drop_last()),
                p.a,
            ));
        }
        i += 1;
    }
    assert(ps.take(ps.len() as int) =~= ps);
    proof {
        let g = groups.deep_view();
        assert forall|k: int|
            #![trigger g[k]]
            0 <= k < g.len() implies g[k].len() > 0 && forall|m: int|
                0 <= m < g[k].len() ==> (#[trigger] g[k][m]) < rr.len() by {}
    }
    groups
}

/// What grouping keeps of the elements `xs` seen so far: every group is
/// non-empty and holds each member once, every member is connected to its
/// group's first member, the first members of two groups are not
/// connected, and the members are exactly the elements seen.
pub open spec fn classes_of(ps: Seq<Pair>, xs: Seq<u32>, g: Seq<Seq<u32>>) -> bool {
    &&& forall|k: int| #![trigger g[k]] 0 <= k < g.len() ==> g[k].len() > 0
    &&& forall|k: int, m: int|
        #![trigger g[k][m]]
        0 <= k < g.len() && 0 <= m < g[k].len() ==> connected(ps, g[k][0], g[k][m])
    &&& forall|k: int, m1: int, m2: int|
        #![trigger g[k][m1], g[k][m2]]
        0 <= k < g.len() && 0 <= m1 < m2 < g[k].len() ==> g[k][m1] != g[k][m2]
    &&& forall|j: int, k: int|
        #![trigger g[j], g[k]]
        0 <= j < k < g.len() ==> !connected(ps, g[j][0], g[k][0])
    &&& forall|x: u32| xs.contains(x) <==> exists|k: int| 0 <= k < g.len() && #[trigger] g[k].contains(x)
}

proof fn lemma_classes_step(ps: Seq<Pair>, xs: Seq<u32>, g: Seq<Seq<u32>>, x: u32)
    requires
        classes_of(ps, xs, g),
    ensures
        classes_of(ps, xs.push(x), add_member(ps, g, x)),
{
    lemma_group_index(ps, g, x);
    let k = group_index(ps, g, x);
    let g2 = add_member(ps, g, x);
    // No group after `k` is connected to `x` either.
    assert forall|j: int| 0 <= j < g.len() && j != k implies !connected(ps, #[trigger] g[j][0], x) by {
        if j > k && k < g.len() && connected(ps, g[j][0], x) {
            lemma_connected_sym(ps, g[j][0], x);
            lemma_connected_trans(ps, g[k][0], x, g[j][0]);
            assert(!connected(ps, g[k][0], g[j][0]));
        }
    }
    // `x` sits in no group but possibly `k`.
    assert forall|j: int| 0 <= j < g.len() && j != k implies !(#[trigger] g[j]).contains(x) by {
        if g[j].contains(x) {
            let m = choose|m: int| 0 <= m < g[j].len() && g[j][m] == x;
            assert(connected(ps, g[j][0], g[j][m]));
        }
    }
    if k < g.len() {
        if !g[k].contains(x) {
            assert forall|q: int, m: int|
                #![trigger g2[q][m]]
                0 <= q < g2.len() && 0 <= m < g2[q].len() implies connected(
                ps,
                g2[q][0],
                g2[q][m],
            ) by {
                if q == k && m == g[k].len() {
                    assert(g2[q][m] == x);
                } else {
                    assert(g2[q][m] == g[q][m]);
                    assert(g2[q][0] == g[q][0]);
                }
            }
            assert forall|q: int, m1: int, m2: int|
                #![trigger g2[q][m1], g2[q][m2]]
                0 <= q < g2.len() && 0 <= m1 < m2 < g2[q].len() implies g2[q][m1] != g2[q][m2] by {
                if q == k && m2 == g[k].len() {
                    assert(g[k][m1] == g2[q][m1]);
                    assert(g[k].contains(g[k][m1]));
                } else {
                    assert(g2[q][m1] == g[q][m1]);
                    assert(g2[q][m2] == g[q][m2]);
                }
            }
            assert forall|j: int, q: int|
                #![trigger g2[j], g2[q]]
                0 <= j < q < g2.len() implies !connected(ps, g2[j][0], g2[q][0]) by {
                assert(g2[j][0] == g[j][0]);
                assert(g2[q][0] == g[q][0]);
                assert(g[j] == g[j]);
                assert(g[q] == g[q]);
            }
            assert forall|y: u32| xs.push(x).contains(y) implies exists|q: int|
                0 <= q < g2.len() && #[trigger] g2[q].contains(y) by {
                if y == x {
                    assert(g2[k][g[k].len() as int] == x);
                    assert(g2[k].contains(x));
                } else {
                    assert(xs.contains(y)) by {
                        let i = choose|i: int| 0 <= i < xs.push(x).len() && xs.push(x)[i] == y;
                        assert(xs[i] == y);
                    }
                    let q = choose|q: int| 0 <= q < g.len() && #[trigger] g[q].contains(y);
                    let m = choose|m: int| 0 <= m < g[q].len() && g[q][m] == y;
                    assert(g2[q][m] == y);
                    assert(g2[q].contains(y));
                }
            }
            assert forall|y: u32|
                (exists|q: int| 0 <= q < g2.len() && #[trigger] g2[q].contains(y)) implies xs.push(
                x,
            ).contains(y) by {
                let q = choose|q: int| 0 <= q < g2.len() && #[trigger] g2[q].contains(y);
                let m = choose|m: int| 0 <= m < g2[q].len() && g2[q][m] == y;
                if y == x {
                    assert(xs.push(x)[xs.len() as int] == x);
                } else {
                    if q == k && m == g[k].len() {
                        assert(g2[q][m] == x);
                    } else {
                        assert(g[q][m] == y);
                    }
                    assert(g[q].contains(y));
                    assert(xs.contains(y));
                    let i = choose|i: int| 0 <= i < xs.len() && xs[i] == y;
                    assert(xs.push(x)[i] == y);
                }
            }
        } else {
            assert forall|y: u32| xs.push(x).contains(y) <==> exists|q: int|
                0 <= q < g.len() && #[trigger] g[q].contains(y) by {
                if xs.push(x).contains(y) && y != x {
                    let i = choose|i: int| 0 <= i < xs.push(x).len() && xs.push(x)[i] == y;
                    assert(xs[i] == y);
                    assert(xs.contains(y));
                }
                if xs.contains(y) {
                    let i = choose|i: int| 0 <= i < xs.len() && xs[i] == y;
                    assert(xs.push(x)[i] == y);
                }
                if y == x {
                    assert(xs.push(x)[xs.len() as int] == x);
                }
            }
        }
    } else {
        assert forall|j: int| #![trigger g2[j]] 0 <= j < g2.len() implies g2[j].len() > 0 by {
            if j < g.len() {
                assert(g2[j] == g[j]);
            }
        }
        assert forall|q: int, m: int|
            #![trigger g2[q][m]]
            0 <= q < g2.len() && 0 <= m < g2[q].len() implies connected(ps, g2[q][0], g2[q][m]) by {
            if q == g.len() {
                assert(g2[q] =~= seq![x]);
                lemma_connected_refl(ps, x);
            } else {
                assert(g2[q] == g[q]);
            }
        }
        assert forall|q: int, m1: int, m2: int|
            #![trigger g2[q][m1], g2[q][m2]]
            0 <= q < g2.len() && 0 <= m1 < m2 < g2[q].len() implies g2[q][m1] != g2[q][m2] by {
            if q < g.len() {
                assert(g2[q] == g[q]);
            }
        }
        assert forall|j: int, q: int|
            #![trigger g2[j], g2[q]]
            0 <= j < q < g2.len() implies !connected(ps, g2[j][0], g2[q][0]) by {
            assert(g2[j] == g[j]);
            if q == g.len() {
                assert(g2[q][0] == x);
                assert(!connected(ps, g[j][0], x));
            } else {
                assert(g2[q] == g[q]);
            }
        }
        assert forall|y: u32| xs.push(x).contains(y) <==> exists|q: int|
            0 <= q < g2.len() && #[trigger] g2[q].contains(y) by {
            if xs.push(x).contains(y) {
                if y == x {
                    assert(g2[g.len() as int] =~= seq![x]);
                    assert(g2[g.len() as int][0] == x);
                    assert(g2[g.len() as int].contains(x));
                } else {
                    let i = choose|i: int| 0 <= i < xs.push(x).len() && xs.push(x)[i] == y;
                    assert(xs[i] == y);
                    assert(xs.contains(y));
                    let q = choose|q: int| 0 <= q < g.len() && #[trigger] g[q].contains(y);
                    assert(g2[q] == g[q]);
                }
            }
            if exists|q: int| 0 <= q < g2.len() && #[trigger] g2[q].contains(y) {
                let q = choose|q: int| 0 <= q < g2.len() && #[trigger] g2[q].contains(y);
                if q == g.len() {
                    assert(g2[q] =~= seq![x]);
                    assert(y == x);
                    assert(xs.push(x)[xs.len() as int] == x);
                } else {
                    assert(g2[q] == g[q]);
                    assert(xs.contains(y));
                    let i = choose|i: int| 0 <= i < xs.len() && xs[i] == y;
                    assert(xs.push(x)[i] == y);
                }
            }
        }
    }
}

proof fn lemma_groups_of_classes(ps: Seq<Pair>, xs: Seq<u32>)
    ensures
        classes_of(ps, xs, groups_of(ps, xs)),
    decreases xs.len(),
{
    if xs.len() == 0 {
        assert(classes_of(ps, xs, Seq::empty()));
    } else {
        lemma_groups_of_classes(ps, xs.drop_last());
        lemma_classes_step(ps, xs.drop_last(), groups_of(ps, xs.drop_last()), xs.last());
        assert(xs.drop_last().push(xs.last()) =~= xs);
    }
}

/// Some pair names `x`.
pub open spec fn named(ps: Seq<Pair>, x: u32) -> bool {
    exists|i: int| 0 <= i < ps.len() && ((#[trigger] ps[i]).a == x || ps[i].b == x)
}

proof fn lemma_endpoints_named(ps: Seq<Pair>)
    ensures
        forall|x: u32| #[trigger] endpoints(ps).contains(x) <==> named(ps, x),
    decreases ps.len(),
{
    if ps.len() > 0 {
        let t = ps.drop_last();
        lemma_endpoints_named(t);
        let e = endpoints(ps);
        let et = endpoints(t);
        let p = ps.last();
        assert(e =~= et + seq![p.a, p.b]);
        assert forall|x: u32| #[trigger] e.contains(x) <==> named(ps, x) by {
            if e.contains(x) {
                let i = choose|i: int| 0 <= i < e.len() && e[i] == x;
                if i < et.len() {
                    assert(et[i] == x);
                    assert(et.contains(x));
                    let j = choose|j: int| 0 <= j < t.len() && ((#[trigger] t[j]).a == x || t[j].b == x);
                    assert(ps[j] == t[j]);
                } else {
                    assert(ps[ps.len() - 1] == p);
                }
            }
            if named(ps, x) {
                let j = choose|j: int| 0 <= j < ps.len() && ((#[trigger] ps[j]).a == x || ps[j].b == x);
                if j < t.len() {
                    assert(t[j] == ps[j]);
                    assert(named(t, x));
                    assert(et.contains(x));
                    let i = choose|i: int| 0 <= i < et.len() && et[i] == x;
                    assert(e[i] == x);
                } else if p.a == x {
                    assert(e[et.len() as int] == x);
                } else {
                    assert(e[et.len() as int + 1] == x);
                }
            }
        }
    }
}

/// Grouping by union-find is exact: the groups of the matching pairs are
/// the classes of their connectivity. Every function that a pair names is
/// in exactly one group, and only once; two of them share a group exactly
/// when a chain of pairs connects them.
pub proof fn law_groups_are_classes(ps: Seq<Pair>)
    ensures
        forall|x: u32|
            named(ps, x) <==> exists|k: int|
                0 <= k < pair_groups(ps).len() && #[trigger] pair_groups(ps)[k].contains(x),
        forall|k: int, m1: int, m2: int|
            0 <= k < pair_groups(ps).len() && 0 <= m1 < m2 < pair_groups(ps)[k].len()
                ==> #[trigger] pair_groups(ps)[k][m1] != #[trigger] pair_groups(ps)[k][m2],
        forall|j: int, k: int, x: u32, y: u32|
            0 <= j < pair_groups(ps).len() && 0 <= k < pair_groups(ps).len()
                && #[trigger] pair_groups(ps)[j].contains(x) && #[trigger] pair_groups(
                ps,
            )[k].contains(y) ==> (j == k <==> connected(ps, x, y)),
{
    let g = pair_groups(ps);
    lemma_groups_of_classes(ps, endpoints(ps));
    lemma_endpoints_named(ps);
    assert forall|j: int, k: int, x: u32, y: u32|
        0 <= j < g.len() && 0 <= k < g.len() && #[trigger] g[j].contains(x)
            && #[trigger] g[k].contains(y) implies (j == k <==> connected(ps, x, y)) by {
        let mx = choose|m: int| 0 <= m < g[j].len() && g[j][m] == x;
        let my = choose|m: int| 0 <= m < g[k].len() && g[k][m] == y;
        assert(connected(ps, g[j][0], g[j][mx]));
        assert(connected(ps, g[k][0], g[k][my]));
        lemma_connected_sym(ps, g[j][0], x);
        if j == k {
            lemma_connected_trans(ps, x, g[j][0], y);
        } else if connected(ps, x, y) {
            lemma_connected_trans(ps, g[j][0], x, y);
            lemma_connected_sym(ps, g[k][0], y);
            lemma_connected_trans(ps, g[j][0], y, g[k][0]);
            if j < k {
                assert(!connected(ps, g[j][0], g[k][0]));
            } else {
                lemma_connected_sym(ps, g[j][0], g[k][0]);
                assert(!connected(ps, g[k][0], g[j][0]));
            }
        }
    }
    assert forall|x: u32|
        named(ps, x) <==> exists|k: int| 0 <= k < g.len() && #[trigger] g[k].contains(x) by {
        assert(endpoints(ps).contains(x) <==> named(ps, x));
    }
}

} // verus!
