//! Groups matching pairs into duplicate clusters with union-find, picks a
//! representative per cluster, and suppresses nested clusters (an inner
//! closure duplicated because its whole enclosing function is duplicated).

use crate::extract::FunctionUnit;
use crate::graph::{Pair, group_pairs, merge_pairs, pair_groups, pairs_below};
use crate::order::{
    ins, isort, lemma_ins_at, lemma_isort_elems, lemma_isort_len, lemma_isort_map,
    lemma_isort_multiset, lemma_isort_sorted, total_preorder,
};
use vstd::prelude::*;

verus! {

/// Jaccard similarity of two fingerprint sets, as the exact ratio
/// `shared / union`.
#[derive(Clone, Copy, PartialEq, Eq, Debug)]
pub struct Similarity {
    pub shared: usize,
    pub union: usize,
}

pub struct Member {
    pub func: u32,
    /// Similarity to the cluster representative (1/1 for the rep itself).
    pub similarity: Similarity,
}

pub struct Cluster {
    /// Representative (most significant lines) first.
    pub members: Vec<Member>,
    /// Lines you could delete by keeping only the representative.
    pub deletable_lines: u32,
    /// True when every member is test code.
    pub test_only: bool,
    /// True when every member's name is required to match its siblings by
    /// construction (a trait-impl method or a dispatch branch). Like
    /// `test_only`, these are kept out of the slop score.
    pub trait_impl_only: bool,
}

/// The abstract value of a cluster.
pub struct ClusterView {
    pub funcs: Seq<u32>,
    pub similarities: Seq<(nat, nat)>,
    pub deletable_lines: nat,
    pub test_only: bool,
    pub trait_impl_only: bool,
}

impl View for Cluster {
    type V = ClusterView;

    open spec fn view(&self) -> ClusterView {
        ClusterView {
            funcs: self.members@.map_values(|m: Member| m.func),
            similarities: self.members@.map_values(
                |m: Member| (m.similarity.shared as nat, m.similarity.union as nat),
            ),
            deletable_lines: self.deletable_lines as nat,
            test_only: self.test_only,
            trait_impl_only: self.trait_impl_only,
        }
    }
}

/// Number of elements of `a` that also occur in `b`.
pub open spec fn shared_count(a: Seq<u64>, b: Seq<u64>) -> nat
    decreases a.len(),
{
    if a.len() == 0 {
        0
    } else {
        shared_count(a.drop_last(), b) + if b.contains(a.last()) {
            1nat
        } else {
            0nat
        }
    }
}

pub open spec fn strictly_sorted(a: Seq<u64>) -> bool {
    forall|i: int, j: int| 0 <= i < j < a.len() ==> a[i] < a[j]
}

/// For two sorted, distinct fingerprint lists, their Jaccard ratio:
/// the size of the intersection over the size of the union.
pub open spec fn jaccard(a: Seq<u64>, b: Seq<u64>) -> (nat, nat) {
    (shared_count(a, b), (a.len() + b.len() - shared_count(a, b)) as nat)
}

proof fn lemma_shared_count_bound(a: Seq<u64>, b: Seq<u64>)
    ensures
        shared_count(a, b) <= a.len(),
    decreases a.len(),
{
    if a.len() > 0 {
        lemma_shared_count_bound(a.drop_last(), b);
    }
}

/// Jaccard similarity of two functions' fingerprint sets.
pub fn similarity(a: &FunctionUnit, b: &FunctionUnit) -> (r: Similarity)
    requires
        strictly_sorted(a.fingerprints@),
        strictly_sorted(b.fingerprints@),
        a.fingerprints@.len() + b.fingerprints@.len() <= usize::MAX,
    ensures
        (r.shared as nat, r.union as nat) == jaccard(a.fingerprints@, b.fingerprints@),
{
    let x = &a.fingerprints;
    let y = &b.fingerprints;
    let mut i: usize = 0;
    let mut j: usize = 0;
    let mut count: usize = 0;
    while i < x.len()
        invariant
            strictly_sorted(x@),
            strictly_sorted(y@),
            i <= x@.len(),
            j <= y@.len(),
            count == shared_count(x@.take(i as int), y@),
            count <= i,
            i < x@.len() ==> forall|t: int| 0 <= t < j ==> y@[t] < x@[i as int],
        decreases x@.len() - i,
    {
        while j < y.len() && y[j] < x[i]
            invariant
                strictly_sorted(y@),
                i < x@.len(),
                j <= y@.len(),
                forall|t: int| 0 <= t < j ==> y@[t] < x@[i as int],
            decreases y@.len() - j,
        {
            j += 1;
        }
        let hit = j < y.len() && y[j] == x[i];
        proof {
            let t = x@.take(i + 1);
            assert(t.drop_last() =~= x@.take(i as int));
            assert(t.last() == x@[i as int]);
            if hit {
                assert(y@.contains(x@[i as int]));
            } else {
                assert forall|u: int| 0 <= u < y@.len() implies y@[u] != x@[i as int] by {
                    if u >= j {
                        assert(y@[j as int] >= x@[i as int]);
                        if u > j {
                            assert(y@[j as int] < y@[u]);
                        }
                    }
                }
                assert(!y@.contains(x@[i as int]));
            }
        }
        if hit {
            count += 1;
        }
        i += 1;
    }
    assert(x@.take(x@.len() as int) =~= x@);
    proof {
        lemma_shared_count_bound(x@, y@);
    }
    Similarity { shared: count, union: x.len() - count + y.len() }
}

/// `a`'s key is at most `b`'s: more significant lines first, then by file,
/// then by start line.
pub open spec fn key_le(fs: Seq<FunctionUnit>, a: u32, b: u32) -> bool {
    let fa = fs[a as int];
    let fb = fs[b as int];
    fa.sig_lines > fb.sig_lines || fa.sig_lines == fb.sig_lines && (fa.file < fb.file || fa.file
        == fb.file && fa.start_line <= fb.start_line)
}

pub open spec fn by_key(fs: Seq<FunctionUnit>) -> spec_fn(u32, u32) -> bool {
    |a: u32, b: u32| key_le(fs, a, b)
}

/// Sum of the significant lines of `ids`.
pub open spec fn sum_sig(fs: Seq<FunctionUnit>, ids: Seq<u32>) -> nat
    decreases ids.len(),
{
    if ids.len() == 0 {
        0
    } else {
        sum_sig(fs, ids.drop_last()) + fs[ids.last() as int].sig_lines as nat
    }
}

/// Function `outer` strictly encloses function `inner` in the same file.
pub open spec fn encloses(outer: FunctionUnit, inner: FunctionUnit) -> bool {
    outer.file == inner.file && outer.start_byte <= inner.start_byte && inner.end_byte
        <= outer.end_byte && !(outer.start_byte == inner.start_byte && outer.end_byte
        == inner.end_byte)
}

/// Function `x` sits inside some member of `outer`.
pub open spec fn inside_some(fs: Seq<FunctionUnit>, x: u32, outer: Seq<u32>) -> bool {
    exists|o: int| 0 <= o < outer.len() && encloses(fs[#[trigger] outer[o] as int], fs[x as int])
}

/// Every member of `inner` sits inside some member of `outer`.
pub open spec fn nested_in(fs: Seq<FunctionUnit>, inner: Seq<u32>, outer: Seq<u32>) -> bool {
    forall|m: int| 0 <= m < inner.len() ==> inside_some(fs, #[trigger] inner[m], outer)
}

/// Group `i` is kept unless it is nested in one other group.
pub open spec fn kept(fs: Seq<FunctionUnit>, gs: Seq<Seq<u32>>, i: int) -> bool {
    !exists|j: int| 0 <= j < gs.len() && j != i && nested_in(fs, gs[i], #[trigger] gs[j])
}

/// The groups that survive nested-cluster suppression, in order.
pub open spec fn keep_unnested(fs: Seq<FunctionUnit>, gs: Seq<Seq<u32>>, upto: int) -> Seq<
    Seq<u32>,
>
    decreases upto,
{
    if upto <= 0 {
        Seq::empty()
    } else if kept(fs, gs, upto - 1) {
        keep_unnested(fs, gs, upto - 1).push(gs[upto - 1])
    } else {
        keep_unnested(fs, gs, upto - 1)
    }
}

/// The groups of `ps`, each ordered by key (representative first).
pub open spec fn sorted_groups(fs: Seq<FunctionUnit>, ps: Seq<Pair>) -> Seq<Seq<u32>> {
    pair_groups(ps).map_values(|g: Seq<u32>| isort(g, by_key(fs)))
}

/// The abstract cluster that a key-ordered group forms.
pub open spec fn cluster_of(fs: Seq<FunctionUnit>, s: Seq<u32>) -> ClusterView {
    let rep = s[0];
    ClusterView {
        funcs: s,
        similarities: Seq::new(
            s.len(),
            |i: int|
                if i == 0 {
                    (1nat, 1nat)
                } else {
                    jaccard(fs[s[i] as int].fingerprints@, fs[rep as int].fingerprints@)
                },
        ),
        deletable_lines: sum_sig(fs, s.drop_first()),
        test_only: forall|i: int| 0 <= i < s.len() ==> fs[#[trigger] s[i] as int].is_test,
        trait_impl_only: forall|i: int|
            0 <= i < s.len() ==> fs[#[trigger] s[i] as int].is_trait_impl_method,
    }
}

pub open spec fn by_deletable() -> spec_fn(ClusterView, ClusterView) -> bool {
    |c: ClusterView, d: ClusterView| c.deletable_lines >= d.deletable_lines
}

/// The clusters of `ps` over `fs`: key-ordered groups, nested ones dropped,
/// ordered by deletable lines (most first, ties in group order).
pub open spec fn spec_build_clusters(fs: Seq<FunctionUnit>, ps: Seq<Pair>) -> Seq<ClusterView> {
    let gs = sorted_groups(fs, ps);
    isort(
        keep_unnested(fs, gs, gs.len() as int).map_values(|s: Seq<u32>| cluster_of(fs, s)),
        by_deletable(),
    )
}

/// What `build_clusters` needs of its input: pairs name functions, the
/// fingerprints are sorted and distinct, and every group's deletable line
/// count fits in a `u32`.
pub open spec fn clusters_input_ok(fs: Seq<FunctionUnit>, ps: Seq<Pair>) -> bool {
    &&& fs.len() <= u32::MAX
    &&& pairs_below(ps, fs.len())
    &&& forall|i: int|
        0 <= i < fs.len() ==> strictly_sorted((#[trigger] fs[i]).fingerprints@)
            && fs[i].fingerprints@.len() <= usize::MAX / 2
    &&& forall|k: int|
        0 <= k < sorted_groups(fs, ps).len() ==> sum_sig(
            fs,
            (#[trigger] sorted_groups(fs, ps)[k]).drop_first(),
        ) <= u32::MAX
}

fn key_le_exec(fs: &[FunctionUnit], a: u32, b: u32) -> (r: bool)
    requires
        a < fs@.len(),
        b < fs@.len(),
    ensures
        r == key_le(fs@, a, b),
{
    let fa = &fs[a as usize];
    let fb = &fs[b as usize];
    fa.sig_lines > fb.sig_lines || fa.sig_lines == fb.sig_lines && (fa.file < fb.file || fa.file
        == fb.file && fa.start_line <= fb.start_line)
}

/// `ids` in key order (stable): the representative comes first.
fn sort_by_key(fs: &[FunctionUnit], ids: &Vec<u32>) -> (r: Vec<u32>)
    requires
        forall|k: int| 0 <= k < ids@.len() ==> #[trigger] ids@[k] < fs@.len(),
    ensures
        r@ == isort(ids@, by_key(fs@)),
        forall|k: int| 0 <= k < r@.len() ==> #[trigger] r@[k] < fs@.len(),
{
    let ghost le = by_key(fs@);
    let mut out: Vec<u32> = Vec::new();
    let mut i: usize = 0;
    assert(ids@.take(0) =~= Seq::<u32>::empty());
    while i < ids.len()
        invariant
            i <= ids@.len(),
            le == by_key(fs@),
            forall|k: int| 0 <= k < ids@.len() ==> #[trigger] ids@[k] < fs@.len(),
            out@ == isort(ids@.take(i as int), le),
            forall|k: int| 0 <= k < out@.len() ==> #[trigger] out@[k] < fs@.len(),
        decreases ids@.len() - i,
    {
        let x = ids[i];
        assert(ids@[i as int] == x);
        let mut j = out.len();
        while j > 0 && !key_le_exec(fs, out[j - 1], x)
            invariant
                j <= out@.len(),
                x < fs@.len(),
                forall|k: int| 0 <= k < out@.len() ==> #[trigger] out@[k] < fs@.len(),
                forall|t: int| j <= t < out@.len() ==> !le(#[trigger] out@[t], x),
                le == by_key(fs@),
            decreases j,
        {
            j -= 1;
        }
        let ghost before = out@;
        proof {
            if j > 0 {
                assert(le(before[j - 1], x));
            }
            lemma_ins_at(before, x, le, j as int);
            let t = ids@.take(i + 1);
            assert(t.drop_last() =~= ids@.take(i as int));
        }
        out.insert(j, x);
        proof {
            assert(out@ =~= before.take(j as int).push(x) + before.skip(j as int));
            assert forall|k: int| 0 <= k < out@.len() implies #[trigger] out@[k] < fs@.len() by {
                if k < j {
                    assert(out@[k] == before[k]);
                } else if k > j {
                    assert(out@[k] == before[k - 1]);
                }
            }
        }
        i += 1;
    }
    assert(ids@.take(ids@.len() as int) =~= ids@);
    out
}

fn encloses_exec(outer: &FunctionUnit, inner: &FunctionUnit) -> (r: bool)
    ensures
        r == encloses(*outer, *inner),
{
    outer.file == inner.file && outer.start_byte <= inner.start_byte && inner.end_byte
        <= outer.end_byte && !(outer.start_byte == inner.start_byte && outer.end_byte
        == inner.end_byte)
}

fn nested_in_exec(fs: &[FunctionUnit], inner: &Vec<u32>, outer: &Vec<u32>) -> (r: bool)
    requires
        forall|k: int| 0 <= k < inner@.len() ==> #[trigger] inner@[k] < fs@.len(),
        forall|k: int| 0 <= k < outer@.len() ==> #[trigger] outer@[k] < fs@.len(),
    ensures
        r == nested_in(fs@, inner@, outer@),
{
    let mut m: usize = 0;
    while m < inner.len()
        invariant
            m <= inner@.len(),
            forall|k: int| 0 <= k < inner@.len() ==> #[trigger] inner@[k] < fs@.len(),
            forall|k: int| 0 <= k < outer@.len() ==> #[trigger] outer@[k] < fs@.len(),
            forall|mm: int| 0 <= mm < m ==> inside_some(fs@, #[trigger] inner@[mm], outer@),
        decreases inner@.len() - m,
    {
        let x = inner[m];
        let mut o: usize = 0;
        let mut found = false;
        while o < outer.len()
            invariant
                o <= outer@.len(),
                x == inner@[m as int],
                x < fs@.len(),
                forall|k: int| 0 <= k < outer@.len() ==> #[trigger] outer@[k] < fs@.len(),
                found ==> inside_some(fs@, x, outer@),
                !found ==> forall|oo: int|
                    0 <= oo < o ==> !encloses(fs@[#[trigger] outer@[oo] as int], fs@[x as int]),
            decreases outer@.len() - o,
        {
            if encloses_exec(&fs[outer[o] as usize], &fs[x as usize]) {
                found = true;
            }
            o += 1;
        }
        if !found {
            return false;
        }
        m += 1;
    }
    true
}

/// Which groups survive nested-cluster suppression.
fn keep_flags(fs: &[FunctionUnit], gs: &Vec<Vec<u32>>) -> (r: Vec<bool>)
    requires
        forall|k: int, m: int|
            0 <= k < gs.deep_view().len() && 0 <= m < gs.deep_view()[k].len() ==> (
            #[trigger] gs.deep_view()[k][m]) < fs@.len(),
    ensures
        r@.len() == gs@.len(),
        forall|i: int| 0 <= i < r@.len() ==> r@[i] == kept(fs@, gs.deep_view(), i),
{
    let ghost g = gs.deep_view();
    let mut keep: Vec<bool> = Vec::new();
    let mut i: usize = 0;
    while i < gs.len()
        invariant
            g == gs.deep_view(),
            i <= gs@.len(),
            keep@.len() == i,
            forall|k: int, m: int|
                0 <= k < g.len() && 0 <= m < g[k].len() ==> (#[trigger] g[k][m]) < fs@.len(),
            forall|t: int| 0 <= t < i ==> keep@[t] == kept(fs@, g, t),
        decreases gs@.len() - i,
    {
        assert(gs@[i as int]@ == g[i as int]);
        let mut j: usize = 0;
        let mut nested = false;
        while j < gs.len()
            invariant
                g == gs.deep_view(),
                i < gs@.len(),
                j <= gs@.len(),
                forall|k: int, m: int|
                    0 <= k < g.len() && 0 <= m < g[k].len() ==> (#[trigger] g[k][m]) < fs@.len(),
                nested <==> exists|jj: int|
                    0 <= jj < j && jj != i && nested_in(fs@, g[i as int], #[trigger] g[jj]),
            decreases gs@.len() - j,
        {
            if j != i {
                assert(gs@[j as int]@ == g[j as int]);
                assert(gs@[i as int]@ == g[i as int]);
                if nested_in_exec(fs, &gs[i], &gs[j]) {
                    nested = true;
                }
            }
            j += 1;
        }
        keep.push(!nested);
        i += 1;
    }
    keep
}

fn all_test(fs: &[FunctionUnit], s: &Vec<u32>) -> (r: bool)
    requires
        forall|k: int| 0 <= k < s@.len() ==> #[trigger] s@[k] < fs@.len(),
    ensures
        r == forall|i: int| 0 <= i < s@.len() ==> fs@[#[trigger] s@[i] as int].is_test,
{
    let mut i: usize = 0;
    while i < s.len()
        invariant
            i <= s@.len(),
            forall|k: int| 0 <= k < s@.len() ==> #[trigger] s@[k] < fs@.len(),
            forall|t: int| 0 <= t < i ==> fs@[#[trigger] s@[t] as int].is_test,
        decreases s@.len() - i,
    {
        if !fs[s[i] as usize].is_test {
            return false;
        }
        i += 1;
    }
    true
}

fn all_trait_impl(fs: &[FunctionUnit], s: &Vec<u32>) -> (r: bool)
    requires
        forall|k: int| 0 <= k < s@.len() ==> #[trigger] s@[k] < fs@.len(),
    ensures
        r == forall|i: int| 0 <= i < s@.len() ==> fs@[#[trigger] s@[i] as int].is_trait_impl_method,
{
    let mut i: usize = 0;
    while i < s.len()
        invariant
            i <= s@.len(),
            forall|k: int| 0 <= k < s@.len() ==> #[trigger] s@[k] < fs@.len(),
            forall|t: int| 0 <= t < i ==> fs@[#[trigger] s@[t] as int].is_trait_impl_method,
        decreases s@.len() - i,
    {
        if !fs[s[i] as usize].is_trait_impl_method {
            return false;
        }
        i += 1;
    }
    true
}

/// The sum of the significant lines of `s[1..]`.
fn deletable(fs: &[FunctionUnit], s: &Vec<u32>) -> (r: u32)
    requires
        s@.len() > 0,
        forall|k: int| 0 <= k < s@.len() ==> #[trigger] s@[k] < fs@.len(),
        sum_sig(fs@, s@.drop_first()) <= u32::MAX,
    ensures
        r == sum_sig(fs@, s@.drop_first()),
{
    let mut total: u32 = 0;
    let mut i: usize = 1;
    let ghost rest = s@.drop_first();
    while i < s.len()
        invariant
            1 <= i <= s@.len(),
            rest == s@.drop_first(),
            forall|k: int| 0 <= k < s@.len() ==> #[trigger] s@[k] < fs@.len(),
            sum_sig(fs@, rest) <= u32::MAX,
            total == sum_sig(fs@, rest.take(i - 1)),
        decreases s@.len() - i,
    {
        proof {
            let t = rest.take(i as int);
            assert(t.drop_last() =~= rest.take(i - 1));
            assert(t.last() == s@[i as int]);
            lemma_sum_sig_prefix(fs@, rest, i as int);
        }
        total = total + fs[s[i] as usize].sig_lines;
        i += 1;
    }
    assert(rest.take(s@.len() - 1) =~= rest);
    total
}

proof fn lemma_sum_sig_prefix(fs: Seq<FunctionUnit>, s: Seq<u32>, k: int)
    requires
        0 <= k <= s.len(),
    ensures
        sum_sig(fs, s.take(k)) <= sum_sig(fs, s),
    decreases s.len() - k,
{
    if k < s.len() {
        lemma_sum_sig_prefix(fs, s, k + 1);
        let t = s.take(k + 1);
        assert(t.drop_last() =~= s.take(k));
        assert(sum_sig(fs, t) == sum_sig(fs, t.drop_last()) + fs[t.last() as int].sig_lines as nat);
    } else {
        assert(s.take(k) =~= s);
    }
}

/// Builds the cluster of a key-ordered group.
fn make_cluster(fs: &[FunctionUnit], s: &Vec<u32>) -> (c: Cluster)
    requires
        s@.len() > 0,
        forall|k: int| 0 <= k < s@.len() ==> #[trigger] s@[k] < fs@.len(),
        sum_sig(fs@, s@.drop_first()) <= u32::MAX,
        forall|i: int|
            0 <= i < fs@.len() ==> strictly_sorted((#[trigger] fs@[i]).fingerprints@)
                && fs@[i].fingerprints@.len() <= usize::MAX / 2,
    ensures
        c@ == cluster_of(fs@, s@),
{
    let rep = s[0];
    let mut members: Vec<Member> = Vec::new();
    let mut i: usize = 0;
    while i < s.len()
        invariant
            i <= s@.len(),
            rep == s@[0],
            forall|k: int| 0 <= k < s@.len() ==> #[trigger] s@[k] < fs@.len(),
            forall|t: int|
                0 <= t < fs@.len() ==> strictly_sorted((#[trigger] fs@[t]).fingerprints@)
                    && fs@[t].fingerprints@.len() <= usize::MAX / 2,
            members@.len() == i,
            forall|t: int|
                #![trigger members@[t]]
                0 <= t < i ==> members@[t].func == s@[t] && (members@[t].similarity.shared as nat,
                members@[t].similarity.union as nat) == cluster_of(fs@, s@).similarities[t],
        decreases s@.len() - i,
    {
        let id = s[i];
        let sim = if i == 0 {
            Similarity { shared: 1, union: 1 }
        } else {
            similarity(&fs[id as usize], &fs[rep as usize])
        };
        members.push(Member { func: id, similarity: sim });
        i += 1;
    }
    let d = deletable(fs, s);
    let t = all_test(fs, s);
    let ti = all_trait_impl(fs, s);
    let c = Cluster { members, deletable_lines: d, test_only: t, trait_impl_only: ti };
    assert(c@.funcs =~= s@);
    assert(c@.similarities =~= cluster_of(fs@, s@).similarities);
    c
}

/// The order in which the kept clusters are reported: stably by deletable
/// lines, most first.
fn order_by_deletable(dels: &Vec<u32>) -> (r: Vec<usize>)
    ensures
        r@ == isort(
            Seq::new(dels@.len(), |i: int| i as usize),
            |a: usize, b: usize| dels@[a as int] >= dels@[b as int],
        ),
        forall|k: int| 0 <= k < r@.len() ==> #[trigger] r@[k] < dels@.len(),
{
    let ghost le = |a: usize, b: usize| dels@[a as int] >= dels@[b as int];
    let ghost ids = Seq::new(dels@.len(), |i: int| i as usize);
    let mut out: Vec<usize> = Vec::new();
    let mut i: usize = 0;
    assert(ids.take(0) =~= Seq::<usize>::empty());
    while i < dels.len()
        invariant
            i <= dels@.len(),
            ids == Seq::new(dels@.len(), |i: int| i as usize),
            le == (|a: usize, b: usize| dels@[a as int] >= dels@[b as int]),
            out@ == isort(ids.take(i as int), le),
            forall|k: int| 0 <= k < out@.len() ==> #[trigger] out@[k] < dels@.len(),
        decreases dels@.len() - i,
    {
        let x = i;
        let mut j = out.len();
        while j > 0 && !(dels[out[j - 1]] >= dels[x])
            invariant
                j <= out@.len(),
                x < dels@.len(),
                forall|k: int| 0 <= k < out@.len() ==> #[trigger] out@[k] < dels@.len(),
                forall|t: int| j <= t < out@.len() ==> !le(#[trigger] out@[t], x),
                le == (|a: usize, b: usize| dels@[a as int] >= dels@[b as int]),
            decreases j,
        {
            j -= 1;
        }
        let ghost before = out@;
        proof {
            if j > 0 {
                assert(le(before[j - 1], x));
            }
            lemma_ins_at(before, x, le, j as int);
            let t = ids.take(i + 1);
            assert(t.drop_last() =~= ids.take(i as int));
            assert(t.last() == x);
        }
        out.insert(j, x);
        proof {
            assert(out@ =~= before.take(j as int).push(x) + before.skip(j as int));
            assert forall|k: int| 0 <= k < out@.len() implies #[trigger] out@[k] < dels@.len() by {
                if k < j {
                    assert(out@[k] == before[k]);
                } else if k > j {
                    assert(out@[k] == before[k - 1]);
                }
            }
        }
        i += 1;
    }
    assert(ids.take(dels@.len() as int) =~= ids);
    out
}

/// Clusters the matching `pairs` over `functions`: the connected groups of
/// the pairs, each ordered with its representative (most significant
/// lines, then file, then start line) first, groups nested inside one other
/// group dropped, and the rest ordered by deletable lines, most first.
pub fn build_clusters(functions: &[FunctionUnit], pairs: &[Pair]) -> (r: Vec<Cluster>)
    requires
        clusters_input_ok(functions@, pairs@),
    ensures
        r@.map_values(|c: Cluster| c@) == spec_build_clusters(functions@, pairs@),
{
    let fs = functions;
    let mut uf = merge_pairs(fs.len(), pairs);
    let groups = group_pairs(&mut uf, pairs);
    let ghost gsv = sorted_groups(fs@, pairs@);
    // Representative first within each group.
    let mut sorted: Vec<Vec<u32>> = Vec::new();
    let mut k: usize = 0;
    while k < groups.len()
        invariant
            k <= groups@.len(),
            groups.deep_view() == pair_groups(pairs@),
            forall|q: int|
                #![trigger groups.deep_view()[q]]
                0 <= q < groups.deep_view().len() ==> groups.deep_view()[q].len() > 0 && forall|m: int|
                    0 <= m < groups.deep_view()[q].len() ==> (#[trigger] groups.deep_view()[q][m])
                        < fs@.len(),
            sorted@.len() == k,
            gsv == sorted_groups(fs@, pairs@),
            forall|q: int| 0 <= q < k ==> #[trigger] sorted.deep_view()[q] == gsv[q],
            forall|q: int, m: int|
                0 <= q < k && 0 <= m < sorted.deep_view()[q].len() ==> (
                #[trigger] sorted.deep_view()[q][m]) < fs@.len(),
            forall|q: int| 0 <= q < k ==> (#[trigger] sorted.deep_view()[q]).len() > 0,
        decreases groups@.len() - k,
    {
        assert(groups@[k as int]@ == groups.deep_view()[k as int]);
        assert(groups.deep_view()[k as int].len() > 0);
        let s = sort_by_key(fs, &groups[k]);
        proof {
            lemma_isort_len(groups.deep_view()[k as int], by_key(fs@));
        }
        let ghost before = sorted.deep_view();
        sorted.push(s);
        proof {
            assert forall|q: int| 0 <= q < k + 1 implies #[trigger] sorted.deep_view()[q] == gsv[q] by {
                if q < k {
                    assert(sorted.deep_view()[q] == before[q]);
                }
            }
            assert forall|q: int| 0 <= q < k + 1 implies (#[trigger] sorted.deep_view()[q]).len() > 0 by {
                if q < k {
                    assert(sorted.deep_view()[q] == before[q]);
                }
            }
            assert forall|q: int, m: int|
                0 <= q < k + 1 && 0 <= m < sorted.deep_view()[q].len() implies (
                #[trigger] sorted.deep_view()[q][m]) < fs@.len() by {
                if q < k {
                    assert(sorted.deep_view()[q] == before[q]);
                }
            }
        }
        k += 1;
    }
    assert(sorted.deep_view() =~= gsv);
    let keep = keep_flags(fs, &sorted);
    // Kept groups, in order, with their deletable line counts.
    let mut kept_groups: Vec<Vec<u32>> = Vec::new();
    let mut dels: Vec<u32> = Vec::new();
    let mut i: usize = 0;
    while i < sorted.len()
        invariant
            i <= sorted@.len(),
            sorted.deep_view() == gsv,
            gsv == sorted_groups(fs@, pairs@),
            clusters_input_ok(fs@, pairs@),
            keep@.len() == sorted@.len(),
            forall|t: int| 0 <= t < keep@.len() ==> keep@[t] == kept(fs@, gsv, t),
            forall|q: int, m: int|
                0 <= q < gsv.len() && 0 <= m < gsv[q].len() ==> (#[trigger] gsv[q][m]) < fs@.len(),
            forall|q: int| 0 <= q < gsv.len() ==> (#[trigger] gsv[q]).len() > 0,
            kept_groups.deep_view() == keep_unnested(fs@, gsv, i as int),
            forall|q: int|
                #![trigger kept_groups.deep_view()[q]]
                0 <= q < kept_groups.deep_view().len() ==> kept_groups.deep_view()[q].len() > 0
                    && sum_sig(fs@, kept_groups.deep_view()[q].drop_first()) <= u32::MAX
                    && forall|m: int|
                    0 <= m < kept_groups.deep_view()[q].len() ==> (
                    #[trigger] kept_groups.deep_view()[q][m]) < fs@.len(),
            dels@.len() == kept_groups@.len(),
            forall|t: int|
                0 <= t < dels@.len() ==> #[trigger] dels@[t] == sum_sig(
                    fs@,
                    kept_groups.deep_view()[t].drop_first(),
                ),
        decreases sorted@.len() - i,
    {
        if keep[i] {
            assert(sorted@[i as int]@ == gsv[i as int]);
            let s = copy_group(&sorted[i]);
            assert(sum_sig(fs@, gsv[i as int].drop_first()) <= u32::MAX);
            let d = deletable(fs, &s);
            let ghost before = kept_groups.deep_view();
            let ghost before_d = dels@;
            kept_groups.push(s);
            dels.push(d);
            proof {
                assert(kept_groups.deep_view() =~= before.push(gsv[i as int]));
                assert forall|t: int|
                    0 <= t < dels@.len() implies #[trigger] dels@[t] == sum_sig(
                        fs@,
                        kept_groups.deep_view()[t].drop_first(),
                    ) by {
                    if t < before_d.len() {
                        assert(dels@[t] == before_d[t]);
                    }
                }
            }
        }
        i += 1;
    }
    let order = order_by_deletable(&dels);
    let ghost kv = kept_groups.deep_view();
    let mut out: Vec<Cluster> = Vec::new();
    let mut t: usize = 0;
    while t < order.len()
        invariant
            t <= order@.len(),
            kv == kept_groups.deep_view(),
            forall|q: int| 0 <= q < order@.len() ==> #[trigger] order@[q] < dels@.len(),
            dels@.len() == kept_groups@.len(),
            out@.len() == t,
            forall|q: int|
                0 <= q < t ==> #[trigger] out@[q]@ == cluster_of(fs@, kv[order@[q] as int]),
            clusters_input_ok(fs@, pairs@),
            forall|q: int|
                #![trigger kv[q]]
                0 <= q < kv.len() ==> kv[q].len() > 0 && sum_sig(fs@, kv[q].drop_first())
                    <= u32::MAX && forall|m: int|
                    0 <= m < kv[q].len() ==> (#[trigger] kv[q][m]) < fs@.len(),
        decreases order@.len() - t,
    {
        let idx = order[t];
        assert(kept_groups@[idx as int]@ == kv[idx as int]);
        let c = make_cluster(fs, &kept_groups[idx]);
        let ghost before = out@;
        out.push(c);
        proof {
            assert forall|q: int|
                0 <= q < t + 1 implies #[trigger] out@[q]@ == cluster_of(fs@, kv[order@[q] as int]) by {
                if q < t {
                    assert(out@[q] == before[q]);
                }
            }
        }
        t += 1;
    }
    proof {
        let m = kv.len();
        let ids = Seq::new(dels@.len(), |i: int| i as usize);
        let le_d = |a: usize, b: usize| dels@[a as int] >= dels@[b as int];
        let f = |i: usize| cluster_of(fs@, kv[i as int]);
        assert forall|a: usize, b: usize| ids.contains(a) && ids.contains(b) implies #[trigger] le_d(
            a,
            b,
        ) == by_deletable()(f(a), f(b)) by {
            let ia = choose|q: int| 0 <= q < ids.len() && ids[q] == a;
            let ib = choose|q: int| 0 <= q < ids.len() && ids[q] == b;
            assert(dels@[a as int] == sum_sig(fs@, kv[a as int].drop_first()));
            assert(dels@[b as int] == sum_sig(fs@, kv[b as int].drop_first()));
        }
        lemma_isort_map(ids, le_d, f, by_deletable());
        assert(ids.map_values(f) =~= kv.map_values(|s: Seq<u32>| cluster_of(fs@, s)));
        lemma_isort_len(ids, le_d);
        assert(out@.map_values(|c: Cluster| c@) =~= order@.map_values(f));
    }
    out
}

fn copy_group(v: &Vec<u32>) -> (r: Vec<u32>)
    ensures
        r@ == v@,
{
    let mut out: Vec<u32> = Vec::with_capacity(v.len());
    let mut i: usize = 0;
    while i < v.len()
        invariant
            i <= v@.len(),
            out@ == v@.subrange(0, i as int),
        decreases v@.len() - i,
    {
        out.push(v[i]);
        assert(v@.subrange(0, i + 1) =~= v@.subrange(0, i as int).push(v@[i as int]));
        i += 1;
    }
    assert(v@.subrange(0, v@.len() as int) =~= v@);
    out
}

proof fn lemma_by_key_total(fs: Seq<FunctionUnit>)
    ensures
        total_preorder(by_key(fs)),
{
    let le = by_key(fs);
    assert forall|a: u32, b: u32| #[trigger] le(a, b) || le(b, a) by {}
    assert forall|a: u32, b: u32, c: u32| #[trigger] le(a, b) && #[trigger] le(b, c) implies le(a, c) by {}
}

proof fn lemma_by_deletable_total()
    ensures
        total_preorder(by_deletable()),
{
    let le = by_deletable();
    assert forall|a: ClusterView, b: ClusterView| #[trigger] le(a, b) || le(b, a) by {}
    assert forall|a: ClusterView, b: ClusterView, c: ClusterView|
        #[trigger] le(a, b) && #[trigger] le(b, c) implies le(a, c) by {}
}

proof fn lemma_keep_unnested_elems(fs: Seq<FunctionUnit>, gs: Seq<Seq<u32>>, upto: int)
    requires
        0 <= upto <= gs.len(),
    ensures
        forall|i: int|
            0 <= i < keep_unnested(fs, gs, upto).len() ==> exists|k: int|
                0 <= k < upto && #[trigger] keep_unnested(fs, gs, upto)[i] == gs[k],
    decreases upto,
{
    if upto > 0 {
        lemma_keep_unnested_elems(fs, gs, upto - 1);
        let prev = keep_unnested(fs, gs, upto - 1);
        let cur = keep_unnested(fs, gs, upto);
        assert forall|i: int| 0 <= i < cur.len() implies exists|k: int|
            0 <= k < upto && #[trigger] cur[i] == gs[k] by {
            if i < prev.len() {
                assert(cur[i] == prev[i]);
                let k = choose|k: int| 0 <= k < upto - 1 && #[trigger] prev[i] == gs[k];
                assert(cur[i] == gs[k]);
            } else {
                assert(cur[i] == gs[upto - 1]);
            }
        }
    }
}

/// Clusters come ordered by deletable lines, most first.
pub proof fn law_clusters_by_deletable_lines(fs: Seq<FunctionUnit>, ps: Seq<Pair>)
    ensures
        forall|i: int, j: int|
            0 <= i < j < spec_build_clusters(fs, ps).len() ==> (#[trigger] spec_build_clusters(
                fs,
                ps,
            )[i]).deletable_lines >= (#[trigger] spec_build_clusters(fs, ps)[j]).deletable_lines,
{
    let gs = sorted_groups(fs, ps);
    let mapped = keep_unnested(fs, gs, gs.len() as int).map_values(
        |s: Seq<u32>| cluster_of(fs, s),
    );
    lemma_by_deletable_total();
    lemma_isort_sorted(mapped, by_deletable());
}

/// `x` holds the members of one of the groups `gs`, each once.
pub open spec fn members_of_a_group(gs: Seq<Seq<u32>>, x: Seq<u32>) -> bool {
    exists|k: int| 0 <= k < gs.len() && #[trigger] gs[k].to_multiset() == x.to_multiset()
}

/// Each cluster lists the members of one duplicate group, each once, with
/// its representative first: no member has more significant lines (on a
/// tie, none is in a lower file, or earlier in the same file). Its
/// deletable lines are the significant lines of all members but the
/// representative.
pub proof fn law_cluster_is_ranked_group(fs: Seq<FunctionUnit>, ps: Seq<Pair>)
    ensures
        forall|c: int|
            0 <= c < spec_build_clusters(fs, ps).len() ==> #[trigger] members_of_a_group(
                pair_groups(ps),
                spec_build_clusters(fs, ps)[c].funcs,
            ),
        forall|c: int, m: int|
            0 <= c < spec_build_clusters(fs, ps).len() && 0 <= m < spec_build_clusters(
                fs,
                ps,
            )[c].funcs.len() ==> key_le(
                fs,
                spec_build_clusters(fs, ps)[c].funcs[0],
                #[trigger] spec_build_clusters(fs, ps)[c].funcs[m],
            ),
        forall|c: int|
            0 <= c < spec_build_clusters(fs, ps).len() ==> (#[trigger] spec_build_clusters(
                fs,
                ps,
            )[c]).deletable_lines == sum_sig(fs, spec_build_clusters(fs, ps)[c].funcs.drop_first()),
{
    let r = spec_build_clusters(fs, ps);
    let pg = pair_groups(ps);
    let gs = sorted_groups(fs, ps);
    let ku = keep_unnested(fs, gs, gs.len() as int);
    let mapped = ku.map_values(|s: Seq<u32>| cluster_of(fs, s));
    lemma_isort_elems(mapped, by_deletable());
    lemma_keep_unnested_elems(fs, gs, gs.len() as int);
    lemma_by_key_total(fs);
    assert forall|c: int| #![trigger r[c]] 0 <= c < r.len() implies members_of_a_group(pg, r[c].funcs)
        && (forall|m: int|
        0 <= m < r[c].funcs.len() ==> key_le(fs, r[c].funcs[0], #[trigger] r[c].funcs[m]))
        && r[c].deletable_lines == sum_sig(fs, r[c].funcs.drop_first()) by {
        assert(r.contains(r[c]));
        assert(mapped.contains(r[c]));
        let i = choose|i: int| 0 <= i < mapped.len() && mapped[i] == r[c];
        assert(mapped[i] == cluster_of(fs, ku[i]));
        let k = choose|k: int| 0 <= k < gs.len() && #[trigger] ku[i] == gs[k];
        assert(gs[k] == isort(pg[k], by_key(fs)));
        assert(r[c].funcs == gs[k]);
        lemma_isort_multiset(pg[k], by_key(fs));
        lemma_isort_sorted(pg[k], by_key(fs));
        assert(pg[k].to_multiset() == r[c].funcs.to_multiset());
        assert forall|m: int| 0 <= m < r[c].funcs.len() implies key_le(
            fs,
            r[c].funcs[0],
            #[trigger] r[c].funcs[m],
        ) by {
            if m > 0 {
                assert(by_key(fs)(gs[k][0], gs[k][m]));
            }
        }
    }
}

proof fn lemma_shared_count_all(a: Seq<u64>, b: Seq<u64>)
    requires
        forall|i: int| 0 <= i < a.len() ==> b.contains(#[trigger] a[i]),
    ensures
        shared_count(a, b) == a.len(),
    decreases a.len(),
{
    if a.len() > 0 {
        let t = a.drop_last();
        assert forall|i: int| 0 <= i < t.len() implies b.contains(#[trigger] t[i]) by {
            assert(t[i] == a[i]);
        }
        lemma_shared_count_all(t, b);
        assert(b.contains(a[a.len() - 1]));
    }
}

/// A fingerprint set compared with itself scores one: all of its
/// fingerprints are shared and the union is the set itself.
pub proof fn law_jaccard_of_itself(a: Seq<u64>)
    ensures
        jaccard(a, a) == (a.len(), a.len()),
{
    lemma_shared_count_all(a, a);
}

proof fn lemma_shared_count_set(a: Seq<u64>, b: Seq<u64>)
    requires
        strictly_sorted(a),
    ensures
        shared_count(a, b) == a.to_set().intersect(b.to_set()).len(),
    decreases a.len(),
{
    broadcast use vstd::seq_lib::seq_to_set_is_finite;
    broadcast use vstd::set::group_set_axioms;

    if a.len() == 0 {
        assert(a.to_set().intersect(b.to_set()) =~= Set::<u64>::empty());
    } else {
        let t = a.drop_last();
        let x = a.last();
        assert(strictly_sorted(t)) by {
            assert forall|i: int, j: int| 0 <= i < j < t.len() implies t[i] < t[j] by {
                assert(t[i] == a[i] && t[j] == a[j]);
            }
        }
        lemma_shared_count_set(t, b);
        assert(a =~= t.push(x));
        t.lemma_push_to_set_commute(x);
        assert(!t.contains(x)) by {
            if t.contains(x) {
                let i = choose|i: int| 0 <= i < t.len() && t[i] == x;
                assert(a[i] < a[a.len() - 1]);
            }
        }
        let tb = t.to_set().intersect(b.to_set());
        let ab = a.to_set().intersect(b.to_set());
        if b.contains(x) {
            assert(ab =~= tb.insert(x));
            assert(!tb.contains(x));
        } else {
            assert(ab =~= tb);
        }
    }
}

/// Jaccard similarity of two fingerprint sets (distinct values) is
/// symmetric, and a fraction: the shared fingerprints are no more than the
/// union.
pub proof fn law_jaccard_symmetric(a: Seq<u64>, b: Seq<u64>)
    requires
        strictly_sorted(a),
        strictly_sorted(b),
    ensures
        jaccard(a, b) == jaccard(b, a),
        jaccard(a, b).0 <= jaccard(a, b).1,
{
    broadcast use vstd::seq_lib::seq_to_set_is_finite;

    lemma_shared_count_set(a, b);
    lemma_shared_count_set(b, a);
    assert(a.to_set().intersect(b.to_set()) =~= b.to_set().intersect(a.to_set()));
    vstd::set_lib::lemma_len_intersect(a.to_set(), b.to_set());
    vstd::set_lib::lemma_len_intersect(b.to_set(), a.to_set());
    a.lemma_cardinality_of_set();
    b.lemma_cardinality_of_set();
}

/// `x` is a group among the first `upto` that is kept.
pub open spec fn kept_group(fs: Seq<FunctionUnit>, gs: Seq<Seq<u32>>, upto: int, x: Seq<u32>) -> bool {
    exists|k: int| #![trigger gs[k]] 0 <= k < upto && kept(fs, gs, k) && x == gs[k]
}

proof fn lemma_keep_unnested_kept(fs: Seq<FunctionUnit>, gs: Seq<Seq<u32>>, upto: int)
    requires
        0 <= upto <= gs.len(),
    ensures
        forall|i: int|
            0 <= i < keep_unnested(fs, gs, upto).len() ==> #[trigger] kept_group(
                fs,
                gs,
                upto,
                keep_unnested(fs, gs, upto)[i],
            ),
        forall|k: int|
            0 <= k < upto && kept(fs, gs, k) ==> #[trigger] keep_unnested(fs, gs, upto).contains(
                gs[k],
            ),
    decreases upto,
{
    if upto > 0 {
        lemma_keep_unnested_kept(fs, gs, upto - 1);
        let prev = keep_unnested(fs, gs, upto - 1);
        let cur = keep_unnested(fs, gs, upto);
        assert forall|i: int| 0 <= i < cur.len() implies #[trigger] kept_group(
            fs,
            gs,
            upto,
            cur[i],
        ) by {
            if i < prev.len() {
                assert(cur[i] == prev[i]);
                assert(kept_group(fs, gs, upto - 1, prev[i]));
                let k = choose|k: int|
                    #![trigger gs[k]]
                    0 <= k < upto - 1 && kept(fs, gs, k) && prev[i] == gs[k];
                assert(cur[i] == gs[k]);
            } else {
                assert(kept(fs, gs, upto - 1));
                assert(cur[i] == gs[upto - 1]);
            }
        }
        assert forall|k: int| 0 <= k < upto && kept(fs, gs, k) implies #[trigger] cur.contains(
            gs[k],
        ) by {
            if k < upto - 1 {
                assert(prev.contains(gs[k]));
                let i = choose|i: int| 0 <= i < prev.len() && prev[i] == gs[k];
                assert(cur[i] == gs[k]);
            } else {
                assert(cur[prev.len() as int] == gs[k]);
            }
        }
    }
}

/// Some cluster of `r` lists exactly `x`.
pub open spec fn lists_group(r: Seq<ClusterView>, x: Seq<u32>) -> bool {
    exists|c: int| 0 <= c < r.len() && #[trigger] r[c].funcs == x
}

/// Nested-cluster suppression: the clusters are exactly the duplicate
/// groups (representative first) that are not nested in one other group,
/// that is, whose members do not all sit inside members of another group.
pub proof fn law_nested_groups_dropped(fs: Seq<FunctionUnit>, ps: Seq<Pair>)
    ensures
        forall|c: int|
            0 <= c < spec_build_clusters(fs, ps).len() ==> #[trigger] kept_group(
                fs,
                sorted_groups(fs, ps),
                sorted_groups(fs, ps).len() as int,
                spec_build_clusters(fs, ps)[c].funcs,
            ),
        forall|k: int|
            0 <= k < sorted_groups(fs, ps).len() && kept(fs, sorted_groups(fs, ps), k)
                ==> #[trigger] lists_group(spec_build_clusters(fs, ps), sorted_groups(fs, ps)[k]),
{
    let r = spec_build_clusters(fs, ps);
    let gs = sorted_groups(fs, ps);
    let ku = keep_unnested(fs, gs, gs.len() as int);
    let mapped = ku.map_values(|s: Seq<u32>| cluster_of(fs, s));
    lemma_isort_elems(mapped, by_deletable());
    lemma_keep_unnested_kept(fs, gs, gs.len() as int);
    assert forall|c: int| 0 <= c < r.len() implies #[trigger] kept_group(
        fs,
        gs,
        gs.len() as int,
        r[c].funcs,
    ) by {
        assert(r.contains(r[c]));
        assert(mapped.contains(r[c]));
        let i = choose|i: int| 0 <= i < mapped.len() && mapped[i] == r[c];
        assert(mapped[i] == cluster_of(fs, ku[i]));
        assert(kept_group(fs, gs, gs.len() as int, ku[i]));
        assert(r[c].funcs == ku[i]);
    }
    assert forall|k: int| 0 <= k < gs.len() && kept(fs, gs, k) implies #[trigger] lists_group(
        r,
        gs[k],
    ) by {
        assert(ku.contains(gs[k]));
        let i = choose|i: int| 0 <= i < ku.len() && ku[i] == gs[k];
        assert(mapped[i] == cluster_of(fs, gs[k]));
        assert(mapped.contains(mapped[i]));
        assert(r.contains(mapped[i]));
        let c = choose|c: int| 0 <= c < r.len() && r[c] == mapped[i];
        assert(r[c].funcs == gs[k]);
    }
}

/// Suppression is settled in one pass: no kept group is nested in another
/// kept group, so suppressing again among the kept groups drops nothing.
pub proof fn law_kept_groups_not_nested(fs: Seq<FunctionUnit>, gs: Seq<Seq<u32>>)
    ensures
        forall|i: int, j: int|
            0 <= i < gs.len() && 0 <= j < gs.len() && i != j && kept(fs, gs, i) && kept(fs, gs, j)
                ==> !nested_in(fs, #[trigger] gs[i], #[trigger] gs[j]),
{
}

/// A cluster is test-only exactly when every one of its members is test
/// code, and trait-impl-only exactly when every member is a required
/// implementation: one production member is enough to count it.
pub proof fn law_cluster_flags_cover_every_member(fs: Seq<FunctionUnit>, ps: Seq<Pair>)
    ensures
        forall|c: int|
            0 <= c < spec_build_clusters(fs, ps).len() ==> ((#[trigger] spec_build_clusters(
                fs,
                ps,
            )[c]).test_only <==> forall|m: int|
                0 <= m < spec_build_clusters(fs, ps)[c].funcs.len() ==> fs[spec_build_clusters(
                    fs,
                    ps,
                )[c].funcs[m] as int].is_test),
        forall|c: int|
            0 <= c < spec_build_clusters(fs, ps).len() ==> ((#[trigger] spec_build_clusters(
                fs,
                ps,
            )[c]).trait_impl_only <==> forall|m: int|
                0 <= m < spec_build_clusters(fs, ps)[c].funcs.len() ==> fs[spec_build_clusters(
                    fs,
                    ps,
                )[c].funcs[m] as int].is_trait_impl_method),
{
    let r = spec_build_clusters(fs, ps);
    let gs = sorted_groups(fs, ps);
    let ku = keep_unnested(fs, gs, gs.len() as int);
    let mapped = ku.map_values(|s: Seq<u32>| cluster_of(fs, s));
    lemma_isort_elems(mapped, by_deletable());
    assert forall|c: int| #![trigger r[c]] 0 <= c < r.len() implies (r[c].test_only <==> forall|m: int|
        0 <= m < r[c].funcs.len() ==> fs[r[c].funcs[m] as int].is_test) && (r[c].trait_impl_only
        <==> forall|m: int|
        0 <= m < r[c].funcs.len() ==> fs[r[c].funcs[m] as int].is_trait_impl_method) by {
        assert(r.contains(r[c]));
        assert(mapped.contains(r[c]));
        let i = choose|i: int| 0 <= i < mapped.len() && mapped[i] == r[c];
        assert(mapped[i] == cluster_of(fs, ku[i]));
    }
}

} // verus!
