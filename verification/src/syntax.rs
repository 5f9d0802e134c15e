//! The syntax tree that the analysis reads: tree-sitter's parse of a file,
//! held as plain values. Nodes are stored in pre-order, so the subtree of
//! node `i` is the index range `i..end`, and its leaves, in depth-first
//! order, are the leaves in that range by increasing index.

use crate::lang::{CompiledQuery, Grammar, Lang};
use streaming_iterator::StreamingIterator;
use vstd::prelude::*;

verus! {

#[verifier::external_type_specification]
#[verifier::external_body]
pub struct ExTree(tree_sitter::Tree);

#[verifier::external_type_specification]
#[verifier::external_body]
pub struct ExLanguage(tree_sitter::Language);

/// One node as tree-sitter reports it, at a pre-order position.
pub struct NodeInfo {
    /// tree-sitter's node id (unique within one tree).
    pub id: usize,
    pub kind: Vec<u8>,
    pub kind_id: u16,
    pub named: bool,
    /// The field under which the node sits in its parent, if any.
    pub field: Option<Vec<u8>>,
    /// Depth below the root (the root has depth 0).
    pub depth: u32,
    pub start_byte: usize,
    pub end_byte: usize,
    /// 0-based rows of the node's first and last byte.
    pub start_row: usize,
    pub end_row: usize,
}

pub struct SyntaxNode {
    pub id: usize,
    pub kind: Vec<u8>,
    pub kind_id: u16,
    pub named: bool,
    pub field: Option<Vec<u8>>,
    pub depth: u32,
    pub start_byte: usize,
    pub end_byte: usize,
    pub start_row: usize,
    pub end_row: usize,
    /// Index of the parent node (`None` for the root).
    pub parent: Option<usize>,
    /// Indices of the children, in order.
    pub children: Vec<usize>,
    /// One past the last node of this node's subtree.
    pub end: usize,
}

/// A parsed file: its nodes in pre-order, the root first.
pub struct SyntaxTree {
    pub nodes: Vec<SyntaxNode>,
}

/// Index of the last node before `i` at depth `d` (-1 when there is none).
pub open spec fn last_at_depth(ds: Seq<u32>, i: int, d: int) -> int
    decreases i,
{
    if i <= 0 {
        -1
    } else if ds[i - 1] == d {
        i - 1
    } else {
        last_at_depth(ds, i - 1, d)
    }
}

/// The first node after `i` that is not below `i` (the end of `i`'s
/// subtree), scanning from `j`.
pub open spec fn scan_end(ds: Seq<u32>, i: int, j: int) -> int
    decreases ds.len() - j,
{
    if j >= ds.len() {
        ds.len() as int
    } else if ds[j] <= ds[i] {
        j
    } else {
        scan_end(ds, i, j + 1)
    }
}

/// A depth sequence that a pre-order walk of one tree produces.
pub open spec fn valid_depths(ds: Seq<u32>) -> bool {
    &&& ds.len() > 0
    &&& ds[0] == 0
    &&& forall|i: int| 0 < i < ds.len() ==> 1 <= #[trigger] ds[i] <= ds[i - 1] + 1
}

/// Indices below `n` whose parent is `p`, in order.
pub open spec fn children_of(parents: Seq<Option<usize>>, p: int, n: int) -> Seq<usize>
    decreases n,
{
    if n <= 0 {
        Seq::empty()
    } else if parents[n - 1] == Some(p as usize) {
        children_of(parents, p, n - 1).push((n - 1) as usize)
    } else {
        children_of(parents, p, n - 1)
    }
}

impl SyntaxTree {
    pub open spec fn depths(&self) -> Seq<u32> {
        self.nodes@.map_values(|n: SyntaxNode| n.depth)
    }

    pub open spec fn parents(&self) -> Seq<Option<usize>> {
        self.nodes@.map_values(|n: SyntaxNode| n.parent)
    }

    /// The structure the analysis relies on: the parent of each node is
    /// the last node before it one level up, its children are the nodes
    /// whose parent it is, and its subtree ends at the first later node
    /// that is not deeper.
    pub closed spec fn wf(&self) -> bool {
        let n = self.nodes@.len();
        let ds = self.depths();
        &&& valid_depths(ds)
        &&& forall|i: int|
            #![trigger self.nodes@[i]]
            0 <= i < n ==> {
                &&& self.nodes@[i].parent == if i == 0 {
                    None
                } else {
                    Some(last_at_depth(ds, i, ds[i] - 1) as usize)
                }
                &&& self.nodes@[i].end == scan_end(ds, i, i + 1)
                &&& self.nodes@[i].children@ == children_of(self.parents(), i, n as int)
                &&& i < self.nodes@[i].end <= n
                &&& forall|k: int|
                    0 <= k < self.nodes@[i].children@.len() ==> i < #[trigger] self.nodes@[i].children@[k]
                        < n
                &&& (i > 0 ==> 0 <= last_at_depth(ds, i, ds[i] - 1) < i)
            }
    }

    /// What every node of a well-formed tree satisfies.
    pub proof fn lemma_node(&self, i: int)
        requires
            self.wf(),
            0 <= i < self.nodes@.len(),
        ensures
            i < self.nodes@[i].end <= self.nodes@.len(),
            (i == 0) == (self.nodes@[i].parent is None),
            self.nodes@[i].parent matches Some(p) ==> p < i,
            forall|k: int|
                0 <= k < self.nodes@[i].children@.len() ==> i < #[trigger] self.nodes@[i].children@[k]
                    < self.nodes@.len(),
    {
    }

    /// Node `i` has no children.
    pub open spec fn is_leaf(&self, i: int) -> bool {
        self.nodes@[i].children@.len() == 0
    }
}

pub proof fn lemma_last_at_depth_range(ds: Seq<u32>, i: int, d: int)
    ensures
        -1 <= last_at_depth(ds, i, d) < i || i <= 0,
        last_at_depth(ds, i, d) >= 0 ==> ds[last_at_depth(ds, i, d)] == d,
    decreases i,
{
    if i > 0 && ds[i - 1] != d {
        lemma_last_at_depth_range(ds, i - 1, d);
    }
}

pub proof fn lemma_scan_end_range(ds: Seq<u32>, i: int, j: int)
    requires
        0 <= i < j,
    ensures
        j <= scan_end(ds, i, j) <= ds.len() || (j > ds.len() && scan_end(ds, i, j) == ds.len()),
    decreases ds.len() - j,
{
    if j < ds.len() && ds[j] > ds[i] {
        lemma_scan_end_range(ds, i, j + 1);
    }
}

/// In a valid depth sequence, every non-root node has a node one level up
/// before it.
pub proof fn lemma_parent_exists(ds: Seq<u32>, i: int)
    requires
        valid_depths(ds),
        0 < i < ds.len(),
    ensures
        0 <= last_at_depth(ds, i, ds[i] - 1) < i,
    decreases i,
{
    let d = ds[i] - 1;
    if ds[i - 1] == d {
    } else {
        // ds[i - 1] >= ds[i], so some earlier node steps down through depth d.
        lemma_depth_reached(ds, i - 1, d);
    }
}

/// Every depth up to `ds[i]` occurs at or before `i`.
proof fn lemma_depth_reached(ds: Seq<u32>, i: int, d: int)
    requires
        valid_depths(ds),
        0 <= i < ds.len(),
        0 <= d <= ds[i],
    ensures
        0 <= last_at_depth(ds, i + 1, d) <= i,
    decreases i,
{
    if ds[i] == d {
    } else {
        assert(i > 0);
        assert(ds[i] <= ds[i - 1] + 1);
        lemma_depth_reached(ds, i - 1, d);
    }
}

fn copy_bytes(v: &Vec<u8>) -> (r: Vec<u8>)
    ensures
        r@ == v@,
{
    let mut out: Vec<u8> = Vec::with_capacity(v.len());
    let mut i: usize = 0;
    while i < v.len()
        invariant
            i <= v@.len(),
            out@ == v@.subrange(0, i as int),
        decreases v@.len() - i,
    {
        out.push(v[i]);
        assert(v@.subrange(0, i + 1) =~= v@.subrange(0, i as int).push(v@[i as int]));
        i += 1;
    }
    assert(v@.subrange(0, v@.len() as int) =~= v@);
    out
}

pub open spec fn opt_bytes(o: Option<Vec<u8>>) -> Option<Seq<u8>> {
    match o {
        Some(v) => Some(v@),
        None => None,
    }
}

fn copy_field(o: &Option<Vec<u8>>) -> (r: Option<Vec<u8>>)
    ensures
        opt_bytes(r) == opt_bytes(*o),
{
    match o {
        Some(v) => Some(copy_bytes(v)),
        None => None,
    }
}

pub open spec fn info_depths(infos: Seq<NodeInfo>) -> Seq<u32> {
    infos.map_values(|n: NodeInfo| n.depth)
}

/// Node `i` of the tree carries what tree-sitter reported for it.
pub open spec fn node_matches_info(n: SyntaxNode, info: NodeInfo) -> bool {
    &&& n.id == info.id
    &&& n.kind@ == info.kind@
    &&& n.kind_id == info.kind_id
    &&& n.named == info.named
    &&& opt_bytes(n.field) == opt_bytes(info.field)
    &&& n.depth == info.depth
    &&& n.start_byte == info.start_byte
    &&& n.end_byte == info.end_byte
    &&& n.start_row == info.start_row
    &&& n.end_row == info.end_row
}

/// The end of node `i`'s subtree in a depth sequence.
fn subtree_end(ds: &Vec<u32>, i: usize) -> (r: usize)
    requires
        i < ds@.len(),
        ds@.len() < usize::MAX,
    ensures
        r == scan_end(ds@, i as int, i + 1),
        i < r <= ds@.len(),
{
    let mut j = i + 1;
    while j < ds.len() && ds[j] > ds[i]
        invariant
            i < j <= ds@.len(),
            scan_end(ds@, i as int, i + 1) == scan_end(ds@, i as int, j as int),
        decreases ds@.len() - j,
    {
        j += 1;
    }
    j
}

/// The depths of `infos`, if they can come from a pre-order walk.
fn checked_depths(infos: &Vec<NodeInfo>) -> (r: Option<Vec<u32>>)
    ensures
        r is Some <==> valid_depths(info_depths(infos@)),
        r matches Some(ds) ==> ds@ == info_depths(infos@),
{
    let n = infos.len();
    let ghost dsv = info_depths(infos@);
    let mut ds: Vec<u32> = Vec::with_capacity(n);
    let mut i: usize = 0;
    while i < n
        invariant
            n == infos@.len(),
            i <= n,
            ds@ == dsv.take(i as int),
            dsv == info_depths(infos@),
        decreases n - i,
    {
        ds.push(infos[i].depth);
        assert(dsv.take(i + 1) =~= dsv.take(i as int).push(dsv[i as int]));
        i += 1;
    }
    assert(dsv.take(n as int) =~= dsv);
    if n == 0 {
        assert(dsv.len() == 0);
        return None;
    }
    if ds[0] != 0 {
        assert(dsv[0] != 0);
        return None;
    }
    let mut k: usize = 1;
    while k < n
        invariant
            n == ds@.len(),
            1 <= k <= n,
            ds@ == dsv,
            ds@[0] == 0,
            dsv == info_depths(infos@),
            forall|q: int| 0 < q < k ==> 1 <= #[trigger] dsv[q] <= dsv[q - 1] + 1,
        decreases n - k,
    {
        if ds[k] < 1 || ds[k] as u64 > ds[k - 1] as u64 + 1 {
            assert(!(1 <= dsv[k as int] <= dsv[k - 1] + 1));
            return None;
        }
        k += 1;
    }
    Some(ds)
}

/// The parent of every node: the last node before it one level up.
fn compute_parents(ds: &Vec<u32>) -> (parents: Vec<Option<usize>>)
    requires
        valid_depths(ds@),
    ensures
        parents@.len() == ds@.len(),
        forall|q: int|
            0 <= q < ds@.len() ==> #[trigger] parents@[q] == if q == 0 {
                None
            } else {
                Some(last_at_depth(ds@, q, ds@[q] - 1) as usize)
            },
        forall|q: int| 0 <= q < ds@.len() ==> match #[trigger] parents@[q] {
            Some(p) => p < q,
            None => true,
        },
{
    let n = ds.len();
    let ghost dsv = ds@;
    let mut parents: Vec<Option<usize>> = Vec::with_capacity(n);
    let mut path: Vec<usize> = Vec::new();
    let mut i: usize = 0;
    while i < n
        invariant
            n == ds@.len(),
            ds@ == dsv,
            valid_depths(dsv),
            i <= n,
            parents@.len() == i,
            forall|q: int|
                0 <= q < i ==> #[trigger] parents@[q] == if q == 0 {
                    None
                } else {
                    Some(last_at_depth(dsv, q, dsv[q] - 1) as usize)
                },
            i > 0 ==> path@.len() == dsv[i - 1] + 1,
            i == 0 ==> path@.len() == 0,
            forall|d: int| 0 <= d < path@.len() ==> #[trigger] path@[d] == last_at_depth(dsv, i as int, d),
            forall|q: int| 0 <= q < i ==> match #[trigger] parents@[q] {
                Some(p) => p < q,
                None => true,
            },
        decreases n - i,
    {
        let d = ds[i] as usize;
        if i == 0 {
            parents.push(None);
        } else {
            proof {
                lemma_parent_exists(dsv, i as int);
            }
            parents.push(Some(path[d - 1]));
        }
        let ghost before = path@;
        path.truncate(d);
        path.push(i);
        proof {
            assert forall|dd: int| 0 <= dd < path@.len() implies #[trigger] path@[dd] == last_at_depth(
                dsv,
                i + 1,
                dd,
            ) by {
                if dd < d {
                    assert(path@[dd] == before[dd]);
                }
            }
        }
        i += 1;
    }
    parents
}

/// The children of every node, in order.
fn compute_children(parents: &Vec<Option<usize>>) -> (children: Vec<Vec<usize>>)
    requires
        forall|q: int| 0 <= q < parents@.len() ==> match #[trigger] parents@[q] {
            Some(p) => p < q,
            None => true,
        },
    ensures
        children@.len() == parents@.len(),
        forall|q: int|
            0 <= q < parents@.len() ==> (#[trigger] children@[q])@ == children_of(
                parents@,
                q,
                parents@.len() as int,
            ),
{
    let n = parents.len();
    let mut children: Vec<Vec<usize>> = Vec::with_capacity(n);
    let mut c: usize = 0;
    while c < n
        invariant
            c <= n,
            children@.len() == c,
            forall|q: int| 0 <= q < c ==> (#[trigger] children@[q])@.len() == 0,
        decreases n - c,
    {
        children.push(Vec::new());
        c += 1;
    }
    proof {
        assert forall|q: int| 0 <= q < n implies (#[trigger] children@[q])@ == children_of(
            parents@,
            q,
            0,
        ) by {
            assert(children@[q]@ =~= Seq::<usize>::empty());
        }
    }
    let mut j: usize = 0;
    while j < n
        invariant
            n == parents@.len(),
            children@.len() == n,
            j <= n,
            forall|q: int|
                0 <= q < n ==> (#[trigger] children@[q])@ == children_of(parents@, q, j as int),
            forall|q: int| 0 <= q < n ==> match #[trigger] parents@[q] {
                Some(p) => p < q,
                None => true,
            },
        decreases n - j,
    {
        match parents[j] {
            Some(p) => {
                assert(p < j);
                let mut v = copy_children(&children[p]);
                v.push(j);
                let ghost before = children@;
                children.set(p, v);
                proof {
                    assert forall|q: int|
                        0 <= q < n implies (#[trigger] children@[q])@ == children_of(
                            parents@,
                            q,
                            j + 1,
                        ) by {
                        if q != p {
                            assert(children@[q] == before[q]);
                        }
                    }
                }
            },
            None => {
                assert forall|q: int|
                    0 <= q < n implies (#[trigger] children@[q])@ == children_of(
                        parents@,
                        q,
                        j + 1,
                    ) by {}
            },
        }
        j += 1;
    }
    children
}

/// Builds the tree from tree-sitter's nodes in pre-order, or `None` when
/// their depths cannot come from a pre-order walk of one tree.
pub fn build_tree(infos: &Vec<NodeInfo>) -> (r: Option<SyntaxTree>)
    requires
        infos@.len() < usize::MAX,
    ensures
        r is Some <==> valid_depths(info_depths(infos@)),
        r matches Some(t) ==> {
            &&& t.wf()
            &&& t.nodes@.len() == infos@.len()
            &&& forall|i: int| 0 <= i < infos@.len() ==> node_matches_info(#[trigger] t.nodes@[i], infos@[i])
        },
{
    let n = infos.len();
    let ghost dsv = info_depths(infos@);
    let checked = checked_depths(infos);
    if checked.is_none() {
        return None;
    }
    let ds = checked.unwrap();
    let parents = compute_parents(&ds);
    let children = compute_children(&parents);
    let mut nodes: Vec<SyntaxNode> = Vec::with_capacity(n);
    let mut i: usize = 0;
    while i < n
        invariant
            n == infos@.len(),
            n < usize::MAX,
            n == ds@.len(),
            n == parents@.len(),
            n == children@.len(),
            ds@ == dsv,
            dsv == info_depths(infos@),
            valid_depths(dsv),
            i <= n,
            nodes@.len() == i,
            forall|q: int|
                0 <= q < n ==> #[trigger] parents@[q] == if q == 0 {
                    None
                } else {
                    Some(last_at_depth(dsv, q, dsv[q] - 1) as usize)
                },
            forall|q: int|
                0 <= q < n ==> (#[trigger] children@[q])@ == children_of(parents@, q, n as int),
            forall|q: int|
                #![trigger nodes@[q]]
                0 <= q < i ==> node_matches_info(nodes@[q], infos@[q]) && nodes@[q].parent
                    == parents@[q] && nodes@[q].children@ == children@[q]@ && nodes@[q].end
                    == scan_end(dsv, q, q + 1) && q < nodes@[q].end <= n,
        decreases n - i,
    {
        let info = &infos[i];
        let end = subtree_end(&ds, i);
        let node = SyntaxNode {
            id: info.id,
            kind: copy_bytes(&info.kind),
            kind_id: info.kind_id,
            named: info.named,
            field: copy_field(&info.field),
            depth: info.depth,
            start_byte: info.start_byte,
            end_byte: info.end_byte,
            start_row: info.start_row,
            end_row: info.end_row,
            parent: parents[i],
            children: copy_children(&children[i]),
            end,
        };
        let ghost before = nodes@;
        nodes.push(node);
        proof {
            assert forall|q: int|
                #![trigger nodes@[q]]
                0 <= q < i + 1 implies node_matches_info(nodes@[q], infos@[q]) && nodes@[q].parent
                    == parents@[q] && nodes@[q].children@ == children@[q]@ && nodes@[q].end
                    == scan_end(dsv, q, q + 1) && q < nodes@[q].end <= n by {
                if q < i {
                    assert(nodes@[q] == before[q]);
                }
            }
        }
        i += 1;
    }
    let t = SyntaxTree { nodes };
    proof {
        lemma_tree_wf(t, parents@, children@.map_values(|v: Vec<usize>| v@), dsv);
    }
    Some(t)
}

proof fn lemma_tree_wf(
    t: SyntaxTree,
    parents: Seq<Option<usize>>,
    children: Seq<Seq<usize>>,
    dsv: Seq<u32>,
)
    requires
        valid_depths(dsv),
        t.nodes@.len() == dsv.len(),
        t.nodes@.len() == parents.len(),
        t.nodes@.len() == children.len(),
        forall|q: int|
            0 <= q < dsv.len() ==> #[trigger] parents[q] == if q == 0 {
                None
            } else {
                Some(last_at_depth(dsv, q, dsv[q] - 1) as usize)
            },
        forall|q: int|
            0 <= q < dsv.len() ==> #[trigger] children[q] == children_of(parents, q, dsv.len() as int),
        forall|q: int|
            #![trigger t.nodes@[q]]
            0 <= q < dsv.len() ==> t.nodes@[q].depth == dsv[q] && t.nodes@[q].parent == parents[q]
                && t.nodes@[q].children@ == children[q] && t.nodes@[q].end == scan_end(
                dsv,
                q,
                q + 1,
            ) && q < t.nodes@[q].end <= dsv.len(),
        dsv.len() < usize::MAX,
    ensures
        t.wf(),
{
    let n = dsv.len();
    assert(t.depths() =~= dsv);
    assert(t.parents() =~= parents);
    assert forall|i: int|
        #![trigger t.nodes@[i]]
        0 <= i < n implies {
            &&& t.nodes@[i].parent == if i == 0 {
                None
            } else {
                Some(last_at_depth(dsv, i, dsv[i] - 1) as usize)
            }
            &&& t.nodes@[i].end == scan_end(dsv, i, i + 1)
            &&& t.nodes@[i].children@ == children_of(t.parents(), i, n as int)
            &&& i < t.nodes@[i].end <= n
            &&& forall|k: int|
                0 <= k < t.nodes@[i].children@.len() ==> i < #[trigger] t.nodes@[i].children@[k] < n
            &&& (i > 0 ==> 0 <= last_at_depth(dsv, i, dsv[i] - 1) < i)
        } by {
        assert(parents[i] == t.nodes@[i].parent);
        if i > 0 {
            lemma_parent_exists(dsv, i);
        }
        lemma_children_of_elems(parents, i, n as int);
        assert forall|k: int|
            0 <= k < t.nodes@[i].children@.len() implies i < #[trigger] t.nodes@[i].children@[k]
                < n by {
            let c = t.nodes@[i].children@[k];
            assert(children_of(parents, i, n as int).contains(c));
            assert(parents[c as int] == Some(i as usize));
            if c > 0 {
                lemma_parent_exists(dsv, c as int);
            }
        }
    }
}

pub proof fn lemma_children_of_elems(parents: Seq<Option<usize>>, p: int, n: int)
    requires
        0 <= p,
        n <= usize::MAX,
    ensures
        forall|c: usize|
            #[trigger] children_of(parents, p, n).contains(c) ==> 0 <= c < n && parents[c as int]
                == Some(p as usize),
    decreases n,
{
    if n > 0 {
        lemma_children_of_elems(parents, p, n - 1);
        let prev = children_of(parents, p, n - 1);
        assert forall|c: usize| #[trigger] children_of(parents, p, n).contains(c) implies 0 <= c < n
            && parents[c as int] == Some(p as usize) by {
            if parents[n - 1] == Some(p as usize) {
                let r = prev.push((n - 1) as usize);
                assert(children_of(parents, p, n) == r);
                let k = choose|k: int| 0 <= k < r.len() && r[k] == c;
                if k < prev.len() {
                    assert(prev[k] == c);
                    assert(prev.contains(c));
                }
            } else {
                assert(children_of(parents, p, n) == prev);
            }
        }
    } else {
        assert forall|c: usize| #[trigger] children_of(parents, p, n).contains(c) implies 0 <= c < n
            && parents[c as int] == Some(p as usize) by {
            assert(children_of(parents, p, n).len() == 0);
        }
    }
}

fn copy_children(v: &Vec<usize>) -> (r: Vec<usize>)
    ensures
        r@ == v@,
{
    let mut out: Vec<usize> = Vec::with_capacity(v.len());
    let mut i: usize = 0;
    while i < v.len()
        invariant
            i <= v@.len(),
            out@ == v@.subrange(0, i as int),
        decreases v@.len() - i,
    {
        out.push(v[i]);
        assert(v@.subrange(0, i + 1) =~= v@.subrange(0, i as int).push(v@[i as int]));
        i += 1;
    }
    assert(v@.subrange(0, v@.len() as int) =~= v@);
    out
}

/// The first of the nodes `cs` that sits under field `name`.
pub open spec fn first_in_field(t: SyntaxTree, cs: Seq<usize>, name: Seq<u8>) -> Option<usize>
    decreases cs.len(),
{
    if cs.len() == 0 {
        None
    } else if opt_bytes(t.nodes@[cs[0] as int].field) == Some(name) {
        Some(cs[0])
    } else {
        first_in_field(t, cs.drop_first(), name)
    }
}

/// The `n`-th (0-based) of the nodes `cs` that sit under field `name`.
pub open spec fn nth_in_field(t: SyntaxTree, cs: Seq<usize>, name: Seq<u8>, n: nat) -> Option<
    usize,
>
    decreases cs.len(),
{
    if cs.len() == 0 {
        None
    } else if opt_bytes(t.nodes@[cs[0] as int].field) == Some(name) {
        if n == 0 {
            Some(cs[0])
        } else {
            nth_in_field(t, cs.drop_first(), name, (n - 1) as nat)
        }
    } else {
        nth_in_field(t, cs.drop_first(), name, n)
    }
}

/// The first named node among `cs`.
pub open spec fn first_named(t: SyntaxTree, cs: Seq<usize>) -> Option<usize>
    decreases cs.len(),
{
    if cs.len() == 0 {
        None
    } else if t.nodes@[cs[0] as int].named {
        Some(cs[0])
    } else {
        first_named(t, cs.drop_first())
    }
}

/// `Node::child_by_field_name`: the first child of `p` under field `name`.
pub open spec fn child_by_field(t: SyntaxTree, p: int, name: Seq<u8>) -> Option<usize> {
    first_in_field(t, t.nodes@[p].children@, name)
}

/// `Node::children_by_field_name(..).nth(n)`.
pub open spec fn nth_child_by_field(t: SyntaxTree, p: int, name: Seq<u8>, n: nat) -> Option<usize> {
    nth_in_field(t, t.nodes@[p].children@, name, n)
}

/// `Node::named_child(0)`.
pub open spec fn first_named_child(t: SyntaxTree, p: int) -> Option<usize> {
    first_named(t, t.nodes@[p].children@)
}

/// `Node::child(k)`.
pub open spec fn child_at(t: SyntaxTree, p: int, k: int) -> Option<usize> {
    if 0 <= k < t.nodes@[p].children@.len() {
        Some(t.nodes@[p].children@[k])
    } else {
        None
    }
}

/// The kind of node `i` is `kind`.
pub open spec fn kind_is(t: SyntaxTree, i: int, kind: Seq<u8>) -> bool {
    t.nodes@[i].kind@ == kind
}

/// The source text of node `i`, when its byte range lies in `src`.
pub open spec fn node_text(t: SyntaxTree, i: int, src: Seq<u8>) -> Option<Seq<u8>> {
    let n = t.nodes@[i];
    if n.start_byte <= n.end_byte && n.end_byte <= src.len() {
        Some(src.subrange(n.start_byte as int, n.end_byte as int))
    } else {
        None
    }
}

fn field_is(f: &Option<Vec<u8>>, name: &[u8]) -> (r: bool)
    ensures
        r == (opt_bytes(*f) == Some(name@)),
{
    match f {
        Some(v) => crate::text::bytes_eq(v.as_slice(), name),
        None => false,
    }
}

impl SyntaxTree {
    /// The first child of `p` under field `name`.
    pub fn child_by_field_name(&self, p: usize, name: &[u8]) -> (r: Option<usize>)
        requires
            self.wf(),
            p < self.nodes@.len(),
        ensures
            r == child_by_field(*self, p as int, name@),
            r matches Some(c) ==> p < c < self.nodes@.len(),
    {
        let cs = &self.nodes[p].children;
        let ghost all = cs@;
        assert(all.skip(0) =~= all);
        assert(self.nodes@[p as int].end <= self.nodes@.len());
        assert forall|j: int| 0 <= j < all.len() implies p < #[trigger] all[j] < self.nodes@.len() by {
            assert(self.nodes@[p as int].children@[j] < self.nodes@.len());
        }
        let mut k: usize = 0;
        while k < cs.len()
            invariant
                forall|j: int| 0 <= j < all.len() ==> p < #[trigger] all[j] < self.nodes@.len(),
                p < self.nodes@.len(),
                cs@ == all,
                all == self.nodes@[p as int].children@,
                k <= all.len(),
                first_in_field(*self, all, name@) == first_in_field(*self, all.skip(k as int), name@),
            decreases all.len() - k,
        {
            let c = cs[k];
            assert(all.skip(k as int)[0] == c);
            assert(all.skip(k as int).drop_first() =~= all.skip(k + 1));
            assert(all[k as int] < self.nodes@.len());
            if field_is(&self.nodes[c].field, name) {
                return Some(c);
            }
            k += 1;
        }
        assert(all.skip(k as int).len() == 0);
        None
    }

    /// The `n`-th child of `p` under field `name`.
    pub fn nth_child_by_field_name(&self, p: usize, name: &[u8], n: usize) -> (r: Option<usize>)
        requires
            self.wf(),
            p < self.nodes@.len(),
        ensures
            r == nth_child_by_field(*self, p as int, name@, n as nat),
            r matches Some(c) ==> p < c < self.nodes@.len(),
    {
        let cs = &self.nodes[p].children;
        let ghost all = cs@;
        assert(all.skip(0) =~= all);
        assert(self.nodes@[p as int].end <= self.nodes@.len());
        assert forall|j: int| 0 <= j < all.len() implies p < #[trigger] all[j] < self.nodes@.len() by {
            assert(self.nodes@[p as int].children@[j] < self.nodes@.len());
        }
        let mut k: usize = 0;
        let mut left = n;
        while k < cs.len()
            invariant
                forall|j: int| 0 <= j < all.len() ==> p < #[trigger] all[j] < self.nodes@.len(),
                p < self.nodes@.len(),
                cs@ == all,
                all == self.nodes@[p as int].children@,
                k <= all.len(),
                nth_in_field(*self, all, name@, n as nat) == nth_in_field(
                    *self,
                    all.skip(k as int),
                    name@,
                    left as nat,
                ),
            decreases all.len() - k,
        {
            let c = cs[k];
            assert(all.skip(k as int)[0] == c);
            assert(all.skip(k as int).drop_first() =~= all.skip(k + 1));
            assert(all[k as int] < self.nodes@.len());
            if field_is(&self.nodes[c].field, name) {
                if left == 0 {
                    return Some(c);
                }
                left -= 1;
            }
            k += 1;
        }
        assert(all.skip(k as int).len() == 0);
        None
    }

    /// The first named child of `p`.
    pub fn first_named_child(&self, p: usize) -> (r: Option<usize>)
        requires
            self.wf(),
            p < self.nodes@.len(),
        ensures
            r == first_named_child(*self, p as int),
            r matches Some(c) ==> p < c < self.nodes@.len(),
    {
        let cs = &self.nodes[p].children;
        let ghost all = cs@;
        assert(all.skip(0) =~= all);
        assert(self.nodes@[p as int].end <= self.nodes@.len());
        assert forall|j: int| 0 <= j < all.len() implies p < #[trigger] all[j] < self.nodes@.len() by {
            assert(self.nodes@[p as int].children@[j] < self.nodes@.len());
        }
        let mut k: usize = 0;
        while k < cs.len()
            invariant
                forall|j: int| 0 <= j < all.len() ==> p < #[trigger] all[j] < self.nodes@.len(),
                p < self.nodes@.len(),
                cs@ == all,
                all == self.nodes@[p as int].children@,
                k <= all.len(),
                first_named(*self, all) == first_named(*self, all.skip(k as int)),
            decreases all.len() - k,
        {
            let c = cs[k];
            assert(all.skip(k as int)[0] == c);
            assert(all.skip(k as int).drop_first() =~= all.skip(k + 1));
            assert(all[k as int] < self.nodes@.len());
            if self.nodes[c].named {
                return Some(c);
            }
            k += 1;
        }
        assert(all.skip(k as int).len() == 0);
        None
    }

    /// The `k`-th child of `p`.
    pub fn child(&self, p: usize, k: usize) -> (r: Option<usize>)
        requires
            self.wf(),
            p < self.nodes@.len(),
        ensures
            r == child_at(*self, p as int, k as int),
            r matches Some(c) ==> p < c < self.nodes@.len(),
    {
        if k < self.nodes[p].children.len() {
            Some(self.nodes[p].children[k])
        } else {
            None
        }
    }

    /// Is the kind of node `i` exactly `kind`?
    pub fn kind_is(&self, i: usize, kind: &[u8]) -> (r: bool)
        requires
            i < self.nodes@.len(),
        ensures
            r == kind_is(*self, i as int, kind@),
    {
        crate::text::bytes_eq(self.nodes[i].kind.as_slice(), kind)
    }

    /// The source text of node `i`.
    pub fn text<'a>(&self, i: usize, src: &'a [u8]) -> (r: Option<&'a [u8]>)
        requires
            i < self.nodes@.len(),
        ensures
            match r {
                Some(b) => node_text(*self, i as int, src@) == Some(b@),
                None => node_text(*self, i as int, src@) is None,
            },
    {
        let n = &self.nodes[i];
        if n.start_byte <= n.end_byte && n.end_byte <= src.len() {
            Some(crate::walk::slice_range(src, n.start_byte, n.end_byte))
        } else {
            None
        }
    }
}

/// What tree-sitter reports of one node, as plain values (its number in
/// pre-order aside).
pub struct NodeView {
    pub kind: Seq<u8>,
    pub kind_id: u16,
    pub named: bool,
    pub field: Option<Seq<u8>>,
    pub depth: u32,
    pub start_byte: usize,
    pub end_byte: usize,
    pub start_row: usize,
    pub end_row: usize,
}

impl View for NodeInfo {
    type V = NodeView;

    open spec fn view(&self) -> NodeView {
        NodeView {
            kind: self.kind@,
            kind_id: self.kind_id,
            named: self.named,
            field: opt_bytes(self.field),
            depth: self.depth,
            start_byte: self.start_byte,
            end_byte: self.end_byte,
            start_row: self.start_row,
            end_row: self.end_row,
        }
    }
}

/// A tree tree-sitter parsed, kept with the language and the text it was
/// parsed from: only `ts_parse` builds one.
pub struct SourceTree {
    tree: tree_sitter::Tree,
    lang: Lang,
    text: Vec<u8>,
}

impl View for SourceTree {
    type V = (Lang, Seq<u8>);

    closed spec fn view(&self) -> (Lang, Seq<u8>) {
        (self.lang, self.text@)
    }
}

/// Whether tree-sitter parses `src` with `lang`'s grammar.
pub uninterp spec fn parses(lang: Lang, src: Seq<u8>) -> bool;

/// The number of nodes of the tree tree-sitter parses from `src` with
/// `lang`'s grammar, the root included.
pub uninterp spec fn node_count_of(lang: Lang, src: Seq<u8>) -> usize;

/// Node `index` in pre-order of the tree tree-sitter parses from `src`
/// with `lang`'s grammar.
pub uninterp spec fn node_at_of(lang: Lang, src: Seq<u8>, index: usize) -> NodeView;

/// The matches of query `source` (compiled for `lang`) over the tree of
/// `src`, in the order tree-sitter yields them: each as its captures, each
/// capture as its capture index and its node's byte range and kind id.
pub uninterp spec fn matches_of(lang: Lang, source: Seq<char>, src: Seq<u8>) -> Seq<
    Seq<(u32, usize, usize, u16)>,
>;

/// `tree_sitter::Parser::new`, `Parser::set_language` with the grammar and
/// `Parser::parse` of `src` from scratch (no old tree, no timeout or
/// cancellation set): `None` when the grammar is refused or the parse is
/// given up. A parse is a function of the grammar and the text, so its
/// outcome is named; the tree is kept with both.
#[verifier::external_body]
fn ts_parse(g: &Grammar, src: &[u8]) -> (r: Option<SourceTree>)
    ensures
        r is Some <==> parses(g@, src@),
        r matches Some(p) ==> p@ == (g@, src@),
{
    let mut parser = tree_sitter::Parser::new();
    if parser.set_language(&g.language).is_err() {
        return None;
    }
    let tree = parser.parse(src, None)?;
    Some(SourceTree { tree, lang: g.lang, text: src.to_vec() })
}

/// `Node::descendant_count` of the root: the number of nodes of the tree,
/// the root included.
#[verifier::external_body]
fn ts_node_count(p: &SourceTree) -> (r: usize)
    ensures
        r == node_count_of(p@.0, p@.1),
{
    p.tree.root_node().descendant_count()
}

/// `TreeCursor::goto_descendant(index)` on a cursor at the root, which
/// numbers the nodes in pre-order, then the node's `kind`, `kind_id`,
/// `is_named`, byte range and rows, and the cursor's `field_name` and
/// `depth`. The node is numbered by `index` (tree-sitter's own node id is
/// an address and is not used).
#[verifier::external_body]
fn ts_node_at(p: &SourceTree, index: usize) -> (r: NodeInfo)
    ensures
        r@ == node_at_of(p@.0, p@.1, index),
        r.id == index,
{
    let mut c = p.tree.walk();
    c.goto_descendant(index);
    let n = c.node();
    NodeInfo {
        id: index,
        kind: n.kind().as_bytes().to_vec(),
        kind_id: n.kind_id(),
        named: n.is_named(),
        field: c.field_name().map(|f| f.as_bytes().to_vec()),
        depth: c.depth(),
        start_byte: n.start_byte(),
        end_byte: n.end_byte(),
        start_row: n.start_position().row,
        end_row: n.end_position().row,
    }
}

/// `QueryCursor::matches` of the query over the whole tree, with the text
/// the tree was parsed from as the text the query's predicates read (so
/// every node's range lies in it): each match, in the order tree-sitter
/// yields them, as its captures in order, each capture as its capture
/// index and its node's byte range and kind id. The query and the tree
/// are of one language.
#[verifier::external_body]
pub(crate) fn ts_query_matches(q: &CompiledQuery, p: &SourceTree) -> (r: Vec<
    Vec<(u32, usize, usize, u16)>,
>)
    requires
        q@.0 == p@.0,
    ensures
        r@.map_values(|m: Vec<(u32, usize, usize, u16)>| m@) == matches_of(q@.0, q@.1, p@.1),
{
    let mut cursor = tree_sitter::QueryCursor::new();
    let mut matches = cursor.matches(&q.query, p.tree.root_node(), p.text.as_slice());
    let mut out = Vec::new();
    while let Some(m) = matches.next() {
        let mut caps = Vec::new();
        for c in m.captures() {
            caps.push((c.index, c.node.start_byte(), c.node.end_byte(), c.node.kind_id()));
        }
        out.push(caps);
    }
    out
}

/// A parsed file: tree-sitter's tree (with its language and text), and the
/// same tree as plain values.
pub struct ParsedFile {
    pub source: SourceTree,
    pub syntax: SyntaxTree,
}

/// The nodes tree-sitter reports for `src`, in pre-order.
pub open spec fn parsed_nodes(lang: Lang, src: Seq<u8>) -> Seq<NodeView> {
    Seq::new(node_count_of(lang, src) as nat, |i: int| node_at_of(lang, src, i as usize))
}

/// `src` parses, and its nodes' depths are those of a pre-order walk.
pub open spec fn parse_ok(lang: Lang, src: Seq<u8>) -> bool {
    &&& parses(lang, src)
    &&& node_count_of(lang, src) < usize::MAX
    &&& valid_depths(parsed_nodes(lang, src).map_values(|v: NodeView| v.depth))
}

/// Node `n` carries what tree-sitter reported as `v`.
pub open spec fn node_is_view(n: SyntaxNode, v: NodeView) -> bool {
    &&& n.kind@ == v.kind
    &&& n.kind_id == v.kind_id
    &&& n.named == v.named
    &&& opt_bytes(n.field) == v.field
    &&& n.depth == v.depth
    &&& n.start_byte == v.start_byte
    &&& n.end_byte == v.end_byte
    &&& n.start_row == v.start_row
    &&& n.end_row == v.end_row
}

/// `t` is the tree tree-sitter parses from `src` with `lang`'s grammar,
/// its nodes numbered in pre-order.
pub open spec fn is_parse_of(t: SyntaxTree, lang: Lang, src: Seq<u8>) -> bool {
    &&& t.wf()
    &&& t.nodes@.len() == node_count_of(lang, src)
    &&& forall|i: int|
        0 <= i < t.nodes@.len() ==> node_is_view(#[trigger] t.nodes@[i], parsed_nodes(lang, src)[i])
            && t.nodes@[i].id == i
}

/// Parses `src` with the grammar and reads the tree into a `SyntaxTree`;
/// `None` exactly when tree-sitter gives no tree, or reports nodes that are
/// not a pre-order walk of one tree.
pub fn parse_file(g: &Grammar, src: &[u8]) -> (r: Option<ParsedFile>)
    ensures
        r is Some <==> parse_ok(g@, src@),
        r matches Some(p) ==> p.source@ == (g@, src@) && is_parse_of(p.syntax, g@, src@),
{
    let source = match ts_parse(g, src) {
        Some(t) => t,
        None => return None,
    };
    let n = ts_node_count(&source);
    if n >= usize::MAX {
        return None;
    }
    let ghost lang = g@;
    let ghost text = src@;
    let mut infos: Vec<NodeInfo> = Vec::with_capacity(n);
    let mut i: usize = 0;
    while i < n
        invariant
            i <= n < usize::MAX,
            n == node_count_of(lang, text),
            source@ == (lang, text),
            infos@.len() == i,
            forall|j: int|
                0 <= j < i ==> (#[trigger] infos@[j])@ == node_at_of(lang, text, j as usize)
                    && infos@[j].id == j,
        decreases n - i,
    {
        infos.push(ts_node_at(&source, i));
        i += 1;
    }
    assert(info_depths(infos@) =~= parsed_nodes(lang, text).map_values(|v: NodeView| v.depth));
    match build_tree(&infos) {
        Some(syntax) => {
            assert forall|k: int| 0 <= k < syntax.nodes@.len() implies node_is_view(
                #[trigger] syntax.nodes@[k],
                parsed_nodes(lang, text)[k],
            ) && syntax.nodes@[k].id == k by {
                assert(node_matches_info(syntax.nodes@[k], infos@[k]));
                assert(infos@[k]@ == node_at_of(lang, text, k as usize));
            }
            Some(ParsedFile { source, syntax })
        },
        None => None,
    }
}

} // verus!
