//! Disjoint sets over `0..n` with path compression, and the connectivity
//! relation that a sequence of merges produces.

use vstd::prelude::*;

verus! {

/// The element reached from `x` after following `k` parent links.
pub open spec fn hop(p: Seq<u32>, x: u32, k: nat) -> u32
    decreases k,
{
    if k == 0 {
        x
    } else {
        p[hop(p, x, (k - 1) as nat) as int]
    }
}

/// Whether `y` lies on the parent path from `x` up to, and not including,
/// the root `r`.
pub open spec fn on_path(p: Seq<u32>, x: u32, r: u32, y: u32) -> bool {
    y != r && exists|k: nat| hop(p, x, k) == y
}

/// Once the path from `x` reaches `r` at step `k`, and `r` is its own
/// parent, every later step stays at `r`.
proof fn lemma_hop_stays(p: Seq<u32>, x: u32, r: u32, k: nat, j: nat)
    requires
        hop(p, x, k) == r,
        0 <= r < p.len(),
        p[r as int] == r,
        k <= j,
    ensures
        hop(p, x, j) == r,
    decreases j - k,
{
    if j > k {
        lemma_hop_stays(p, x, r, k, (j - 1) as nat);
    }
}

/// Following parent links from `x` eventually arrives at `r`.
pub open spec fn reaches(p: Seq<u32>, x: u32, r: u32) -> bool {
    exists|k: nat| hop(p, x, k) == r
}

/// One link and then `k` more is `k + 1` links.
proof fn lemma_hop_shift(p: Seq<u32>, x: u32, k: nat)
    ensures
        hop(p, x, k + 1) == hop(p, p[x as int], k),
    decreases k,
{
    assert(hop(p, x, 0) == x);
    assert(hop(p, x, k + 1) == p[hop(p, x, k) as int]);
    if k > 0 {
        lemma_hop_shift(p, x, (k - 1) as nat);
        assert(hop(p, p[x as int], k) == p[hop(p, p[x as int], (k - 1) as nat) as int]);
    } else {
        assert(hop(p, p[x as int], 0) == p[x as int]);
    }
}

/// Union-find over the elements `0..n`. Its abstract value is, for every
/// element, the representative of its set.
pub struct UnionFind {
    parent: Vec<u32>,
    root_of: Ghost<Seq<u32>>,
    level: Ghost<Seq<nat>>,
}

impl UnionFind {
    /// The representative of each element's set.
    pub closed spec fn roots(&self) -> Seq<u32> {
        self.root_of@
    }

    pub closed spec fn wf(&self) -> bool {
        let n = self.parent@.len();
        let p = self.parent@;
        let r = self.root_of@;
        let lv = self.level@;
        &&& r.len() == n
        &&& lv.len() == n
        &&& n <= u32::MAX + 1
        &&& forall|x: int|
            #![trigger p[x]]
            0 <= x < n ==> {
                &&& p[x] < n
                &&& r[x] < n
                &&& p[r[x] as int] == r[x]
                &&& (p[x] == x ==> r[x] == x)
                &&& r[p[x] as int] == r[x]
                &&& (p[x] != x ==> lv[p[x] as int] > lv[x])
                &&& lv[r[x] as int] >= lv[x]
            }
    }

    /// Each element's parent link.
    pub closed spec fn parents(&self) -> Seq<u32> {
        self.parent@
    }

    /// The number of elements.
    pub closed spec fn size(&self) -> nat {
        self.parent@.len()
    }

    pub proof fn lemma_roots(&self)
        requires
            self.wf(),
        ensures
            self.roots().len() == self.size(),
            forall|x: int| 0 <= x < self.size() ==> #[trigger] self.roots()[x] < self.size(),
            forall|x: int|
                0 <= x < self.size() ==> self.roots()[#[trigger] self.roots()[x] as int]
                    == self.roots()[x],
    {
        assert forall|x: int| 0 <= x < self.size() implies self.roots()[#[trigger] self.roots()[x] as int]
            == self.roots()[x] by {
            assert(self.parent@[x] < self.size());
            let rx = self.root_of@[x];
            assert(self.parent@[rx as int] == rx);
        }
        assert forall|x: int| 0 <= x < self.size() implies #[trigger] self.roots()[x] < self.size() by {
            assert(self.parent@[x] < self.size());
        }
    }

    /// Following parent links never leaves the elements and always reaches
    /// the representative, which is its own parent: so, after `new` and
    /// any sequence of `find` and `union` calls (each keeps `wf`), every
    /// link is in bounds and no walk to a root goes on forever.
    pub proof fn law_parents_reach_roots(&self)
        requires
            self.wf(),
        ensures
            self.parents().len() == self.size(),
            forall|x: int| 0 <= x < self.size() ==> #[trigger] self.parents()[x] < self.size(),
            forall|x: int|
                0 <= x < self.size() ==> self.parents()[#[trigger] self.roots()[x] as int]
                    == self.roots()[x],
            forall|x: int|
                0 <= x < self.size() ==> reaches(self.parents(), x as u32, #[trigger] self.roots()[x]),
    {
        assert forall|x: int|
            0 <= x < self.size() implies reaches(self.parents(), x as u32, #[trigger] self.roots()[x]) by {
            assert((x as u32) as int == x);
            self.lemma_reaches_root(x as u32);
        }
        assert forall|x: int| 0 <= x < self.size() implies self.parents()[#[trigger] self.roots()[x] as int]
            == self.roots()[x] by {
            assert(self.parent@[x] < self.size());
        }
        assert forall|x: int| 0 <= x < self.size() implies #[trigger] self.parents()[x] < self.size() by {
            assert(self.parent@[x] < self.size());
        }
    }

    proof fn lemma_reaches_root(&self, x: u32)
        requires
            self.wf(),
            x < self.size(),
        ensures
            reaches(self.parents(), x, self.roots()[x as int]),
        decreases self.level@[self.root_of@[x as int] as int] - self.level@[x as int],
    {
        let p = self.parent@;
        assert(p[x as int] < self.size());
        if p[x as int] == x {
            assert(hop(p, x, 0) == x);
            assert(self.roots()[x as int] == x);
            assert(hop(self.parents(), x, 0) == self.roots()[x as int]);
        } else {
            let y = p[x as int];
            assert(p[y as int] < self.size());
            self.lemma_reaches_root(y);
            assert(self.parents() == p);
            let k = choose|k: nat| hop(p, y, k) == self.roots()[y as int];
            lemma_hop_shift(p, x, k);
            assert(self.root_of@[y as int] == self.root_of@[x as int]);
            assert(hop(self.parents(), x, k + 1) == self.roots()[x as int]);
        }
    }

    /// `n` singleton sets.
    pub fn new(n: usize) -> (uf: UnionFind)
        requires
            n <= u32::MAX + 1,
        ensures
            uf.wf(),
            uf.size() == n,
            forall|x: int| 0 <= x < n ==> #[trigger] uf.roots()[x] == x,
            uf.parents() == Seq::new(n as nat, |i: int| i as u32),
    {
        let mut parent: Vec<u32> = Vec::with_capacity(n);
        let mut i: usize = 0;
        while i < n
            invariant
                i <= n <= u32::MAX + 1,
                parent@.len() == i,
                forall|x: int| 0 <= x < i ==> #[trigger] parent@[x] == x,
            decreases n - i,
        {
            parent.push(i as u32);
            i += 1;
        }
        let ghost r = parent@;
        let ghost lv = Seq::new(n as nat, |x: int| 0nat);
        let uf = UnionFind { parent, root_of: Ghost(r), level: Ghost(lv) };
        assert forall|x: int| #![trigger uf.parent@[x]] 0 <= x < n implies {
            &&& uf.parent@[x] < n
            &&& r[x] < n
            &&& uf.parent@[r[x] as int] == r[x]
            &&& (uf.parent@[x] == x ==> r[x] == x)
            &&& r[uf.parent@[x] as int] == r[x]
            &&& (uf.parent@[x] != x ==> lv[uf.parent@[x] as int] > lv[x])
            &&& lv[r[x] as int] >= lv[x]
        } by {
            assert(r[x] == x);
        }
        assert(uf.parents() =~= Seq::new(n as nat, |i: int| i as u32));
        uf
    }

    /// The representative of `x`'s set; compresses the path from `x` on the
    /// way, which changes no set: each element on that path now links
    /// straight to the representative, and no other link changes.
    pub fn find(&mut self, x: u32) -> (root: u32)
        requires
            old(self).wf(),
            x < old(self).size(),
        ensures
            final(self).wf(),
            final(self).size() == old(self).size(),
            final(self).roots() == old(self).roots(),
            root == old(self).roots()[x as int],
            final(self).parents().len() == old(self).parents().len(),
            final(self).parents()[root as int] == root,
            forall|y: int|
                0 <= y < old(self).size() ==> #[trigger] final(self).parents()[y] == if on_path(
                    old(self).parents(),
                    x,
                    root,
                    y as u32,
                ) {
                    root
                } else {
                    old(self).parents()[y]
                },
    {
        let ghost r = self.root_of@;
        let ghost lv = self.level@;
        let ghost n = self.parent@.len();
        let ghost op = self.parent@;
        let mut root = x;
        assert(self.parent@[x as int] < n);
        while self.parent[root as usize] != root
            invariant
                self.wf(),
                self.root_of@ == r,
                self.level@ == lv,
                self.parent@ == op,
                self.parent@.len() == n,
                x < n,
                root < n,
                r[root as int] == r[x as int],
            decreases lv[r[x as int] as int] - lv[root as int],
        {
            assert(self.parent@[root as int] < n);
            root = self.parent[root as usize];
            assert(self.parent@[root as int] < n);
        }
        assert(self.parent@[root as int] < n);
        assert(root == r[x as int]);
        assert forall|y: int| #![trigger op[y]] 0 <= y < n implies {
            &&& op[y] < n
            &&& r[y] < n
            &&& op[r[y] as int] == r[y]
            &&& (op[y] == y ==> r[y] == y)
            &&& r[op[y] as int] == r[y]
            &&& (op[y] != y ==> lv[op[y] as int] > lv[y])
        } by {}
        let mut cur = x;
        let ghost mut k: nat = 0;
        let ghost mut path: Seq<u32> = Seq::empty();
        while self.parent[cur as usize] != root
            invariant
                self.wf(),
                self.root_of@ == r,
                self.level@ == lv,
                self.parent@.len() == n,
                op.len() == n,
                forall|y: int| #![trigger op[y]] 0 <= y < n ==> {
                    &&& op[y] < n
                    &&& r[y] < n
                    &&& op[r[y] as int] == r[y]
                    &&& (op[y] == y ==> r[y] == y)
                    &&& r[op[y] as int] == r[y]
                    &&& (op[y] != y ==> lv[op[y] as int] > lv[y])
                },
                x < n,
                cur < n,
                root < n,
                root == r[x as int],
                r[cur as int] == root,
                cur == hop(op, x, k),
                path.len() == k,
                forall|j: int| #![trigger path[j]] 0 <= j < k ==> {
                    &&& path[j] == hop(op, x, j as nat)
                    &&& path[j] != root
                    &&& lv[path[j] as int] < lv[cur as int]
                },
                forall|y: int|
                    0 <= y < n ==> #[trigger] self.parent@[y] == if path.contains(y as u32) {
                        root
                    } else {
                        op[y]
                    },
            decreases lv[root as int] - lv[cur as int],
        {
            assert(!path.contains(cur)) by {
                if path.contains(cur) {
                    let j = choose|j: int| 0 <= j < path.len() && path[j] == cur;
                    assert(lv[path[j] as int] < lv[cur as int]);
                }
            }
            assert(self.parent@[cur as int] == op[cur as int]);
            assert(op[cur as int] < n);
            let next = self.parent[cur as usize];
            assert(cur != root) by {
                assert(!path.contains(root)) by {
                    if path.contains(root) {
                        let j = choose|j: int| 0 <= j < path.len() && path[j] == root;
                        assert(path[j] != root);
                    }
                }
                assert(self.parent@[root as int] == op[root as int]);
                assert(op[r[x as int] as int] == r[x as int]);
            }
            assert(op[cur as int] != cur) by {
                if op[cur as int] == cur {
                    assert(r[cur as int] == cur);
                }
            }
            assert(next < n);
            let ghost old_p = self.parent@;
            self.parent.set(cur as usize, root);
            proof {
                let new_path = path.push(cur);
                assert forall|y: int| 0 <= y < n implies #[trigger] self.parent@[y] == if new_path.contains(
                    y as u32,
                ) {
                    root
                } else {
                    op[y]
                } by {
                    if y == cur {
                        assert(new_path[k as int] == cur);
                    } else {
                        assert(old_p[y] == self.parent@[y]);
                        if path.contains(y as u32) {
                            let j = choose|j: int| 0 <= j < path.len() && path[j] == y as u32;
                            assert(new_path[j] == y as u32);
                        }
                        if new_path.contains(y as u32) {
                            let j = choose|j: int| 0 <= j < new_path.len() && new_path[j] == y as u32;
                            assert(j < k);
                            assert(path[j] == y as u32);
                        }
                    }
                }
                assert forall|yy: int| #![trigger self.parent@[yy]] 0 <= yy < n implies {
                    &&& self.parent@[yy] < n
                    &&& r[yy] < n
                    &&& self.parent@[r[yy] as int] == r[yy]
                    &&& (self.parent@[yy] == yy ==> r[yy] == yy)
                    &&& r[self.parent@[yy] as int] == r[yy]
                    &&& (self.parent@[yy] != yy ==> lv[self.parent@[yy] as int] > lv[yy])
                    &&& lv[r[yy] as int] >= lv[yy]
                } by {
                    assert(old_p[yy] < n);
                    assert(old_p[r[yy] as int] == r[yy]);
                    assert(old_p[root as int] == root);
                    if yy == cur {
                        assert(old_p[cur as int] != cur);
                        assert(lv[old_p[cur as int] as int] > lv[cur as int]);
                        assert(old_p[old_p[cur as int] as int] < n);
                    }
                }
                assert(lv[next as int] > lv[cur as int]);
                assert forall|j: int| #![trigger new_path[j]] 0 <= j < k + 1 implies {
                    &&& new_path[j] == hop(op, x, j as nat)
                    &&& new_path[j] != root
                    &&& lv[new_path[j] as int] < lv[next as int]
                } by {
                    if j < k {
                        assert(new_path[j] == path[j]);
                    }
                }
                assert(hop(op, x, k + 1) == op[hop(op, x, k) as int]);
                path = new_path;
                k = k + 1;
            }
            cur = next;
        }
        proof {
            assert(!path.contains(cur)) by {
                if path.contains(cur) {
                    let j = choose|j: int| 0 <= j < path.len() && path[j] == cur;
                    assert(lv[path[j] as int] < lv[cur as int]);
                }
            }
            assert(self.parent@[cur as int] == op[cur as int]);
            assert(op[cur as int] == root);
            assert(op[root as int] == root) by {
                assert(op[r[x as int] as int] == r[x as int]);
            }
            assert(hop(op, x, k + 1) == root);
            assert forall|y: int|
                0 <= y < n implies #[trigger] self.parent@[y] == if on_path(op, x, root, y as u32) {
                root
            } else {
                op[y]
            } by {
                if path.contains(y as u32) {
                    let j = choose|j: int| 0 <= j < path.len() && path[j] == y as u32;
                    assert(hop(op, x, j as nat) == y as u32);
                    assert(on_path(op, x, root, y as u32));
                } else if on_path(op, x, root, y as u32) {
                    let j = choose|j: nat| hop(op, x, j) == y as u32;
                    if j < k {
                        assert(path[j as int] == y as u32);
                    } else if j == k {
                        assert(y == cur);
                    } else {
                        lemma_hop_stays(op, x, root, k + 1, j);
                    }
                }
            }
        }
        root
    }

    /// Merges the sets of `a` and `b`.
    pub fn union(&mut self, a: u32, b: u32)
        requires
            old(self).wf(),
            a < old(self).size(),
            b < old(self).size(),
        ensures
            final(self).wf(),
            final(self).size() == old(self).size(),
            forall|x: int, y: int|
                0 <= x < old(self).size() && 0 <= y < old(self).size() ==> (final(self).roots()[x]
                    == final(self).roots()[y] <==> {
                    ||| old(self).roots()[x] == old(self).roots()[y]
                    ||| old(self).roots()[x] == old(self).roots()[a as int] && old(self).roots()[y]
                        == old(self).roots()[b as int]
                    ||| old(self).roots()[x] == old(self).roots()[b as int] && old(self).roots()[y]
                        == old(self).roots()[a as int]
                }),
    {
        let ra = self.find(a);
        let rb = self.find(b);
        if ra != rb {
            let ghost n = self.parent@.len();
            let ghost r = self.root_of@;
            let ghost lv = self.level@;
            let ghost old_p = self.parent@;
            assert(old_p[a as int] < n && old_p[b as int] < n);
            assert(old_p[ra as int] < n && old_p[rb as int] < n);
            assert(old_p[ra as int] == ra && old_p[rb as int] == rb);
            self.parent.set(ra as usize, rb);
            let ghost r2 = Seq::new(n, |z: int| if r[z] == ra { rb } else { r[z] });
            let ghost top = if lv[rb as int] > lv[ra as int] { lv[rb as int] } else { lv[ra as int] + 1 };
            let ghost lv2 = lv.update(rb as int, top);
            self.root_of = Ghost(r2);
            self.level = Ghost(lv2);
            assert forall|y: int| #![trigger self.parent@[y]] 0 <= y < n implies {
                &&& self.parent@[y] < n
                &&& r2[y] < n
                &&& self.parent@[r2[y] as int] == r2[y]
                &&& (self.parent@[y] == y ==> r2[y] == y)
                &&& r2[self.parent@[y] as int] == r2[y]
                &&& (self.parent@[y] != y ==> lv2[self.parent@[y] as int] > lv2[y])
                &&& lv2[r2[y] as int] >= lv2[y]
            } by {
                assert(old_p[y] < n);
                assert(old_p[r[y] as int] == r[y]);
                assert(r[old_p[y] as int] == r[y]);
                assert(old_p[r[y] as int] < n);
                if y == ra {
                    assert(r[ra as int] == ra);
                } else if y == rb {
                    assert(r[rb as int] == rb);
                } else {
                    assert(old_p[y] != ra || r[y] == ra);
                }
            }
            assert forall|x: int, y: int|
                0 <= x < n && 0 <= y < n implies (r2[x] == r2[y] <==> {
                ||| r[x] == r[y]
                ||| r[x] == r[a as int] && r[y] == r[b as int]
                ||| r[x] == r[b as int] && r[y] == r[a as int]
            }) by {
                assert(old_p[x] < n && old_p[y] < n);
                assert(old_p[r[x] as int] == r[x]);
                assert(old_p[r[y] as int] == r[y]);
                if r[x] != ra && r[y] == rb {
                    assert(r[x] != r[y] || r[x] == rb);
                }
            }
        }
    }
}

} // verus!
