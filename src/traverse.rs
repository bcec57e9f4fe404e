//! Lazy multi-source breadth-first traversal over the adjacency store.
use std::hash::BuildHasherDefault;
use std::hash::Hash;

use indexmap::IndexSet;
use rustc_hash::FxHasher;
use vstd::prelude::*;

use crate::data::{block, Data};
use crate::model::{is_descendants, lemma_walk_back, lemma_walk_root, lemma_walk_step, walk};
use crate::seen::{seen_get, seen_insert, seen_new, seen_order};

verus! {

/// The label of node `id`.
pub open spec fn lab<T>(d: &Data<T>, id: u32) -> T {
    d.labels()[id]
}

/// `x` is visited, at depth at most `bound`.
pub open spec fn near(s: Seq<u32>, depths: Seq<usize>, x: u32, bound: int) -> bool {
    exists|t: int| 0 <= t < s.len() && s[t] == x && depths[t] <= bound
}

/// Every child of every node of `s` is in `s`, at most one level deeper.
pub open spec fn expanded<T>(d: &Data<T>, s: Seq<u32>, depths: Seq<usize>) -> bool {
    forall|i: int, j: int| #![trigger d.kids(s[i])[j]]
        0 <= i < s.len() && 0 <= j < d.kids(s[i]).len() ==> near(s, depths, d.kids(s[i])[j], depths[i] + 1)
}

/// `s` with later repeats removed, first occurrences kept in order.
pub open spec fn dedup(s: Seq<u32>) -> Seq<u32>
    decreases s.len(),
{
    if s.len() == 0 {
        s
    } else {
        let r = dedup(s.drop_last());
        if r.contains(s.last()) { r } else { r.push(s.last()) }
    }
}

/// The identifiers of the labels of `nodes` that are nodes, in order.
pub open spec fn known_ids<T>(d: &Data<T>, nodes: Seq<T>) -> Seq<u32>
    decreases nodes.len(),
{
    if nodes.len() == 0 {
        Seq::empty()
    } else {
        let r = known_ids(d, nodes.drop_last());
        if d.ids().contains_key(nodes.last()) { r.push(d.ids()[nodes.last()]) } else { r }
    }
}

/// Reads `kids` in order from the visited nodes `s` with depths `ds`: each
/// one not visited yet is appended at depth `dep`.
pub open spec fn visit_all(s: Seq<u32>, ds: Seq<usize>, kids: Seq<u32>, dep: usize) -> (Seq<u32>, Seq<usize>)
    decreases kids.len(),
{
    if kids.len() == 0 {
        (s, ds)
    } else if s.contains(kids[0]) {
        visit_all(s, ds, kids.drop_first(), dep)
    } else {
        visit_all(s.push(kids[0]), ds.push(dep), kids.drop_first(), dep)
    }
}

/// Expands the visited nodes from position `idx` on, in the order they were
/// visited, until every visited node is expanded.
#[verifier::opaque]
pub open spec fn run<T>(d: &Data<T>, s: Seq<u32>, ds: Seq<usize>, idx: int) -> (Seq<u32>, Seq<usize>)
    decreases d.store().len() - idx,
{
    if idx < 0 || idx >= s.len() || idx >= d.store().len() {
        (s, ds)
    } else {
        let w = visit_all(s, ds, d.kids(s[idx]), (ds[idx] + 1) as usize);
        run(d, w.0, w.1, idx + 1)
    }
}

proof fn lemma_run_step<T>(d: &Data<T>, s: Seq<u32>, ds: Seq<usize>, idx: int)
    requires
        0 <= idx < s.len(),
        idx < d.store().len(),
    ensures
        run(d, s, ds, idx) == run(
            d,
            visit_all(s, ds, d.kids(s[idx]), (ds[idx] + 1) as usize).0,
            visit_all(s, ds, d.kids(s[idx]), (ds[idx] + 1) as usize).1,
            idx + 1,
        ),
{
    reveal(run);
}

proof fn lemma_run_done<T>(d: &Data<T>, s: Seq<u32>, ds: Seq<usize>, idx: int)
    requires
        idx >= s.len(),
    ensures
        run(d, s, ds, idx) == (s, ds),
{
    reveal(run);
}

/// `n` depths of 0.
pub open spec fn zeros(n: nat) -> Seq<usize> {
    Seq::new(n, |i: int| 0usize)
}

/// The start identifiers, once each, at depth 0.
pub open spec fn seeds<T>(d: &Data<T>, nodes: Seq<T>) -> Seq<u32> {
    dedup(known_ids(d, nodes))
}

/// The visited identifiers and their depths when the traversal from
/// `nodes` ends.
pub open spec fn bfs_run<T>(d: &Data<T>, nodes: Seq<T>) -> (Seq<u32>, Seq<usize>) {
    run(d, seeds(d, nodes), zeros(seeds(d, nodes).len()), 0)
}

/// The breadth-first sequence from `nodes`: every visited node but the
/// start nodes, in visiting order, as `(depth, label)`.
pub open spec fn bfs_seq<T>(d: &Data<T>, nodes: Seq<T>) -> Seq<(usize, T)> {
    let n = seeds(d, nodes).len();
    let f = bfs_run(d, nodes);
    Seq::new((f.0.len() - n) as nat, |k: int| (f.1[n + k], lab(d, f.0[n + k])))
}

/// The traversal state: the visited identifiers in discovery order (which
/// is also the frontier queue), the depth of each, the position of the node
/// being expanded, and the unread window of its children block.
pub struct LazyBfs {
    seen: IndexSet<u32, BuildHasherDefault<FxHasher>>,
    depths: Vec<usize>,
    n_roots: usize,
    idx: usize,
    children_idx: usize,
    children_idx_max: usize,
}

impl LazyBfs {
    pub closed spec fn order(&self) -> Seq<u32> {
        seen_order(self.seen)
    }

    pub closed spec fn depth_seq(&self) -> Seq<usize> {
        self.depths@
    }

    pub closed spec fn root_count(&self) -> nat {
        self.n_roots as nat
    }

    /// The position after the node being expanded.
    pub closed spec fn cursor(&self) -> int {
        self.idx as int
    }

    /// The unread window of the current children block.
    pub closed spec fn window(&self) -> (int, int) {
        (self.children_idx as int, self.children_idx_max as int)
    }

    /// What the traversal will have visited, with depths, once it ends.
    pub closed spec fn future<T>(&self, d: &Data<T>) -> (Seq<u32>, Seq<usize>) {
        let s = seen_order(self.seen);
        if self.idx == 0 {
            run(d, s, self.depths@, 0)
        } else {
            let w = visit_all(s, self.depths@, d.store().subrange(self.children_idx as int, self.children_idx_max as int),
                (self.depths@[self.idx - 1] + 1) as usize);
            run(d, w.0, w.1, self.idx as int)
        }
    }

    /// The visited identifiers, their depths, and what was seeded.
    pub closed spec fn inv<T>(&self, d: &Data<T>, roots: Set<T>) -> bool {
        let s = seen_order(self.seen);
        let p = s[self.idx - 1];
        &&& d.wf()
        &&& s.no_duplicates()
        &&& forall|i: int| 0 <= i < s.len() ==> d.labels().contains_key(#[trigger] s[i])
        &&& self.depths@.len() == s.len()
        &&& self.n_roots <= s.len()
        &&& forall|i: int| 0 <= i < self.n_roots ==> #[trigger] self.depths@[i] == 0
        &&& forall|i: int| 0 <= i < self.n_roots ==> roots.contains(#[trigger] lab(d, s[i]))
        &&& forall|l: T| roots.contains(l) && #[trigger] d.ids().contains_key(l) ==> s.take(self.n_roots as int).contains(d.ids()[l])
        &&& forall|i: int| #![trigger s[i]] 0 <= i < s.len() ==> walk(d@, roots, lab(d, s[i]), self.depths@[i] as nat) && self.depths@[i] <= i
        &&& forall|i: int| self.n_roots <= i < s.len() ==> #[trigger] self.depths@[i] >= 1
        &&& forall|i: int, j: int| 0 <= i <= j < s.len() ==> #[trigger] self.depths@[i] <= #[trigger] self.depths@[j]
        &&& self.idx <= s.len()
        &&& self.idx == 0 ==> self.children_idx == self.children_idx_max && s.len() == self.n_roots
        &&& self.idx > 0 ==> forall|j: int| 0 <= j < s.len() ==> #[trigger] self.depths@[j] <= self.depths@[self.idx - 1] + 1
        &&& self.idx > 0 ==> {
            &&& p + 1 <= self.children_idx <= self.children_idx_max
            &&& self.children_idx_max == p + 1 + d.store()[p as int]
            &&& forall|j: int| 0 <= j < self.children_idx - p - 1 ==> near(s, self.depths@, #[trigger] d.kids(p)[j], self.depths@[self.idx - 1] + 1)
        }
        &&& forall|i: int, j: int| #![trigger d.kids(s[i])[j]]
            0 <= i < self.idx - 1 && 0 <= j < d.kids(s[i]).len() ==> near(s, self.depths@, d.kids(s[i])[j], self.depths@[i] + 1)
    }
}

/// A stored child is an edge of the graph between the two labels.
proof fn lemma_edge<T>(d: &Data<T>, p: u32, j: int)
    requires
        d.wf(),
        d.labels().contains_key(p),
        0 <= j < d.kids(p).len(),
    ensures
        d.labels().contains_key(d.kids(p)[j]),
        d@.contains_key(lab(d, p)),
        d@[lab(d, p)].contains(lab(d, d.kids(p)[j])),
{
    let l = lab(d, p);
    assert(d.ids().contains_key(l));
    assert(d.node_ok(p as int));
    assert(d.kids(p)[j] == block(d.store(), p as int)[j]);
    assert(d@[l][j] == lab(d, d.kids(p)[j]));
}

impl LazyBfs {
    /// Seeds the visited set with the given start nodes, each at depth 0;
    /// a start node given twice is seeded once.
    fn new<T>(start_nodes: Vec<u32>, d: &Data<T>, Ghost(roots): Ghost<Set<T>>) -> (r: Self)
        requires
            d.wf(),
            forall|i: int| 0 <= i < start_nodes@.len() ==> d.labels().contains_key(#[trigger] start_nodes@[i])
                && roots.contains(lab(d, start_nodes@[i])),
            forall|l: T| roots.contains(l) && #[trigger] d.ids().contains_key(l) ==> start_nodes@.contains(d.ids()[l]),
        ensures
            r.inv(d, roots),
            r.order().len() == r.root_count(),
            r.order() == dedup(start_nodes@),
            r.depth_seq() == zeros(r.order().len()),
            r.cursor() == 0,
            r.window() == (0int, 0int),
    {
        let mut seen = seen_new();
        let mut depths: Vec<usize> = Vec::new();
        let mut i: usize = 0;
        while i < start_nodes.len()
            invariant
                d.wf(),
                forall|i: int| 0 <= i < start_nodes@.len() ==> d.labels().contains_key(#[trigger] start_nodes@[i])
                    && roots.contains(lab(d, start_nodes@[i])),
                i <= start_nodes@.len(),
                seen_order(seen).no_duplicates(),
                forall|k: int| 0 <= k < seen_order(seen).len() ==> d.labels().contains_key(#[trigger] seen_order(seen)[k])
                    && roots.contains(lab(d, seen_order(seen)[k])),
                forall|k: int| 0 <= k < i ==> seen_order(seen).contains(#[trigger] start_nodes@[k]),
                depths@.len() == seen_order(seen).len(),
                forall|k: int| 0 <= k < depths@.len() ==> #[trigger] depths@[k] == 0,
                seen_order(seen) == dedup(start_nodes@.take(i as int)),
            decreases start_nodes@.len() - i,
        {
            let ghost before = seen_order(seen);
            let x = start_nodes[i];
            assert(start_nodes@.take(i + 1).drop_last() == start_nodes@.take(i as int));
            if seen_insert(&mut seen, x) {
                depths.push(0);
                assert(seen_order(seen)[before.len() as int] == x);
            }
            assert forall|k: int| 0 <= k < i + 1 implies seen_order(seen).contains(#[trigger] start_nodes@[k]) by {
                if k < i {
                    let t = before.index_of(start_nodes@[k]);
                    assert(seen_order(seen)[t] == start_nodes@[k]);
                }
            }
            i = i + 1;
        }
        assert(start_nodes@.take(i as int) == start_nodes@);
        assert(depths@ =~= zeros(depths@.len()));
        let n_roots = depths.len();
        let r = LazyBfs { seen, depths, n_roots, idx: 0, children_idx: 0, children_idx_max: 0 };
        proof {
            let s = seen_order(r.seen);
            assert(s.take(n_roots as int) == s);
            assert forall|l: T| roots.contains(l) && #[trigger] d.ids().contains_key(l) implies s.take(
                n_roots as int).contains(d.ids()[l]) by {
                let k = start_nodes@.index_of(d.ids()[l]);
                assert(start_nodes@[k] == d.ids()[l]);
            }
            assert forall|k: int| #![trigger s[k]] 0 <= k < s.len() implies walk(d@, roots, lab(d, s[k]), r.depths@[k] as nat)
                && r.depths@[k] <= k by {
                assert(d.ids().contains_key(lab(d, s[k])));
                lemma_walk_root(d@, roots, lab(d, s[k]));
            }
        }
        r
    }

    /// Reads the rest of the current children window and visits the first
    /// child not seen yet, one level below the node being expanded.
    fn find_next_child<T>(&mut self, d: &Data<T>, Ghost(roots): Ghost<Set<T>>) -> (r: Option<(usize, u32)>)
        requires
            old(self).inv(d, roots),
        ensures
            final(self).inv(d, roots),
            final(self).idx == old(self).idx,
            final(self).n_roots == old(self).n_roots,
            r matches Some(x) ==> final(self).order() == old(self).order().push(x.1)
                && final(self).depth_seq() == old(self).depth_seq().push(x.0),
            r is None ==> final(self).order() == old(self).order() && final(self).depth_seq() == old(self).depth_seq()
                && final(self).children_idx == final(self).children_idx_max,
            final(self).future(d) == old(self).future(d),
            final(self).window().1 == old(self).window().1,
            old(self).window().0 <= final(self).window().0 <= final(self).window().1,
            r matches Some(x) ==> {
                &&& final(self).window().0 > old(self).window().0
                &&& x.1 == d.store()[final(self).window().0 - 1]
                &&& !old(self).order().contains(x.1)
                &&& x.0 == old(self).depth_seq()[old(self).cursor() - 1] + 1
                &&& forall|j: int| old(self).window().0 <= j < final(self).window().0 - 1 ==> old(self).order().contains(
                    #[trigger] d.store()[j])
            },
            r is None ==> forall|j: int| old(self).window().0 <= j < old(self).window().1 ==> old(self).order().contains(
                #[trigger] d.store()[j]),
    {
        let ghost s0 = self.order();
        let ghost ds0 = self.depths@;
        let ghost f0 = self.future(d);
        while self.children_idx < self.children_idx_max
            invariant
                self.inv(d, roots),
                self.idx == old(self).idx,
                self.n_roots == old(self).n_roots,
                self.order() == s0,
                self.depths@ == ds0,
                s0 == old(self).order(),
                ds0 == old(self).depths@,
                self.future(d) == f0,
                f0 == old(self).future(d),
                self.children_idx_max == old(self).children_idx_max,
                old(self).children_idx <= self.children_idx,
                forall|j: int| old(self).children_idx <= j < self.children_idx ==> s0.contains(#[trigger] d.store()[j]),
            decreases self.children_idx_max - self.children_idx,
        {
            let ghost ci = self.children_idx as int;
            let ghost cm = self.children_idx_max as int;
            let ghost win = d.store().subrange(ci, cm);
            let ghost s = self.order();
            let ghost p = s[self.idx - 1];
            let ghost j = self.children_idx - p - 1;
            proof {
                d.lemma_fields();
                assert(self.idx > 0);
                assert(d.ids().contains_key(lab(d, p)));
                assert(d.node_ok(p as int));
                lemma_edge(d, p, j);
            }
            let node_id = d.buf[self.children_idx];
            assert(node_id == d.kids(p)[j]);
            proof {
                assert(win[0] == node_id);
                assert(win.drop_first() =~= d.store().subrange(ci + 1, cm));
            }
            self.children_idx = self.children_idx + 1;
            if seen_insert(&mut self.seen, node_id) {
                let dep = self.depths[self.idx - 1] + 1;
                self.depths.push(dep);
                proof {
                    let s2 = self.order();
                    assert(s2 == s.push(node_id));
                    let q = self.idx - 1;
                    assert(walk(d@, roots, lab(d, s[q]), ds0[q] as nat));
                    assert(s[q] == p);
                    assert(dep == ds0[q] + 1);
                    assert(walk(d@, roots, lab(d, p), (dep - 1) as nat));
                    assert(d@.contains_key(lab(d, p)) && d@[lab(d, p)].contains(lab(d, node_id)));
                    lemma_walk_step(d@, roots, lab(d, p), lab(d, node_id), ds0[q] as nat);
                    assert(walk(d@, roots, lab(d, node_id), dep as nat));
                    assert(s.take(self.n_roots as int) == s2.take(self.n_roots as int));
                    assert forall|i: int| #![trigger s2[i]] 0 <= i < s2.len() implies walk(d@, roots, lab(d, s2[i]),
                        self.depths@[i] as nat) && self.depths@[i] <= i by {
                        if i < s.len() {
                            assert(s2[i] == s[i]);
                        }
                    }
                    assert forall|jj: int| 0 <= jj < self.children_idx - p - 1 implies s2.contains(#[trigger] d.kids(p)[jj]) by {
                        if jj < j {
                            assert(s.contains(d.kids(p)[jj]));
                            let t = s.index_of(d.kids(p)[jj]);
                            assert(s2[t] == d.kids(p)[jj]);
                        } else {
                            assert(s2[s.len() as int] == node_id);
                        }
                    }
                    assert forall|i: int, jj: int| #![trigger d.kids(s2[i])[jj]]
                        0 <= i < self.idx - 1 && 0 <= jj < d.kids(s2[i]).len() implies s2.contains(d.kids(s2[i])[jj]) by {
                        assert(s2[i] == s[i]);
                        assert(s.contains(d.kids(s[i])[jj]));
                        let t = s.index_of(d.kids(s[i])[jj]);
                        assert(s2[t] == d.kids(s[i])[jj]);
                    }
                    assert(s2[self.idx - 1] == p);
                    assert forall|i: int| 0 <= i < self.n_roots implies #[trigger] self.depths@[i] == 0 by {
                        assert(self.depths@[i] == ds0[i]);
                    }
                    assert forall|i: int| 0 <= i < self.n_roots implies roots.contains(#[trigger] lab(d, s2[i])) by {
                        assert(s2[i] == s[i]);
                    }
                }
                return Some((dep, node_id));
            }
            proof {
                assert forall|jj: int| 0 <= jj < self.children_idx - p - 1 implies s.contains(#[trigger] d.kids(p)[jj]) by {
                }
            }
        }
        None
    }

    /// Visits the next node in breadth-first order and returns it with its
    /// depth, or `None` once every node reachable from the seeds was visited.
    #[verifier::rlimit(60)]
    fn next<T>(&mut self, d: &Data<T>, Ghost(roots): Ghost<Set<T>>) -> (r: Option<(usize, u32)>)
        requires
            old(self).inv(d, roots),
        ensures
            final(self).inv(d, roots),
            final(self).n_roots == old(self).n_roots,
            r matches Some(x) ==> final(self).order() == old(self).order().push(x.1)
                && final(self).depth_seq() == old(self).depth_seq().push(x.0),
            r is None ==> final(self).order() == old(self).order() && final(self).depth_seq() == old(self).depth_seq()
                && expanded(d, final(self).order(), final(self).depth_seq()),
            final(self).future(d) == old(self).future(d),
            old(self).cursor() <= final(self).cursor(),
            r matches Some(x) ==> final(self).cursor() >= 1 && d.kids(final(self).order()[final(self).cursor() - 1]).contains(x.1),
            r is None ==> (final(self).order(), final(self).depth_seq()) == final(self).future(d),
    {
        let ghost f0 = self.future(d);
        if let Some(x) = self.find_next_child(d, Ghost(roots)) {
            proof {
                let p = self.order()[self.idx - 1];
                d.lemma_fields();
                assert(d.ids().contains_key(lab(d, p)));
                assert(d.node_ok(p as int));
                let j = self.children_idx - 1 - p - 1;
                assert(d.kids(p)[j] == x.1);
            }
            return Some(x);
        }
        let ghost s0 = self.order();
        let ghost ds0 = self.depths@;
        let ghost idx0 = self.idx;
        proof {
            if self.idx > 0 {
                assert(d.store().subrange(self.children_idx as int, self.children_idx_max as int).len() == 0);
            }
        }
        loop
            invariant
                self.inv(d, roots),
                self.n_roots == old(self).n_roots,
                self.order() == s0,
                self.depths@ == ds0,
                s0 == old(self).order(),
                ds0 == old(self).depths@,
                self.children_idx == self.children_idx_max,
                f0 == old(self).future(d),
                run(d, s0, ds0, self.idx as int) == f0,
                idx0 == old(self).idx,
                idx0 <= self.idx,
            decreases s0.len() - self.idx,
        {
            proof {
                d.lemma_fields();
            }
            let ghost s = self.order();
            match seen_get(&self.seen, self.idx) {
                None => {
                    proof {
                        assert(self.idx == s.len());
                        if self.idx > 0 {
                            let p = s[self.idx - 1];
                            assert(d.ids().contains_key(lab(d, p)));
                            assert(d.node_ok(p as int));
                        }
                        assert forall|i: int, j: int| #![trigger d.kids(s[i])[j]]
                            0 <= i < s.len() && 0 <= j < d.kids(s[i]).len() implies s.contains(d.kids(s[i])[j]) by {
                            if i == self.idx - 1 {
                                assert(j < self.children_idx - s[i] - 1);
                            }
                        }
                        lemma_run_done(d, s0, ds0, self.idx as int);
                        assert(self.future(d) == run(d, s0, ds0, self.idx as int)) by {
                            if self.idx > 0 {
                                assert(d.store().subrange(self.children_idx as int, self.children_idx_max as int).len() == 0);
                            }
                        }
                    }
                    return None;
                },
                Some(node) => {
                    proof {
                        if self.idx > 0 {
                            let p = s[self.idx - 1];
                            assert(d.ids().contains_key(lab(d, p)));
                            assert(d.node_ok(p as int));
                        }
                        assert(d.labels().contains_key(node));
                        assert(d.ids().contains_key(lab(d, node)));
                        assert(d.node_ok(node as int));
                        lemma_order_fits(d, s);
                    }
                    let ghost old_idx = self.idx;
                    let total = d.buf.len();
                    let at = node as usize;
                    let n_children = d.buf[at] as usize;
                    assert(at + 1 + n_children <= total);
                    self.idx = self.idx + 1;
                    self.children_idx = at + 1;
                    self.children_idx_max = at + 1 + n_children;
                    proof {
                        assert(d.store().subrange(at + 1, at + 1 + n_children) == d.kids(node));
                        assert(s[self.idx - 1] == node);
                        lemma_run_step(d, s0, ds0, old_idx as int);
                        assert(self.future(d) == f0);
                        assert forall|i: int, j: int| #![trigger d.kids(s[i])[j]]
                            0 <= i < self.idx - 1 && 0 <= j < d.kids(s[i]).len() implies s.contains(d.kids(s[i])[j]) by {
                            if i == old_idx - 1 {
                                assert(j < d.store()[s[i] as int]);
                            }
                        }
                    }
                    if let Some(x) = self.find_next_child(d, Ghost(roots)) {
                        proof {
                            let p = self.order()[self.idx - 1];
                            assert(d.ids().contains_key(lab(d, p)));
                            assert(d.node_ok(p as int));
                            let j = self.children_idx - 1 - p - 1;
                            assert(d.kids(p)[j] == x.1);
                        }
                        return Some(x);
                    }
                },
            }
        }
    }
}

/// Distinct node identifiers are no more than the slots of the store.
proof fn lemma_order_fits<T>(d: &Data<T>, s: Seq<u32>)
    requires
        d.wf(),
        s.no_duplicates(),
        forall|i: int| 0 <= i < s.len() ==> d.labels().contains_key(#[trigger] s[i]),
    ensures
        s.len() <= d.store().len(),
{
    assert forall|i: int| 0 <= i < s.len() implies (#[trigger] s[i]) < d.store().len() by {
        assert(d.labels().contains_key(s[i]));
        assert(d.ids().contains_key(lab(d, s[i])));
        assert(d.node_ok(s[i] as int));
    }
    lemma_distinct_below(s, d.store().len() as int);
}

/// No more than `n` distinct values lie below `n`.
proof fn lemma_distinct_below(s: Seq<u32>, n: int)
    requires
        s.no_duplicates(),
        0 <= n,
        forall|i: int| 0 <= i < s.len() ==> (#[trigger] s[i]) < n,
    ensures
        s.len() <= n,
{
    let t = s.map_values(|x: u32| x as int);
    assert forall|i: int, j: int| 0 <= i < t.len() && 0 <= j < t.len() && i != j implies t[i] != t[j] by {
        assert(s[i] != s[j]);
    }
    assert(t.no_duplicates());
    t.unique_seq_to_set();
    let r = vstd::set_lib::set_int_range(0, n);
    assert(t.to_set().subset_of(r)) by {
        assert forall|x: int| t.to_set().contains(x) implies r.contains(x) by {
            let i = t.index_of(x);
            assert(t[i] == s[i] as int);
        }
    }
    vstd::set_lib::lemma_int_range(0, n);
    vstd::set_lib::lemma_len_subset(t.to_set(), r);
}

/// Once the visited nodes are closed under children, every node reached by
/// a walk from the roots is among them.
proof fn lemma_reached<T>(d: &Data<T>, s: Seq<u32>, ds: Seq<usize>, n_roots: int, roots: Set<T>, x: T, n: nat)
    requires
        d.wf(),
        0 <= n_roots <= s.len(),
        forall|i: int| 0 <= i < s.len() ==> d.labels().contains_key(#[trigger] s[i]),
        forall|l: T| roots.contains(l) && #[trigger] d.ids().contains_key(l) ==> s.take(n_roots).contains(d.ids()[l]),
        expanded(d, s, ds),
        ds.len() == s.len(),
        forall|i: int| 0 <= i < n_roots ==> #[trigger] ds[i] == 0,
        walk(d@, roots, x, n),
    ensures
        exists|t: int| 0 <= t < s.len() && lab(d, #[trigger] s[t]) == x && ds[t] <= n,
    decreases n,
{
    let y = lemma_walk_back(d@, roots, x, n);
    if n == 0 {
        assert(d.ids().contains_key(x));
        let t = s.take(n_roots).index_of(d.ids()[x]);
        assert(s[t] == d.ids()[x]);
        assert(ds[t] == 0);
    } else {
        lemma_reached(d, s, ds, n_roots, roots, y, (n - 1) as nat);
        let i = choose|t: int| 0 <= t < s.len() && lab(d, #[trigger] s[t]) == y && ds[t] <= n - 1;
        assert(d.ids().contains_key(y));
        assert(d.ids()[y] == s[i]);
        let j = d@[y].index_of(x);
        assert(d@[y][j] == lab(d, d.kids(s[i])[j]));
        assert(near(s, ds, d.kids(s[i])[j], ds[i] + 1));
        let t = choose|t: int| 0 <= t < s.len() && s[t] == d.kids(s[i])[j] && ds[t] <= ds[i] + 1;
        assert(lab(d, s[t]) == x);
    }
}

impl<T: Copy + Eq + Hash> Data<T> {
    /// Every node reachable from the start labels, in breadth-first order,
    /// with its depth. Start labels that are not nodes are ignored, and
    /// start labels themselves are never returned.
    pub fn descendants_iter(&self, nodes: &Vec<T>) -> (r: Vec<(usize, T)>)
        requires
            self.wf(),
        ensures
            is_descendants(self@, nodes@, r@),
            r@ == bfs_seq(self, nodes@),
    {
        proof {
            self.lemma_fields();
        }
        let ghost roots = nodes@.to_set();
        let mut start: Vec<u32> = Vec::new();
        let mut i: usize = 0;
        while i < nodes.len()
            invariant
                self.wf(),
                roots == nodes@.to_set(),
                i <= nodes@.len(),
                forall|k: int| 0 <= k < start@.len() ==> self.labels().contains_key(#[trigger] start@[k])
                    && roots.contains(lab(self, start@[k])),
                forall|k: int| 0 <= k < i && self.ids().contains_key(#[trigger] nodes@[k]) ==> start@.contains(
                    self.ids()[nodes@[k]]),
                start@ == known_ids(self, nodes@.take(i as int)),
            decreases nodes@.len() - i,
        {
            assert(nodes@.take(i + 1).drop_last() == nodes@.take(i as int));
            proof {
                self.lemma_fields();
            }
            let ghost before = start@;
            match self.label_id_map.get(&nodes[i]) {
                Some(id) => {
                    start.push(*id);
                    assert(start@[before.len() as int] == *id);
                    assert(nodes@.contains(nodes@[i as int]));
                },
                None => {},
            }
            assert forall|k: int| 0 <= k < i + 1 && self.ids().contains_key(#[trigger] nodes@[k]) implies start@.contains(
                self.ids()[nodes@[k]]) by {
                if k < i {
                    let t = before.index_of(self.ids()[nodes@[k]]);
                    assert(start@[t] == before[t]);
                }
            }
            i = i + 1;
        }
        assert forall|l: T| roots.contains(l) && #[trigger] self.ids().contains_key(l) implies start@.contains(self.ids()[l]) by {
            let k = nodes@.index_of(l);
            assert(nodes@[k] == l);
        }
        assert(nodes@.take(i as int) == nodes@);
        let mut bfs = LazyBfs::new(start, self, Ghost(roots));
        assert(bfs.future(self) == bfs_run(self, nodes@));
        let mut out: Vec<(usize, T)> = Vec::new();
        proof {
            lemma_order_fits(self, bfs.order());
        }
        loop
            invariant_except_break
                bfs.order().len() <= self.store().len(),
            invariant
                self.wf(),
                roots == nodes@.to_set(),
                bfs.inv(self, roots),
                out@.len() + bfs.root_count() == bfs.order().len(),
                bfs.future(self) == bfs_run(self, nodes@),
                bfs.root_count() == seeds(self, nodes@).len(),
                forall|k: int| #![trigger out@[k]] 0 <= k < out@.len() ==> out@[k].0 == bfs.depth_seq()[bfs.root_count() + k]
                    && out@[k].1 == lab(self, bfs.order()[bfs.root_count() + k]),
            ensures
                expanded(self, bfs.order(), bfs.depth_seq()),
                (bfs.order(), bfs.depth_seq()) == bfs_run(self, nodes@),
            decreases self.store().len() - bfs.order().len(),
        {
            proof {
                self.lemma_fields();
            }
            let ghost before = out@;
            match bfs.next(self, Ghost(roots)) {
                None => {
                    break;
                },
                Some((dep, id)) => {
                    proof {
                        lemma_order_fits(self, bfs.order());
                        assert(bfs.order()[bfs.order().len() - 1] == id);
                    }
                    let label = match self.id_label_map.get(&id) {
                        Some(l) => *l,
                        // not taken: every visited identifier is a node
                        None => {
                            return out;
                        },
                    };
                    out.push((dep, label));
                    assert forall|k: int| #![trigger out@[k]] 0 <= k < out@.len() implies out@[k].0 == bfs.depth_seq()[
                        bfs.root_count() + k] && out@[k].1 == lab(self, bfs.order()[bfs.root_count() + k]) by {
                        if k < before.len() {
                            assert(out@[k] == before[k]);
                        }
                    }
                },
            }
        }
        proof {
            let s = bfs.order();
            let nr = bfs.root_count() as int;
            assert forall|i: int, j: int| 0 <= i < j < out@.len() implies out@[i].1 != out@[j].1 by {
                assert(self.ids().contains_key(lab(self, s[nr + i])));
                assert(self.ids().contains_key(lab(self, s[nr + j])));
            }
            assert forall|i: int| 0 <= i < out@.len() implies !nodes@.contains(#[trigger] out@[i].1) by {
                let l = out@[i].1;
                assert(self.ids().contains_key(lab(self, s[nr + i])));
                if nodes@.contains(l) {
                    assert(roots.contains(l));
                    let t = s.take(nr).index_of(self.ids()[l]);
                    assert(s[t] == s[nr + i]);
                }
            }
            assert forall|i: int| #![trigger out@[i]] 0 <= i < out@.len() implies {
                &&& self@.contains_key(out@[i].1)
                &&& out@[i].0 >= 1
                &&& walk(self@, nodes@.to_set(), out@[i].1, out@[i].0 as nat)
            } by {
                assert(s[nr + i] == s[nr + i]);
                assert(bfs.depth_seq()[nr + i] >= 1);
                assert(self.ids().contains_key(lab(self, s[nr + i])));
            }
            assert forall|i: int, m: nat| 0 <= i < out@.len() && m < out@[i].0 implies !#[trigger] walk(self@, roots, out@[i].1, m) by {
                if walk(self@, roots, out@[i].1, m) {
                    lemma_reached(self, s, bfs.depth_seq(), nr, roots, out@[i].1, m);
                    let t = choose|t: int| 0 <= t < s.len() && lab(self, #[trigger] s[t]) == out@[i].1 && bfs.depth_seq()[t] <= m;
                    assert(self.ids().contains_key(lab(self, s[t])));
                    assert(self.ids().contains_key(lab(self, s[nr + i])));
                    assert(s[t] == s[nr + i]);
                }
            }
            assert forall|i: int, j: int| 0 <= i <= j < out@.len() implies (#[trigger] out@[i]).0 <= (#[trigger] out@[j]).0 by {
                assert(bfs.depth_seq()[nr + i] <= bfs.depth_seq()[nr + j]);
            }
            assert forall|x: T, n: nat| #[trigger] walk(self@, nodes@.to_set(), x, n) && !nodes@.contains(x) implies exists|i: int|
                0 <= i < out@.len() && (#[trigger] out@[i]).1 == x by {
                lemma_reached(self, s, bfs.depth_seq(), nr, roots, x, n);
                let t = choose|t: int| 0 <= t < s.len() && lab(self, #[trigger] s[t]) == x;
                if t < nr {
                    assert(roots.contains(lab(self, s[t])));
                }
                assert(out@[t - nr].1 == x);
            }
        }
        assert(out@ =~= bfs_seq(self, nodes@));
        out
    }
}

/// Start labels that are not nodes change nothing: two lists of start labels
/// whose nodes come in the same order give the same traversal.
pub proof fn law_unknown_starts_ignored<T>(d: &Data<T>, nodes1: Seq<T>, nodes2: Seq<T>)
    requires
        nodes1.filter(|l: T| d.ids().contains_key(l)) == nodes2.filter(|l: T| d.ids().contains_key(l)),
    ensures
        bfs_seq(d, nodes1) == bfs_seq(d, nodes2),
{
    lemma_known_ids_filter(d, nodes1);
    lemma_known_ids_filter(d, nodes2);
}

proof fn lemma_known_ids_filter<T>(d: &Data<T>, nodes: Seq<T>)
    ensures
        known_ids(d, nodes) == nodes.filter(|l: T| d.ids().contains_key(l)).map_values(|l: T| d.ids()[l]),
    decreases nodes.len(),
{
    reveal(Seq::filter);
    if nodes.len() > 0 {
        lemma_known_ids_filter(d, nodes.drop_last());
        assert(known_ids(d, nodes) =~= nodes.filter(|l: T| d.ids().contains_key(l)).map_values(|l: T| d.ids()[l]));
    }
}

} // verus!