//! The mathematical model of the graph: a map from each label to the ordered
//! sequence of its children, and what a set of relations builds.
use vstd::prelude::*;

verus! {

/// The graph after adding the relation `p -> c`: `c` is appended to the
/// children of `p`, and both labels become nodes.
pub open spec fn add_edge<T>(g: Map<T, Seq<T>>, p: T, c: T) -> Map<T, Seq<T>> {
    let kids = if g.contains_key(p) { g[p] } else { Seq::empty() };
    let g1 = g.insert(p, kids.push(c));
    if g1.contains_key(c) { g1 } else { g1.insert(c, Seq::empty()) }
}

/// The graph built from parent/child relations, taken in order.
pub open spec fn graph_of<T>(pairs: Seq<(T, T)>) -> Map<T, Seq<T>>
    decreases pairs.len(),
{
    if pairs.len() == 0 {
        Map::empty()
    } else {
        add_edge(graph_of(pairs.drop_last()), pairs.last().0, pairs.last().1)
    }
}

/// Every label that occurs in some relation, as parent or as child.
pub open spec fn labels_of<T>(pairs: Seq<(T, T)>) -> Set<T> {
    Set::new(|l: T| exists|i: int| #![trigger pairs[i]] 0 <= i < pairs.len() && (pairs[i].0 == l || pairs[i].1 == l))
}

/// The graph with `p` as a node: unchanged if it is one already, else with
/// `p` added with no children.
pub open spec fn with_node<T>(g: Map<T, Seq<T>>, p: T) -> Map<T, Seq<T>> {
    if g.contains_key(p) { g } else { g.insert(p, Seq::empty()) }
}

/// The graph after adding the relations `p -> c` for each `c` of `kids`, in order.
pub open spec fn add_edges<T>(g: Map<T, Seq<T>>, p: T, kids: Seq<T>) -> Map<T, Seq<T>>
    decreases kids.len(),
{
    if kids.len() == 0 {
        g
    } else {
        add_edge(add_edges(g, p, kids.drop_last()), p, kids.last())
    }
}

/// The graph built from parent/child-list relations, taken in order: each
/// parent becomes a node, even with an empty list, then gets its children.
pub open spec fn graph_of_rows<T>(rows: Seq<(T, Seq<T>)>) -> Map<T, Seq<T>>
    decreases rows.len(),
{
    if rows.len() == 0 {
        Map::empty()
    } else {
        add_edges(with_node(graph_of_rows(rows.drop_last()), rows.last().0), rows.last().0, rows.last().1)
    }
}

/// The number of parent/child relations in parent/child-list relations.
pub open spec fn edge_count<T>(rows: Seq<(T, Seq<T>)>) -> nat
    decreases rows.len(),
{
    if rows.len() == 0 {
        0
    } else {
        edge_count(rows.drop_last()) + rows.last().1.len()
    }
}

/// Every child of a node is itself a node.
pub open spec fn closed<T>(g: Map<T, Seq<T>>) -> bool {
    forall|l: T, i: int| #![trigger g[l][i]] g.contains_key(l) && 0 <= i < g[l].len() ==> g.contains_key(g[l][i])
}

pub proof fn lemma_graph_of_dom<T>(pairs: Seq<(T, T)>)
    ensures
        graph_of(pairs).dom() == labels_of(pairs),
        graph_of(pairs).dom().finite(),
        closed(graph_of(pairs)),
    decreases pairs.len(),
{
    if pairs.len() > 0 {
        let pre = pairs.drop_last();
        lemma_graph_of_dom(pre);
        let g = graph_of(pre);
        let p = pairs.last().0;
        let c = pairs.last().1;
        let g2 = graph_of(pairs);
        assert(g2 == add_edge(g, p, c));
        assert forall|l: T| g2.dom().contains(l) <==> labels_of(pairs).contains(l) by {
            if g.dom().contains(l) {
                let i = choose|i: int| #![trigger pre[i]] 0 <= i < pre.len() && (pre[i].0 == l || pre[i].1 == l);
                assert(pairs[i] == pre[i]);
                assert(0 <= i < pairs.len() && (pairs[i].0 == l || pairs[i].1 == l));
            }
            if labels_of(pairs).contains(l) {
                let i = choose|i: int| #![trigger pairs[i]] 0 <= i < pairs.len() && (pairs[i].0 == l || pairs[i].1 == l);
                if i < pre.len() {
                    assert(pairs[i] == pre[i]);
                    assert(0 <= i < pre.len() && (pre[i].0 == l || pre[i].1 == l));
                    assert(labels_of(pre).contains(l));
                }
            }
        }
        assert(g2.dom() =~= labels_of(pairs));
        assert forall|l: T, i: int| #![trigger g2[l][i]] g2.contains_key(l) && 0 <= i < g2[l].len() implies g2.contains_key(
            g2[l][i]) by {
            if l != p && g.contains_key(l) {
                assert(g2[l] == g[l]);
            }
        }
    }
}

pub proof fn lemma_add_edge_closed<T>(g: Map<T, Seq<T>>, p: T, c: T)
    requires
        closed(g),
    ensures
        closed(add_edge(g, p, c)),
{
    let g2 = add_edge(g, p, c);
    assert forall|l: T, i: int| #![trigger g2[l][i]] g2.contains_key(l) && 0 <= i < g2[l].len() implies g2.contains_key(
        g2[l][i]) by {
        if l != p && g.contains_key(l) {
            assert(g2[l] == g[l]);
        }
    }
}

/// Where the block of the `k`-th node of `order` starts when every node takes
/// one slot for its degree and one per child, laid out in that order.
#[verifier::opaque]
pub open spec fn offset<T>(order: Seq<T>, g: Map<T, Seq<T>>, k: int) -> int
    decreases k,
{
    if k <= 0 {
        0
    } else {
        offset(order, g, k - 1) + 1 + g[order[k - 1]].len()
    }
}

pub proof fn lemma_offset_step<T>(s: Seq<T>, g: Map<T, Seq<T>>, k: int)
    requires
        0 <= k,
    ensures
        offset(s, g, 0) == 0,
        offset(s, g, k + 1) == offset(s, g, k) + 1 + g[s[k]].len(),
{
    reveal(offset);
}

pub proof fn lemma_offset_nonneg<T>(s: Seq<T>, g: Map<T, Seq<T>>, k: int)
    ensures
        offset(s, g, k) >= 0,
    decreases k,
{
    reveal(offset);
    if k > 0 {
        lemma_offset_nonneg(s, g, k - 1);
    }
}

pub proof fn lemma_offset_agree<T>(s1: Seq<T>, g1: Map<T, Seq<T>>, s2: Seq<T>, g2: Map<T, Seq<T>>, k: int)
    requires
        0 <= k <= s1.len(),
        k <= s2.len(),
        forall|j: int| 0 <= j < k ==> s1[j] == s2[j] && g1[s1[j]].len() == g2[s2[j]].len(),
    ensures
        offset(s1, g1, k) == offset(s2, g2, k),
    decreases k,
{
    reveal(offset);
    if k > 0 {
        lemma_offset_agree(s1, g1, s2, g2, k - 1);
    }
}

pub proof fn lemma_offset_bump<T>(s: Seq<T>, g1: Map<T, Seq<T>>, g2: Map<T, Seq<T>>, xi: int, k: int)
    requires
        0 <= xi < s.len(),
        0 <= k <= s.len(),
        forall|j: int| 0 <= j < s.len() && j != xi ==> g1[s[j]].len() == g2[s[j]].len(),
        g2[s[xi]].len() == g1[s[xi]].len() + 1,
    ensures
        offset(s, g2, k) == offset(s, g1, k) + if xi < k { 1int } else { 0int },
    decreases k,
{
    reveal(offset);
    if k > 0 {
        lemma_offset_bump(s, g1, g2, xi, k - 1);
    }
}

/// Each slot below the end of the layout lies in the block of some node.
pub proof fn lemma_offset_cover<T>(s: Seq<T>, g: Map<T, Seq<T>>, n: int, i: int) -> (k: int)
    requires
        0 <= n,
        0 <= i < offset(s, g, n),
    ensures
        0 <= k < n,
        offset(s, g, k) <= i < offset(s, g, k + 1),
    decreases n,
{
    reveal(offset);
    if i < offset(s, g, n - 1) {
        lemma_offset_cover(s, g, n - 1, i)
    } else {
        n - 1
    }
}

pub proof fn lemma_offset_mono<T>(s: Seq<T>, g: Map<T, Seq<T>>, j: int, k: int)
    requires
        0 <= j <= k,
    ensures
        offset(s, g, j) <= offset(s, g, k),
        j < k ==> offset(s, g, j) + 1 + g[s[j]].len() <= offset(s, g, k),
    decreases k - j,
{
    reveal(offset);
    if j < k {
        lemma_offset_mono(s, g, j + 1, k);
    }
}

/// `path` follows parent-to-child edges from a root that is a node.
pub open spec fn is_walk<T>(g: Map<T, Seq<T>>, roots: Set<T>, path: Seq<T>) -> bool {
    &&& path.len() >= 1
    &&& roots.contains(path[0])
    &&& g.contains_key(path[0])
    &&& forall|i: int| #![trigger path[i]] 0 < i < path.len() ==> g.contains_key(path[i - 1]) && g[path[i - 1]].contains(path[i])
}

/// `x` is the end of a walk of exactly `n` edges that starts at a root that
/// is a node.
pub open spec fn walk<T>(g: Map<T, Seq<T>>, roots: Set<T>, x: T, n: nat) -> bool {
    exists|path: Seq<T>| #[trigger] is_walk(g, roots, path) && path.len() == n + 1 && path.last() == x
}

pub proof fn lemma_walk_root<T>(g: Map<T, Seq<T>>, roots: Set<T>, x: T)
    requires
        roots.contains(x),
        g.contains_key(x),
    ensures
        walk(g, roots, x, 0),
{
    let path = seq![x];
    assert(is_walk(g, roots, path));
}

pub proof fn lemma_walk_step<T>(g: Map<T, Seq<T>>, roots: Set<T>, y: T, x: T, n: nat)
    requires
        walk(g, roots, y, n),
        g.contains_key(y),
        g[y].contains(x),
    ensures
        walk(g, roots, x, n + 1),
{
    let path = choose|path: Seq<T>| #[trigger] is_walk(g, roots, path) && path.len() == n + 1 && path.last() == y;
    assert(path.len() == n + 1);
    assert(is_walk(g, roots, path));
    let p2 = path.push(x);
    assert forall|i: int| #![trigger p2[i]] 0 < i < p2.len() implies g.contains_key(p2[i - 1]) && g[p2[i - 1]].contains(
        p2[i]) by {
        if i < path.len() {
            assert(p2[i - 1] == path[i - 1] && p2[i] == path[i]);
        } else {
            assert(p2[i - 1] == y);
        }
    }
    assert(p2[0] == path[0]);
    assert(is_walk(g, roots, p2));
}

/// The start of a walk with at least one edge is a root; otherwise the
/// walk has a last edge `y -> x` whose start `y` ends a walk one edge
/// shorter.
pub proof fn lemma_walk_back<T>(g: Map<T, Seq<T>>, roots: Set<T>, x: T, n: nat) -> (y: T)
    requires
        walk(g, roots, x, n),
    ensures
        n == 0 ==> roots.contains(x) && g.contains_key(x),
        n > 0 ==> walk(g, roots, y, (n - 1) as nat) && g.contains_key(y) && g[y].contains(x),
{
    let path = choose|path: Seq<T>| #[trigger] is_walk(g, roots, path) && path.len() == n + 1 && path.last() == x;
    assert(path.len() == n + 1);
    assert(is_walk(g, roots, path));
    if n == 0 {
        assert(path[0] == x);
        x
    } else {
        let p1 = path.drop_last();
        assert forall|i: int| #![trigger p1[i]] 0 < i < p1.len() implies g.contains_key(p1[i - 1]) && g[p1[i - 1]].contains(
            p1[i]) by {
            assert(p1[i - 1] == path[i - 1] && p1[i] == path[i]);
        }
        assert(p1[0] == path[0]);
        assert(is_walk(g, roots, p1));
        assert(path[n as int] == x);
        path[n - 1]
    }
}

/// A label is a node of the built graph exactly when it occurs in some
/// relation, as parent or as child.
pub proof fn law_node_iff_mentioned<T>(pairs: Seq<(T, T)>, x: T)
    ensures
        graph_of(pairs).contains_key(x) <==> labels_of(pairs).contains(x),
{
    lemma_graph_of_dom(pairs);
}

/// The built graph has one node per distinct label of the relations.
pub proof fn law_node_count<T>(pairs: Seq<(T, T)>)
    ensures
        graph_of(pairs).len() == labels_of(pairs).len(),
{
    lemma_graph_of_dom(pairs);
}

/// What a traversal from the labels `nodes` returns: `(depth, label)` pairs,
/// each label at most once, never a start label, each at the length of its
/// shortest walk from a start label that is a node, every label reachable
/// from such a start label present, and depths never decreasing.
pub open spec fn is_descendants<T>(g: Map<T, Seq<T>>, nodes: Seq<T>, r: Seq<(usize, T)>) -> bool {
    let roots = nodes.to_set();
    &&& forall|i: int, j: int| 0 <= i < j < r.len() ==> r[i].1 != r[j].1
    &&& forall|i: int| 0 <= i < r.len() ==> !nodes.contains(#[trigger] r[i].1)
    &&& forall|i: int| #![trigger r[i]] 0 <= i < r.len() ==> {
        &&& g.contains_key(r[i].1)
        &&& r[i].0 >= 1
        &&& walk(g, roots, r[i].1, r[i].0 as nat)
    }
    &&& forall|i: int, m: nat| 0 <= i < r.len() && m < r[i].0 ==> !#[trigger] walk(g, roots, r[i].1, m)
    &&& forall|x: T, n: nat| #[trigger] walk(g, roots, x, n) && !nodes.contains(x) ==> exists|i: int|
        0 <= i < r.len() && (#[trigger] r[i]).1 == x
    &&& forall|i: int, j: int| 0 <= i <= j < r.len() ==> (#[trigger] r[i]).0 <= (#[trigger] r[j]).0
}

/// Two traversals of one graph from the same start labels return the same
/// `(depth, label)` pairs.
pub proof fn law_traversals_agree<T>(g: Map<T, Seq<T>>, nodes: Seq<T>, r1: Seq<(usize, T)>, r2: Seq<(usize, T)>)
    requires
        is_descendants(g, nodes, r1),
        is_descendants(g, nodes, r2),
    ensures
        forall|p: (usize, T)| r1.contains(p) <==> r2.contains(p),
{
    assert forall|p: (usize, T)| r1.contains(p) implies r2.contains(p) by {
        lemma_pair_in_other(g, nodes, r1, r2, p);
    }
    assert forall|p: (usize, T)| r2.contains(p) implies r1.contains(p) by {
        lemma_pair_in_other(g, nodes, r2, r1, p);
    }
}

proof fn lemma_pair_in_other<T>(g: Map<T, Seq<T>>, nodes: Seq<T>, r1: Seq<(usize, T)>, r2: Seq<(usize, T)>, p: (usize, T))
    requires
        is_descendants(g, nodes, r1),
        is_descendants(g, nodes, r2),
        r1.contains(p),
    ensures
        r2.contains(p),
{
    let roots = nodes.to_set();
    let i = r1.index_of(p);
    assert(r1[i] == p);
    assert(walk(g, roots, p.1, p.0 as nat));
    assert(!nodes.contains(r1[i].1));
    let j = choose|j: int| 0 <= j < r2.len() && (#[trigger] r2[j]).1 == p.1;
    assert(walk(g, roots, p.1, r2[j].0 as nat));
    if r2[j].0 < p.0 {
        assert(!walk(g, roots, r1[i].1, r2[j].0 as nat));
    }
    if p.0 < r2[j].0 {
        assert(!walk(g, roots, r2[j].1, p.0 as nat));
    }
    assert(r2[j] == p);
}

/// A traversal whose start labels are none of them nodes returns nothing.
pub proof fn law_unknown_starts_give_nothing<T>(g: Map<T, Seq<T>>, nodes: Seq<T>, r: Seq<(usize, T)>)
    requires
        is_descendants(g, nodes, r),
        forall|k: int| 0 <= k < nodes.len() ==> !g.contains_key(#[trigger] nodes[k]),
    ensures
        r.len() == 0,
{
    if r.len() > 0 {
        let roots = nodes.to_set();
        assert(walk(g, roots, r[0].1, r[0].0 as nat));
        let path = choose|path: Seq<T>| #[trigger] is_walk(g, roots, path) && path.len() == r[0].0 + 1 && path.last() == r[0].1;
        assert(roots.contains(path[0]));
        let k = nodes.index_of(path[0]);
        assert(nodes[k] == path[0]);
    }
}

/// Every label that occurs in some parent/child-list relation, as parent or
/// as child.
pub open spec fn row_labels<T>(rows: Seq<(T, Seq<T>)>) -> Set<T> {
    Set::new(|l: T| exists|i: int| #![trigger rows[i]] 0 <= i < rows.len() && (rows[i].0 == l || rows[i].1.contains(l)))
}

proof fn lemma_add_edges_dom<T>(g: Map<T, Seq<T>>, p: T, kids: Seq<T>)
    requires
        g.contains_key(p),
    ensures
        forall|l: T| #[trigger] add_edges(g, p, kids).contains_key(l) <==> g.contains_key(l) || kids.contains(l),
    decreases kids.len(),
{
    if kids.len() > 0 {
        let pre = kids.drop_last();
        lemma_add_edges_dom(g, p, pre);
        let h = add_edges(g, p, pre);
        assert(h.contains_key(p));
        assert(add_edges(g, p, kids) == add_edge(h, p, kids.last()));
        assert forall|l: T| #[trigger] add_edges(g, p, kids).contains_key(l) <==> g.contains_key(l) || kids.contains(l) by {
            if pre.contains(l) {
                let j = pre.index_of(l);
                assert(pre[j] == l);
                assert(kids[j] == l);
            }
            if kids.contains(l) && l != kids.last() {
                let j = kids.index_of(l);
                assert(j < pre.len());
                assert(pre[j] == l);
            }
            assert(kids[kids.len() - 1] == kids.last());
        }
    }
}

proof fn lemma_rows_dom<T>(rows: Seq<(T, Seq<T>)>)
    ensures
        graph_of_rows(rows).dom() == row_labels(rows),
    decreases rows.len(),
{
    if rows.len() > 0 {
        let pre = rows.drop_last();
        lemma_rows_dom(pre);
        let (p, kids) = rows.last();
        let g0 = with_node(graph_of_rows(pre), p);
        lemma_add_edges_dom(g0, p, kids);
        assert forall|l: T| graph_of_rows(rows).contains_key(l) <==> row_labels(rows).contains(l) by {
            if row_labels(pre).contains(l) {
                let i = choose|i: int| #![trigger pre[i]] 0 <= i < pre.len() && (pre[i].0 == l || pre[i].1.contains(l));
                assert(rows[i] == pre[i]);
            }
            if row_labels(rows).contains(l) {
                let i = choose|i: int| #![trigger rows[i]] 0 <= i < rows.len() && (rows[i].0 == l || rows[i].1.contains(l));
                if i < pre.len() {
                    assert(rows[i] == pre[i]);
                    assert(row_labels(pre).contains(l));
                } else {
                    assert(rows[i] == rows.last());
                }
            }
            assert(rows[rows.len() - 1] == rows.last());
        }
        assert(graph_of_rows(rows).dom() =~= row_labels(rows));
    }
}

/// Built from parent/child-list relations, a label is a node exactly when
/// it occurs as a parent (also with an empty list) or as a child.
pub proof fn law_row_node_iff_mentioned<T>(rows: Seq<(T, Seq<T>)>, x: T)
    ensures
        graph_of_rows(rows).contains_key(x) <==> row_labels(rows).contains(x),
{
    lemma_rows_dom(rows);
}

/// Built from parent/child-list relations, the graph has one node per
/// distinct label.
pub proof fn law_row_node_count<T>(rows: Seq<(T, Seq<T>)>)
    ensures
        graph_of_rows(rows).len() == row_labels(rows).len(),
{
    lemma_rows_dom(rows);
}

} // verus!
