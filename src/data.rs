//! The label index and the flat adjacency store, built once from relations.
use std::collections::HashMap;
use std::hash::Hash;

use vstd::prelude::*;
use vstd::std_specs::hash::obeys_key_model;

use crate::model::{
    add_edge, add_edges, closed, edge_count, graph_of, graph_of_rows, labels_of, lemma_add_edge_closed, with_node, lemma_graph_of_dom, lemma_offset_agree, lemma_offset_bump,
    lemma_offset_cover, lemma_offset_mono, lemma_offset_nonneg, lemma_offset_step, offset,
};

verus! {

/// The children identifiers of the node whose block starts at `id`.
pub open spec fn block(buf: Seq<u32>, id: int) -> Seq<u32> {
    buf.subrange(id + 1, id + 1 + buf[id])
}

/// The whole structure: label to identifier, identifier to label, and the
/// flat store where slot `id` holds the degree of node `id` and the slots
/// after it hold its children.
pub struct Data<T> {
    pub(crate) label_id_map: HashMap<T, u32>,
    pub(crate) id_label_map: HashMap<u32, T>,
    pub(crate) buf: Vec<u32>,
}

impl<T> Data<T> {
    pub closed spec fn ids(&self) -> Map<T, u32> {
        self.label_id_map@
    }

    pub closed spec fn labels(&self) -> Map<u32, T> {
        self.id_label_map@
    }

    pub closed spec fn store(&self) -> Seq<u32> {
        self.buf@
    }

    /// The fields are what the model's accessors name.
    pub(crate) proof fn lemma_fields(&self)
        ensures
            self.label_id_map@ == self.ids(),
            self.id_label_map@ == self.labels(),
            self.buf@ == self.store(),
    {
    }

    /// The block of `id` lies inside the store and names only known nodes.
    pub open spec fn node_ok(&self, id: int) -> bool {
        &&& 0 <= id < self.store().len()
        &&& id + 1 + self.store()[id] <= self.store().len()
        &&& forall|j: int|
            0 <= j < block(self.store(), id).len() ==> self.labels().contains_key(
                #[trigger] block(self.store(), id)[j],
            )
    }

    pub open spec fn wf(&self) -> bool {
        &&& obeys_key_model::<T>()
        &&& self.ids().dom().finite()
        &&& forall|l: T| #[trigger]
            self.ids().contains_key(l) ==> {
                &&& self.node_ok(self.ids()[l] as int)
                &&& self.labels().contains_key(self.ids()[l])
                &&& self.labels()[self.ids()[l]] == l
            }
        &&& forall|id: u32| #[trigger]
            self.labels().contains_key(id) ==> {
                &&& self.ids().contains_key(self.labels()[id])
                &&& self.ids()[self.labels()[id]] == id
            }
    }

    /// The blocks of distinct nodes do not overlap, and together they cover
    /// the store.
    pub open spec fn tiled(&self) -> bool {
        &&& forall|l1: T, l2: T| #[trigger] self.ids().contains_key(l1) && #[trigger] self.ids().contains_key(l2) && l1 != l2
            ==> self.ids()[l1] + 1 + self.store()[self.ids()[l1] as int] <= self.ids()[l2] || self.ids()[l2] + 1
            + self.store()[self.ids()[l2] as int] <= self.ids()[l1]
        &&& forall|i: int| 0 <= i < self.store().len() ==> #[trigger] self.covered(i)
    }

    /// Slot `i` lies in the block of some node.
    pub open spec fn covered(&self, i: int) -> bool {
        exists|l: T| #[trigger] self.ids().contains_key(l) && self.ids()[l] <= i < self.ids()[l] + 1 + self.store()[self.ids()[l] as int]
    }

    /// The children identifiers of node `id`.
    pub open spec fn kids(&self, id: u32) -> Seq<u32> {
        block(self.store(), id as int)
    }
}

impl<T> View for Data<T> {
    type V = Map<T, Seq<T>>;

    /// Each label mapped to the labels of its children, in stored order.
    open spec fn view(&self) -> Map<T, Seq<T>> {
        Map::new(
            |l: T| self.ids().contains_key(l),
            |l: T| self.kids(self.ids()[l]).map_values(|c: u32| self.labels()[c]),
        )
    }
}

/// The identifiers that `m` gives to the labels of `s`.
pub open spec fn ids_of<T>(m: Map<T, u32>, s: Seq<T>) -> Seq<u32> {
    s.map_values(|c: T| m[c])
}

/// Parent/child-list relations with each list as a sequence.
pub open spec fn pair_lists<T>(lists: Seq<(T, Vec<T>)>) -> Seq<(T, Seq<T>)> {
    lists.map_values(|e: (T, Vec<T>)| (e.0, e.1@))
}

/// The children lists of a map of vectors, as sequences.
pub open spec fn lists_view<T>(m: Map<T, Vec<T>>) -> Map<T, Seq<T>> {
    m.map_values(|v: Vec<T>| v@)
}

proof fn lemma_push_contains<T>(s: Seq<T>, x: T)
    ensures
        forall|l: T| #[trigger] s.push(x).contains(l) <==> s.contains(l) || l == x,
{
    assert forall|l: T| #[trigger] s.push(x).contains(l) <==> s.contains(l) || l == x by {
        if s.contains(l) {
            let j = s.index_of(l);
            assert(s.push(x)[j] == l);
        }
        if s.push(x).contains(l) && l != x {
            let j = s.push(x).index_of(l);
            assert(s[j] == l);
        }
        assert(s.push(x)[s.len() as int] == x);
    }
}

/// `order` lists the keys of `agg` once each.
pub open spec fn grouped<T>(agg: Map<T, Vec<T>>, order: Seq<T>) -> bool {
    &&& order.no_duplicates()
    &&& forall|l: T| order.contains(l) <==> agg.contains_key(l)
}

/// The slots that the children of the nodes of `order` take in the store.
pub open spec fn child_slots<T>(order: Seq<T>, g: Map<T, Seq<T>>) -> int {
    offset(order, g, order.len() as int) - order.len()
}

/// Makes `p` a node with no children, unless it is one already.
fn add_node<T: Copy + Eq + Hash>(agg: &mut HashMap<T, Vec<T>>, order: &mut Vec<T>, p: T)
    requires
        obeys_key_model::<T>(),
        grouped(old(agg)@, old(order)@),
    ensures
        grouped(final(agg)@, final(order)@),
        lists_view(final(agg)@) == with_node(lists_view(old(agg)@), p),
        child_slots(final(order)@, lists_view(final(agg)@)) == child_slots(old(order)@, lists_view(old(agg)@)),
{
    if !agg.contains_key(&p) {
        let ghost o1 = order@;
        let ghost g1 = lists_view(agg@);
        assert(!o1.contains(p));
        order.push(p);
        agg.insert(p, Vec::new());
        proof {
            assert(order@ == o1.push(p));
            lemma_push_contains(o1, p);
            let g2 = lists_view(agg@);
            assert(g2 =~= with_node(g1, p));
            assert forall|j: int| 0 <= j < o1.len() implies o1[j] == order@[j] && g1[o1[j]].len() == g2[order@[j]].len() by {
                assert(o1.contains(o1[j]));
            }
            lemma_offset_agree(o1, g1, order@, g2, o1.len() as int);
            lemma_offset_step(order@, g2, o1.len() as int);
        }
    } else {
        assert(lists_view(agg@) =~= with_node(lists_view(agg@), p));
    }
}

/// Appends `c` to the children of `p`, making both nodes.
fn add_pair<T: Copy + Eq + Hash>(agg: &mut HashMap<T, Vec<T>>, order: &mut Vec<T>, p: T, c: T)
    requires
        obeys_key_model::<T>(),
        grouped(old(agg)@, old(order)@),
    ensures
        grouped(final(agg)@, final(order)@),
        lists_view(final(agg)@) == add_edge(lists_view(old(agg)@), p, c),
        child_slots(final(order)@, lists_view(final(agg)@)) == child_slots(old(order)@, lists_view(old(agg)@)) + 1,
{
    let ghost g00 = lists_view(agg@);
    add_node(agg, order, p);
    let ghost g0 = lists_view(agg@);
    let ghost o0 = order@;
    assert(g0.contains_key(p));
    assert(agg@.contains_key(p));
    assert(o0.contains(p));
    let mut kids = match agg.remove(&p) {
        Some(v) => v,
        None => Vec::new(),
    };
    kids.push(c);
    agg.insert(p, kids);
    let ghost g1 = lists_view(agg@);
    assert(g1 =~= g0.insert(p, g0[p].push(c)));
    proof {
        let xi = o0.index_of(p);
        assert forall|j: int| 0 <= j < o0.len() && j != xi implies g0[o0[j]].len() == g1[o0[j]].len() by {
            assert(o0[j] != p);
        }
        lemma_offset_bump(o0, g0, g1, xi, o0.len() as int);
        assert(forall|l: T| order@.contains(l) <==> agg@.contains_key(l));
    }
    add_node(agg, order, c);
    assert(g1 == g00.insert(p, (if g00.contains_key(p) { g00[p] } else { Seq::empty() }).push(c)));
}

/// Groups the relations by parent, in input order, and records each label
/// once, in the order it was first met.
fn aggregate<T: Copy + Eq + Hash>(pairs: &Vec<(T, T)>) -> (r: (HashMap<T, Vec<T>>, Vec<T>))
    requires
        obeys_key_model::<T>(),
    ensures
        lists_view(r.0@) == graph_of(pairs@),
        grouped(r.0@, r.1@),
        child_slots(r.1@, graph_of(pairs@)) == pairs@.len(),
{
    let mut agg: HashMap<T, Vec<T>> = HashMap::new();
    let mut order: Vec<T> = Vec::new();
    let mut i: usize = 0;
    proof {
        lemma_offset_step(order@, lists_view(agg@), 0);
    }
    while i < pairs.len()
        invariant
            obeys_key_model::<T>(),
            i <= pairs@.len(),
            lists_view(agg@) == graph_of(pairs@.take(i as int)),
            grouped(agg@, order@),
            child_slots(order@, lists_view(agg@)) == i,
        decreases pairs@.len() - i,
    {
        let (p, c) = pairs[i];
        assert(pairs@.take(i + 1).drop_last() == pairs@.take(i as int));
        add_pair(&mut agg, &mut order, p, c);
        i = i + 1;
    }
    assert(pairs@.take(i as int) == pairs@);
    (agg, order)
}

/// Groups parent/child-list relations by parent, in input order: each parent
/// becomes a node, then its children are appended.
fn aggregate_rows<T: Copy + Eq + Hash>(lists: &Vec<(T, Vec<T>)>) -> (r: (HashMap<T, Vec<T>>, Vec<T>))
    requires
        obeys_key_model::<T>(),
    ensures
        lists_view(r.0@) == graph_of_rows(pair_lists(lists@)),
        grouped(r.0@, r.1@),
        child_slots(r.1@, graph_of_rows(pair_lists(lists@))) == edge_count(pair_lists(lists@)),
        closed(graph_of_rows(pair_lists(lists@))),
{
    let ghost rows = pair_lists(lists@);
    let mut agg: HashMap<T, Vec<T>> = HashMap::new();
    let mut order: Vec<T> = Vec::new();
    let mut i: usize = 0;
    proof {
        lemma_offset_step(order@, lists_view(agg@), 0);
    }
    while i < lists.len()
        invariant
            obeys_key_model::<T>(),
            rows == pair_lists(lists@),
            i <= lists@.len(),
            lists_view(agg@) == graph_of_rows(rows.take(i as int)),
            grouped(agg@, order@),
            child_slots(order@, lists_view(agg@)) == edge_count(rows.take(i as int)),
            closed(lists_view(agg@)),
        decreases lists@.len() - i,
    {
        let parent = lists[i].0;
        let kids = &lists[i].1;
        assert(rows.take(i + 1).drop_last() == rows.take(i as int));
        assert(rows.take(i + 1).last() == (parent, kids@));
        let ghost g0 = lists_view(agg@);
        let ghost e0 = child_slots(order@, lists_view(agg@));
        add_node(&mut agg, &mut order, parent);
        let ghost g1 = lists_view(agg@);
        assert(closed(g1)) by {
            assert forall|l: T, j: int| #![trigger g1[l][j]] g1.contains_key(l) && 0 <= j < g1[l].len() implies g1.contains_key(
                g1[l][j]) by {
                if l != parent {
                    assert(g1[l] == g0[l]);
                }
            }
        }
        let mut m: usize = 0;
        while m < kids.len()
            invariant
                obeys_key_model::<T>(),
                kids == &lists@[i as int].1,
                m <= kids@.len(),
                lists_view(agg@) == add_edges(g1, parent, kids@.take(m as int)),
                grouped(agg@, order@),
                child_slots(order@, lists_view(agg@)) == e0 + m,
                closed(lists_view(agg@)),
            decreases kids@.len() - m,
        {
            assert(kids@.take(m + 1).drop_last() == kids@.take(m as int));
            proof {
                lemma_add_edge_closed(lists_view(agg@), parent, kids@[m as int]);
            }
            add_pair(&mut agg, &mut order, parent, kids[m]);
            m = m + 1;
        }
        assert(kids@.take(m as int) == kids@);
        i = i + 1;
    }
    assert(rows.take(i as int) == rows);
    (agg, order)
}

/// Gives the `k`-th label of `order` the identifier `offset(k)`: a running
/// cursor advanced by one plus the node's degree.
fn assign_ids<T: Copy + Eq + Hash>(agg: &HashMap<T, Vec<T>>, order: &Vec<T>) -> (r: (HashMap<T, u32>, HashMap<u32, T>))
    requires
        obeys_key_model::<T>(),
        order@.no_duplicates(),
        forall|l: T| order@.contains(l) <==> agg@.contains_key(l),
        offset(order@, lists_view(agg@), order@.len() as int) <= u32::MAX,
    ensures
        forall|l: T| #[trigger] r.0@.contains_key(l) <==> agg@.contains_key(l),
        forall|k: int| 0 <= k < order@.len() ==> #[trigger] r.0@[order@[k]] == offset(order@, lists_view(agg@), k),
        forall|id: u32| #[trigger] r.1@.contains_key(id) ==> exists|k: int|
            0 <= k < order@.len() && offset(order@, lists_view(agg@), k) == id,
        forall|k: int| #![trigger order@[k]] 0 <= k < order@.len() ==> r.1@.contains_key(offset(order@, lists_view(agg@), k) as u32)
            && r.1@[offset(order@, lists_view(agg@), k) as u32] == order@[k],
{
    let ghost g = lists_view(agg@);
    let ghost o = order@;
    let mut label_id: HashMap<T, u32> = HashMap::new();
    let mut id_label: HashMap<u32, T> = HashMap::new();
    let mut cursor: u32 = 0;
    let mut k: usize = 0;
    proof {
        lemma_offset_step(o, g, 0);
    }
    while k < order.len()
        invariant
            obeys_key_model::<T>(),
            g == lists_view(agg@),
            o == order@,
            o.no_duplicates(),
            forall|l: T| o.contains(l) <==> agg@.contains_key(l),
            offset(o, g, o.len() as int) <= u32::MAX,
            k <= o.len(),
            cursor == offset(o, g, k as int),
            forall|l: T| #[trigger] label_id@.contains_key(l) <==> o.take(k as int).contains(l),
            forall|j: int| 0 <= j < k ==> #[trigger] label_id@[o[j]] == offset(o, g, j),
            forall|id: u32| #[trigger] id_label@.contains_key(id) ==> exists|j: int|
                0 <= j < k && offset(o, g, j) == id,
            forall|j: int| 0 <= j < k ==> #[trigger] id_label@.contains_key(offset(o, g, j) as u32)
                && id_label@[offset(o, g, j) as u32] == o[j],
        decreases o.len() - k,
    {
        let l = order[k];
        assert(o.contains(l));
        let n_kids = match agg.get(&l) {
            Some(v) => v.len(),
            None => 0,
        };
        assert(n_kids == g[l].len());
        proof {
            lemma_offset_step(o, g, k as int);
            lemma_offset_mono(o, g, k as int + 1, o.len() as int);
            assert forall|j: int| 0 <= j < k implies offset(o, g, j) < cursor by {
                lemma_offset_mono(o, g, j, k as int);
            }
        }
        label_id.insert(l, cursor);
        id_label.insert(cursor, l);
        let ghost old_cursor = cursor;
        cursor = cursor + 1 + n_kids as u32;
        proof {
            assert(o.take(k as int + 1) == o.take(k as int).push(l));
            lemma_push_contains(o.take(k as int), l);
            assert forall|j: int| 0 <= j < k implies o[j] != l by {
            }
            assert forall|id: u32| #[trigger] id_label@.contains_key(id) implies exists|j: int|
                0 <= j < k + 1 && offset(o, g, j) == id by {
                if id == old_cursor {
                    assert(offset(o, g, k as int) == id);
                }
            }
            assert forall|j: int| 0 <= j < k + 1 implies #[trigger] label_id@[o[j]] == offset(o, g, j) by {
                if j < k {
                    assert(o[j] != l);
                }
            }
            assert forall|j: int| 0 <= j < k + 1 implies #[trigger] id_label@.contains_key(offset(o, g, j) as u32)
                && id_label@[offset(o, g, j) as u32] == o[j] by {
                if j < k {
                    assert(offset(o, g, j) < old_cursor);
                }
            }
        }
        k = k + 1;
    }
    assert(o.take(k as int) == o);
    assert forall|j: int| #![trigger order@[j]] 0 <= j < order@.len() implies id_label@.contains_key(offset(order@, lists_view(agg@), j) as u32)
        && id_label@[offset(order@, lists_view(agg@), j) as u32] == order@[j] by {
        assert(id_label@.contains_key(offset(o, g, j) as u32));
    }
    (label_id, id_label)
}

proof fn lemma_block_keep(before: Seq<u32>, tail: Seq<u32>, at: int)
    requires
        0 <= at < before.len(),
        at + 1 + before[at] <= before.len(),
    ensures
        (before + tail)[at] == before[at],
        block(before + tail, at) == block(before, at),
{
    assert(block(before + tail, at) =~= block(before, at));
}

proof fn lemma_block_new(before: Seq<u32>, tail: Seq<u32>)
    requires
        tail.len() >= 1,
        tail[0] == tail.len() - 1,
    ensures
        (before + tail)[before.len() as int] == tail[0],
        block(before + tail, before.len() as int) == tail.drop_first(),
{
    assert(block(before + tail, before.len() as int) =~= tail.drop_first());
}

/// Appends one node's block: its degree, then its children's identifiers.
fn push_block<T: Copy + Eq + Hash>(buf: &mut Vec<u32>, kids: &Vec<T>, label_id: &HashMap<T, u32>)
    requires
        obeys_key_model::<T>(),
        kids@.len() <= u32::MAX,
        forall|i: int| 0 <= i < kids@.len() ==> label_id@.contains_key(#[trigger] kids@[i]),
    ensures
        final(buf)@ == old(buf)@.push(kids@.len() as u32) + ids_of(label_id@, kids@),
{
    let ghost before = buf@;
    buf.push(kids.len() as u32);
    let mut m: usize = 0;
    while m < kids.len()
        invariant
            obeys_key_model::<T>(),
            forall|i: int| 0 <= i < kids@.len() ==> label_id@.contains_key(#[trigger] kids@[i]),
            m <= kids@.len(),
            buf@ == before.push(kids@.len() as u32) + kids@.take(m as int).map_values(|c: T| label_id@[c]),
        decreases kids@.len() - m,
    {
        let c = kids[m];
        let cid = match label_id.get(&c) {
            Some(v) => *v,
            None => {
                assert(label_id@.contains_key(kids@[m as int]));
                0
            },
        };
        buf.push(cid);
        assert(kids@.take(m + 1).map_values(|c: T| label_id@[c]) =~= kids@.take(m as int).map_values(
            |c: T| label_id@[c]).push(cid));
        m = m + 1;
    }
    assert(kids@.take(m as int) =~= kids@);
}

/// Lays the nodes of `order` out one after the other: the degree, then the
/// identifier of each child.
#[verifier::rlimit(40)]
fn encode<T: Copy + Eq + Hash>(agg: &HashMap<T, Vec<T>>, order: &Vec<T>, label_id: &HashMap<T, u32>) -> (buf: Vec<u32>)
    requires
        obeys_key_model::<T>(),
        forall|l: T| order@.contains(l) <==> agg@.contains_key(l),
        forall|l: T| #[trigger] label_id@.contains_key(l) <==> agg@.contains_key(l),
        closed(lists_view(agg@)),
        offset(order@, lists_view(agg@), order@.len() as int) <= u32::MAX,
    ensures
        buf@.len() == offset(order@, lists_view(agg@), order@.len() as int),
        forall|k: int| #![trigger order@[k]] 0 <= k < order@.len() ==> {
            let at = offset(order@, lists_view(agg@), k);
            &&& buf@[at] == lists_view(agg@)[order@[k]].len()
            &&& block(buf@, at) == ids_of(label_id@, lists_view(agg@)[order@[k]])
        },
{
    let ghost g = lists_view(agg@);
    let ghost o = order@;
    let mut buf: Vec<u32> = Vec::new();
    let mut k: usize = 0;
    proof {
        lemma_offset_step(o, g, 0);
    }
    while k < order.len()
        invariant
            obeys_key_model::<T>(),
            g == lists_view(agg@),
            o == order@,
            forall|l: T| o.contains(l) <==> agg@.contains_key(l),
            forall|l: T| #[trigger] label_id@.contains_key(l) <==> agg@.contains_key(l),
            closed(g),
            offset(o, g, o.len() as int) <= u32::MAX,
            k <= o.len(),
            buf@.len() == offset(o, g, k as int),
            forall|j: int| #![trigger o[j]] 0 <= j < k ==> {
                let at = offset(o, g, j);
                &&& buf@[at] == g[o[j]].len()
                &&& block(buf@, at) == ids_of(label_id@, g[o[j]])
            },
        decreases o.len() - k,
    {
        let l = order[k];
        assert(o.contains(l));
        let kids = match agg.get(&l) {
            Some(v) => v,
            // not taken: every label of `order` is a key of `agg`
            None => {
                return buf;
            },
        };
        assert(kids@ == g[l]);
        proof {
            lemma_offset_mono(o, g, k as int, o.len() as int);
            lemma_offset_mono(o, g, k as int + 1, o.len() as int);
        }
        let ghost start = buf@.len() as int;
        let ghost before = buf@;
        proof {
            lemma_offset_nonneg(o, g, k as int);
            lemma_offset_step(o, g, k as int);
            assert forall|i: int| 0 <= i < kids@.len() implies label_id@.contains_key(#[trigger] kids@[i]) by {
                assert(g[l][i] == kids@[i]);
                assert(g.contains_key(kids@[i]));
            }
        }
        push_block(&mut buf, kids, label_id);
        proof {
            let tail = seq![kids@.len() as u32] + ids_of(label_id@, kids@);
            assert(buf@ =~= before + tail);
            lemma_block_new(before, tail);
            assert forall|j: int| #![trigger o[j]] 0 <= j < k implies {
                let at = offset(o, g, j);
                &&& buf@[at] == g[o[j]].len()
                &&& block(buf@, at) == ids_of(label_id@, g[o[j]])
            } by {
                lemma_offset_mono(o, g, j, k as int);
                lemma_offset_nonneg(o, g, j);
                lemma_block_keep(before, tail, offset(o, g, j));
            }
        }
        k = k + 1;
    }
    buf
}

/// What the three build phases establish of a structure, over the grouped
/// relations `g` and the order `o` in which nodes were laid out.
spec fn laid_out<T>(r: Data<T>, g: Map<T, Seq<T>>, o: Seq<T>) -> bool {
    &&& o.no_duplicates()
    &&& forall|l: T| o.contains(l) <==> g.contains_key(l)
    &&& closed(g)
    &&& offset(o, g, o.len() as int) <= u32::MAX
    &&& r.ids().dom() == g.dom()
    &&& forall|k: int| #![trigger o[k]] 0 <= k < o.len() ==> r.ids()[o[k]] == offset(o, g, k)
    &&& forall|id: u32| #[trigger] r.labels().contains_key(id) ==> exists|k: int|
        0 <= k < o.len() && offset(o, g, k) == id
    &&& forall|k: int| #![trigger o[k]] 0 <= k < o.len() ==> r.labels().contains_key(r.ids()[o[k]])
        && r.labels()[r.ids()[o[k]]] == o[k]
    &&& r.store().len() == offset(o, g, o.len() as int)
    &&& forall|k: int| #![trigger o[k]] 0 <= k < o.len() ==> {
        let at = offset(o, g, k);
        &&& r.store()[at] == g[o[k]].len()
        &&& block(r.store(), at) == ids_of(r.ids(), g[o[k]])
    }
}

#[verifier::rlimit(100)]
proof fn lemma_node<T>(r: Data<T>, g: Map<T, Seq<T>>, o: Seq<T>, l: T)
    requires
        laid_out(r, g, o),
        r.ids().contains_key(l),
    ensures
        r.node_ok(r.ids()[l] as int),
        r.labels().contains_key(r.ids()[l]),
        r.labels()[r.ids()[l]] == l,
        r.kids(r.ids()[l]).map_values(|c: u32| r.labels()[c]) == g[l],
{
    assert(r.ids().dom().contains(l));
    assert(g.contains_key(l));
    assert(o.contains(l));
    let k = o.index_of(l);
    assert(o[k] == l);
    let at = offset(o, g, k);
    lemma_offset_mono(o, g, k, o.len() as int);
    lemma_offset_nonneg(o, g, k);
    let b = block(r.store(), at);
    assert forall|j: int| 0 <= j < b.len() implies r.labels().contains_key(#[trigger] b[j]) && r.labels()[b[j]]
        == g[l][j] by {
        let c = g[l][j];
        assert(g.contains_key(c));
        assert(o.contains(c));
        let kc = o.index_of(c);
        assert(o[kc] == c);
        lemma_offset_mono(o, g, kc, o.len() as int);
        lemma_offset_nonneg(o, g, kc);
    }
    assert(r.kids(r.ids()[l]).map_values(|c: u32| r.labels()[c]) =~= g[l]);
}

proof fn lemma_built<T>(r: Data<T>, g: Map<T, Seq<T>>, o: Seq<T>)
    requires
        laid_out(r, g, o),
        obeys_key_model::<T>(),
        g.dom().finite(),
    ensures
        r.wf(),
        r@ == g,
{
    assert forall|l: T| #[trigger] r.ids().contains_key(l) implies {
        &&& r.node_ok(r.ids()[l] as int)
        &&& r.labels().contains_key(r.ids()[l])
        &&& r.labels()[r.ids()[l]] == l
    } by {
        lemma_node(r, g, o, l);
    }
    assert forall|id: u32| #[trigger] r.labels().contains_key(id) implies {
        &&& r.ids().contains_key(r.labels()[id])
        &&& r.ids()[r.labels()[id]] == id
    } by {
        let k = choose|k: int| 0 <= k < o.len() && offset(o, g, k) == id;
        assert(o.contains(o[k]));
    }
    assert forall|l: T| #[trigger] r@.contains_key(l) implies r@[l] == g[l] by {
        lemma_node(r, g, o, l);
    }
    assert(r@ =~= g);
}

/// Lays out grouped relations: identifiers, then the store.
#[verifier::rlimit(100)]
fn build<T: Copy + Eq + Hash>(agg: HashMap<T, Vec<T>>, order: Vec<T>) -> (r: Data<T>)
    requires
        obeys_key_model::<T>(),
        grouped(agg@, order@),
        closed(lists_view(agg@)),
        order@.len() + child_slots(order@, lists_view(agg@)) <= u32::MAX,
    ensures
        r.wf(),
        r.tiled(),
        r@ == lists_view(agg@),
        r.store().len() == order@.len() + child_slots(order@, lists_view(agg@)),
{
    let ghost g = lists_view(agg@);
    let ghost o = order@;
    proof {
        o.unique_seq_to_set();
        assert(o.to_set() =~= g.dom());
    }
    let (label_id_map, id_label_map) = assign_ids(&agg, &order);
    let buf = encode(&agg, &order, &label_id_map);
    let r = Data { label_id_map, id_label_map, buf };
    proof {
        assert(r.ids().dom() =~= g.dom());
        assert forall|k: int| #![trigger o[k]] 0 <= k < o.len() implies {
            let at = offset(o, g, k);
            &&& r.store()[at] == g[o[k]].len()
            &&& block(r.store(), at) == ids_of(r.ids(), g[o[k]])
        } by {
            assert(order@[k] == o[k]);
        }
        assert(forall|k: int| #![trigger o[k]] 0 <= k < o.len() ==> r.ids()[o[k]] == offset(o, g, k));
        assert(forall|id: u32| #[trigger] r.labels().contains_key(id) ==> exists|k: int|
            0 <= k < o.len() && offset(o, g, k) == id);
        assert forall|k: int| #![trigger o[k]] 0 <= k < o.len() implies r.labels().contains_key(r.ids()[o[k]])
            && r.labels()[r.ids()[o[k]]] == o[k] by {
            assert(order@[k] == o[k]);
            lemma_offset_nonneg(o, g, k);
            lemma_offset_mono(o, g, k, o.len() as int);
            assert(id_label_map@.contains_key(offset(order@, lists_view(agg@), k) as u32));
        }
        lemma_built(r, g, o);
        lemma_tiled(r, g, o);
    }
    r
}

proof fn lemma_tiled<T>(r: Data<T>, g: Map<T, Seq<T>>, o: Seq<T>)
    requires
        laid_out(r, g, o),
    ensures
        r.tiled(),
{
    assert forall|l1: T, l2: T| #[trigger] r.ids().contains_key(l1) && #[trigger] r.ids().contains_key(l2) && l1 != l2
        implies r.ids()[l1] + 1 + r.store()[r.ids()[l1] as int] <= r.ids()[l2] || r.ids()[l2] + 1 + r.store()[r.ids()[l2] as int]
        <= r.ids()[l1] by {
        assert(o.contains(l1) && o.contains(l2));
        let k1 = o.index_of(l1);
        let k2 = o.index_of(l2);
        assert(o[k1] == l1 && o[k2] == l2);
        if k1 < k2 {
            lemma_offset_mono(o, g, k1, k2);
        } else {
            lemma_offset_mono(o, g, k2, k1);
        }
    }
    assert forall|i: int| 0 <= i < r.store().len() implies #[trigger] r.covered(i) by {
        let k = lemma_offset_cover(o, g, o.len() as int, i);
        lemma_offset_step(o, g, k);
        assert(o.contains(o[k]));
        assert(r.ids().contains_key(o[k]));
    }
}

impl<T: Copy + Eq + Hash> Data<T> {
    /// Builds the structure from parent/child relations. A relation given
    /// twice adds the child twice.
    pub fn from_pairs(pairs: Vec<(T, T)>) -> (r: Self)
        requires
            obeys_key_model::<T>(),
            labels_of(pairs@).len() + pairs@.len() <= u32::MAX,
        ensures
            r.wf(),
            r@ == graph_of(pairs@),
            r.tiled(),
            r.store().len() == labels_of(pairs@).len() + pairs@.len(),
    {
        let (agg, order) = aggregate(&pairs);
        proof {
            lemma_graph_of_dom(pairs@);
            order@.unique_seq_to_set();
            assert(order@.to_set() =~= labels_of(pairs@));
        }
        build(agg, order)
    }

    /// Builds the structure from parent/child-list relations, taken in
    /// order: each parent becomes a node, also with an empty list, and each
    /// list is read as one relation per child, in list order.
    pub fn from_lists(lists: Vec<(T, Vec<T>)>) -> (r: Self)
        requires
            obeys_key_model::<T>(),
            graph_of_rows(pair_lists(lists@)).len() + edge_count(pair_lists(lists@)) <= u32::MAX,
        ensures
            r.wf(),
            r@ == graph_of_rows(pair_lists(lists@)),
            r.tiled(),
            r.store().len() == graph_of_rows(pair_lists(lists@)).len() + edge_count(pair_lists(lists@)),
    {
        let (agg, order) = aggregate_rows(&lists);
        proof {
            order@.unique_seq_to_set();
            assert(order@.to_set() =~= agg@.dom());
            assert(agg@.dom() =~= graph_of_rows(pair_lists(lists@)).dom());
        }
        build(agg, order)
    }

    /// The number of distinct labels, parents and children alike.
    pub fn get_n_nodes(&self) -> (r: usize)
        requires
            self.wf(),
        ensures
            r == self@.len(),
    {
        assert(self@.dom() =~= self.ids().dom());
        self.label_id_map.len()
    }

    /// The slots of the store that hold the children of node `id`.
    pub(crate) fn get_children_as_ids(&self, id: u32) -> (r: (usize, usize))
        requires
            self.wf(),
            self.labels().contains_key(id),
        ensures
            r.0 <= r.1 <= self.store().len(),
            self.store().subrange(r.0 as int, r.1 as int) == self.kids(id),
    {
        let ghost l = self.labels()[id];
        assert(self.ids().contains_key(l));
        assert(self.node_ok(id as int));
        let total = self.buf.len();
        let at = id as usize;
        let n = self.buf[at] as usize;
        assert(at + 1 + n <= total);
        (at + 1, at + 1 + n)
    }

    /// The labels of the children of `node`, in stored order, or `None` when
    /// `node` is not a node.
    pub fn get_children(&self, node: &T) -> (r: Option<Vec<T>>)
        requires
            self.wf(),
        ensures
            r.is_some() <==> self@.contains_key(*node),
            r matches Some(v) ==> v@ == self@[*node],
    {
        let id = match self.label_id_map.get(node) {
            Some(id) => *id,
            None => {
                return None;
            },
        };
        let (start, end) = self.get_children_as_ids(id);
        let ghost kids = self.kids(id);
        let mut out: Vec<T> = Vec::new();
        let mut j: usize = start;
        while j < end
            invariant
                self.wf(),
                self.ids().contains_key(*node),
                self.ids()[*node] == id,
                self.labels().contains_key(id),
                start <= j <= end <= self.store().len(),
                self.store().subrange(start as int, end as int) == kids,
                kids == self.kids(id),
                out@ == kids.take(j - start).map_values(|c: u32| self.labels()[c]),
            decreases end - j,
        {
            let c = self.buf[j];
            assert(kids[j - start] == c);
            assert(self.labels().contains_key(c));
            let label = match self.id_label_map.get(&c) {
                Some(l) => *l,
                // not taken: every stored child is a node
                None => {
                    return None;
                },
            };
            out.push(label);
            assert(kids.take(j + 1 - start).map_values(|c: u32| self.labels()[c]) =~= kids.take(j - start).map_values(
                |c: u32| self.labels()[c]).push(label));
            j = j + 1;
        }
        assert(kids.take(j - start) =~= kids);
        Some(out)
    }
}

} // verus!