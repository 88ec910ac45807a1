//! Weisfeiler-Lehman rooted subgraphs of the search tree, as used by a
//! graph2vec encoder.
//!
//! A node's label records its degree, whether it has a parent, its number
//! of children and its rounded distance to its parent. The subgraph of
//! depth `d` around a node is its subgraph of depth `d - 1` followed by the
//! depth `d - 1` subgraphs of its neighbours (children first, then the
//! parent), the latter stably sorted by degree.

use vstd::prelude::*;
use vstd::multiset::Multiset;
use std::collections::HashMap;
use crate::tree::{Tree, TreeView, parent_of, children_of, is_tree};
use crate::text::{decimal, push_decimal};

verus! {

/// Label of a node in a Weisfeiler-Lehman subgraph.
#[derive(Clone, Copy, Debug)]
pub struct WLabel {
    pub deg: usize,
    pub parent: usize,
    pub child: usize,
    pub par_dist_rnd: usize,
}

/// A sequence of labels.
#[derive(Clone, Debug)]
pub struct Subgraph<T> {
    pub v: Vec<T>,
}

impl<T> Subgraph<T> {
    /// A subgraph with no labels.
    pub fn empty() -> (r: Self)
        ensures
            r.v@ == Seq::<T>::empty(),
    {
        Self { v: Vec::new() }
    }

    /// Appends a label.
    pub fn push(&mut self, val: T)
        ensures
            final(self).v@ == old(self).v@.push(val),
    {
        self.v.push(val)
    }
}

/// `deg.parent.child.par_dist_rnd` in decimal.
pub open spec fn label_text(w: WLabel) -> Seq<char> {
    decimal(w.deg as nat) + seq!['.'] + decimal(w.parent as nat) + seq!['.'] + decimal(w.child as nat)
        + seq!['.'] + decimal(w.par_dist_rnd as nat)
}

/// Each label's text followed by `!`, concatenated.
pub open spec fn labels_text(s: Seq<WLabel>) -> Seq<char>
    decreases s.len(),
{
    if s.len() == 0 {
        Seq::empty()
    } else {
        labels_text(s.drop_last()) + label_text(s.last()) + seq!['!']
    }
}

impl WLabel {
    /// The label as text: `deg.parent.child.par_dist_rnd`.
    pub fn to_label(&self) -> (r: String)
        ensures
            r@ == label_text(*self),
    {
        let mut r = String::new();
        proof {
            reveal_strlit(".");
        }
        push_decimal(&mut r, self.deg);
        r.append(".");
        push_decimal(&mut r, self.parent);
        r.append(".");
        push_decimal(&mut r, self.child);
        r.append(".");
        push_decimal(&mut r, self.par_dist_rnd);
        proof {
            assert(r@ =~= label_text(*self));
        }
        r
    }
}

impl Subgraph<WLabel> {
    /// The labels as text, each followed by `!`.
    pub fn to_label_string(&self) -> (r: String)
        ensures
            r@ == labels_text(self.v@),
    {
        let mut ret = String::new();
        proof {
            reveal_strlit("!");
        }
        let mut i: usize = 0;
        while i < self.v.len()
            invariant
                i <= self.v.len(),
                ret@ == labels_text(self.v@.subrange(0, i as int)),
            decreases self.v.len() - i,
        {
            let l = self.v[i].to_label();
            ret.append(l.as_str());
            ret.append("!");
            proof {
                assert(self.v@.subrange(0, i + 1).drop_last() == self.v@.subrange(0, i as int));
                assert(self.v@.subrange(0, i + 1).last() == self.v@[i as int]);
                reveal_strlit("!");
                assert("!"@ == seq!['!']);
                assert(ret@ =~= labels_text(self.v@.subrange(0, i + 1)));
            }
            i = i + 1;
        }
        assert(self.v@.subrange(0, self.v.len() as int) == self.v@);
        ret
    }
}

/// `x` inserted into `r` after every entry of degree at most `x.deg`
/// that ends `r`.
pub open spec fn insert_by_deg(r: Seq<WLabel>, x: WLabel) -> Seq<WLabel>
    decreases r.len(),
{
    if r.len() == 0 {
        seq![x]
    } else if r.last().deg <= x.deg {
        r.push(x)
    } else {
        insert_by_deg(r.drop_last(), x).push(r.last())
    }
}

/// `s` stably sorted by degree (insertion sort).
pub open spec fn sort_by_deg(s: Seq<WLabel>) -> Seq<WLabel>
    decreases s.len(),
{
    if s.len() == 0 {
        s
    } else {
        insert_by_deg(sort_by_deg(s.drop_last()), s.last())
    }
}

/// The labels of `s` are in non-decreasing order of degree.
pub open spec fn deg_sorted(s: Seq<WLabel>) -> bool {
    forall|i: int, j: int| 0 <= i < j < s.len() ==> s[i].deg <= s[j].deg
}

/// Inserting into a sorted list keeps it sorted and adds exactly the new
/// label.
proof fn lemma_insert_by_deg(r: Seq<WLabel>, x: WLabel)
    requires
        deg_sorted(r),
    ensures
        deg_sorted(insert_by_deg(r, x)),
        insert_by_deg(r, x).to_multiset() == r.to_multiset().insert(x),
    decreases r.len(),
{
    broadcast use vstd::multiset::group_multiset_axioms, vstd::seq_lib::group_to_multiset_ensures;
    if r.len() == 0 {
        assert(insert_by_deg(r, x) =~= seq![x]);
        assert(seq![x] =~= Seq::<WLabel>::empty().push(x));
    } else if r.last().deg <= x.deg {
    } else {
        let r1 = r.drop_last();
        assert(deg_sorted(r1));
        lemma_insert_by_deg(r1, x);
        let ins = insert_by_deg(r1, x);
        assert forall|i: int| 0 <= i < ins.len() implies #[trigger] ins[i].deg <= r.last().deg by {
            assert(ins.to_multiset().count(ins[i]) > 0);
            assert(r1.to_multiset().insert(x).count(ins[i]) > 0);
            if ins[i] != x {
                assert(r1.to_multiset().count(ins[i]) > 0);
                assert(r1.contains(ins[i]));
                let j = r1.index_of(ins[i]);
                assert(r[j] == ins[i]);
            }
        }
        assert(r1.push(r.last()) =~= r);
    }
}

/// Sorting by degree orders the labels by degree and keeps exactly the
/// same labels.
pub proof fn lemma_sort_by_deg(s: Seq<WLabel>)
    ensures
        deg_sorted(sort_by_deg(s)),
        sort_by_deg(s).to_multiset() == s.to_multiset(),
    decreases s.len(),
{
    broadcast use vstd::multiset::group_multiset_axioms, vstd::seq_lib::group_to_multiset_ensures;
    if s.len() > 0 {
        lemma_sort_by_deg(s.drop_last());
        lemma_insert_by_deg(sort_by_deg(s.drop_last()), s.last());
        assert(s.drop_last().push(s.last()) =~= s);
    }
}

/// The labels of degree `g` in `s`, in their order in `s`.
pub open spec fn of_degree(s: Seq<WLabel>, g: usize) -> Seq<WLabel> {
    s.filter(|l: WLabel| l.deg == g)
}

proof fn lemma_insert_by_deg_stable(r: Seq<WLabel>, x: WLabel, g: usize)
    ensures
        of_degree(insert_by_deg(r, x), g) == if x.deg == g {
            of_degree(r, g).push(x)
        } else {
            of_degree(r, g)
        },
    decreases r.len(),
{
    broadcast use vstd::seq::Seq::lemma_filter_push;
    if r.len() == 0 {
        assert(insert_by_deg(r, x) =~= Seq::<WLabel>::empty().push(x));
        assert(r =~= Seq::<WLabel>::empty());
        reveal(Seq::filter);
        assert(of_degree(r, g) =~= Seq::<WLabel>::empty());
    } else if r.last().deg <= x.deg {
    } else {
        lemma_insert_by_deg_stable(r.drop_last(), x, g);
        assert(r.drop_last().push(r.last()) =~= r);
    }
}

/// Sorting by degree is stable: the labels of each degree keep their
/// order.
pub proof fn lemma_sort_by_deg_stable(s: Seq<WLabel>, g: usize)
    ensures
        of_degree(sort_by_deg(s), g) == of_degree(s, g),
    decreases s.len(),
{
    broadcast use vstd::seq::Seq::lemma_filter_push;
    if s.len() == 0 {
    } else {
        lemma_sort_by_deg_stable(s.drop_last(), g);
        lemma_insert_by_deg_stable(sort_by_deg(s.drop_last()), s.last(), g);
        assert(s.drop_last().push(s.last()) =~= s);
    }
}

/// The subgraph of depth `depth` extends the subgraph of depth
/// `depth - 1` around the same node.
pub proof fn lemma_wl_extends<P>(t: Tree<P>, d: Map<usize, usize>, k: usize, depth: nat)
    requires
        depth > 0,
    ensures
        spec_wl(t, d, k, (depth - 1) as nat).len() <= spec_wl(t, d, k, depth).len(),
        spec_wl(t, d, k, depth).subrange(0, spec_wl(t, d, k, (depth - 1) as nat).len() as int) == spec_wl(
            t,
            d,
            k,
            (depth - 1) as nat,
        ),
{
    let prev = spec_wl(t, d, k, (depth - 1) as nat);
    assert(spec_wl(t, d, k, depth).subrange(0, prev.len() as int) =~= prev);
}

/// The nodes next to `k` in `t`: its children in order, then its parent.
pub open spec fn neighbours_of<P>(t: Tree<P>, k: usize) -> Seq<usize> {
    match parent_of(t@, k) {
        Some(p) => t.child_seq(k).push(p),
        None => t.child_seq(k),
    }
}

/// The labels of the depth-`depth` subgraphs around the nodes of `ks`,
/// pooled together.
pub open spec fn pooled_labels<P>(t: Tree<P>, d: Map<usize, usize>, ks: Seq<usize>, depth: nat) -> Multiset<
    WLabel,
>
    decreases ks.len(),
{
    if ks.len() == 0 {
        Multiset::empty()
    } else {
        pooled_labels(t, d, ks.drop_last(), depth).add(spec_wl(t, d, ks.last(), depth).to_multiset())
    }
}

/// The total length of the depth-`depth` subgraphs around the nodes of
/// `ks`.
pub open spec fn pooled_len<P>(t: Tree<P>, d: Map<usize, usize>, ks: Seq<usize>, depth: nat) -> nat
    decreases ks.len(),
{
    if ks.len() == 0 {
        0
    } else {
        pooled_len(t, d, ks.drop_last(), depth) + spec_wl(t, d, ks.last(), depth).len()
    }
}

proof fn lemma_wl_concat_pooled<P>(t: Tree<P>, d: Map<usize, usize>, ks: Seq<usize>, depth: nat)
    ensures
        wl_concat(t, d, ks, depth).to_multiset() == pooled_labels(t, d, ks, depth),
        wl_concat(t, d, ks, depth).len() == pooled_len(t, d, ks, depth),
    decreases ks.len(),
{
    broadcast use vstd::multiset::group_multiset_axioms, vstd::seq_lib::group_to_multiset_ensures;
    if ks.len() == 0 {
        assert(wl_concat(t, d, ks, depth).to_multiset() =~= Multiset::empty());
    } else {
        lemma_wl_concat_pooled(t, d, ks.drop_last(), depth);
        vstd::seq_lib::lemma_multiset_commutative(
            wl_concat(t, d, ks.drop_last(), depth),
            spec_wl(t, d, ks.last(), depth),
        );
    }
}

/// One level deeper, a node's subgraph gains exactly the labels of the
/// neighbours' subgraphs one level less deep, each neighbour's counted
/// once, ordered by degree after the node's own shallower subgraph; so
/// its length grows by the total length of those subgraphs. Labels of one
/// degree come in neighbour order: the children's subgraphs in order,
/// then the parent's.
pub proof fn lemma_wl_gathers_neighbours<P>(t: Tree<P>, d: Map<usize, usize>, k: usize, depth: nat)
    requires
        depth > 0,
    ensures
        spec_wl(t, d, k, depth).to_multiset() == spec_wl(t, d, k, (depth - 1) as nat).to_multiset().add(
            pooled_labels(t, d, neighbours_of(t, k), (depth - 1) as nat),
        ),
        spec_wl(t, d, k, depth).len() == spec_wl(t, d, k, (depth - 1) as nat).len() + pooled_len(
            t,
            d,
            neighbours_of(t, k),
            (depth - 1) as nat,
        ),
        deg_sorted(
            spec_wl(t, d, k, depth).subrange(
                spec_wl(t, d, k, (depth - 1) as nat).len() as int,
                spec_wl(t, d, k, depth).len() as int,
            ),
        ),
        forall|g: usize|
            #[trigger] of_degree(
                spec_wl(t, d, k, depth).subrange(
                    spec_wl(t, d, k, (depth - 1) as nat).len() as int,
                    spec_wl(t, d, k, depth).len() as int,
                ),
                g,
            ) == of_degree(wl_concat(t, d, neighbours_of(t, k), (depth - 1) as nat), g),
{
    broadcast use vstd::multiset::group_multiset_axioms, vstd::seq_lib::group_to_multiset_ensures;
    let dm = (depth - 1) as nat;
    let prev = spec_wl(t, d, k, dm);
    let kids = wl_concat(t, d, t.child_seq(k), dm);
    let hood = match parent_of(t@, k) {
        Some(p) => kids + spec_wl(t, d, p, dm),
        None => kids,
    };
    let ns = neighbours_of(t, k);
    match parent_of(t@, k) {
        Some(p) => {
            assert(ns.drop_last() =~= t.child_seq(k));
            assert(wl_concat(t, d, ns, dm) == hood);
        },
        None => {
            assert(wl_concat(t, d, ns, dm) == hood);
        },
    }
    lemma_wl_concat_pooled(t, d, ns, dm);
    lemma_sort_by_deg(hood);
    vstd::seq_lib::lemma_multiset_commutative(prev, sort_by_deg(hood));
    assert(spec_wl(t, d, k, depth) == prev + sort_by_deg(hood));
    assert(spec_wl(t, d, k, depth).subrange(prev.len() as int, spec_wl(t, d, k, depth).len() as int) =~= sort_by_deg(
        hood,
    ));
    assert(sort_by_deg(hood).len() == sort_by_deg(hood).to_multiset().len());
    assert forall|g: usize|
        #[trigger] of_degree(
            spec_wl(t, d, k, depth).subrange(prev.len() as int, spec_wl(t, d, k, depth).len() as int),
            g,
        ) == of_degree(wl_concat(t, d, ns, dm), g) by {
        lemma_sort_by_deg_stable(hood, g);
    }
    assert(hood.len() == hood.to_multiset().len());
}

/// The depth-0 label of node `k`, which has `nc` children; `d[k]` is its
/// rounded distance to its parent.
pub open spec fn label0<P>(v: TreeView<P>, d: Map<usize, usize>, k: usize, nc: nat) -> WLabel {
    if parent_of(v, k) is Some {
        WLabel { deg: (nc + 1) as usize, parent: 1, child: nc as usize, par_dist_rnd: d[k] }
    } else {
        WLabel { deg: nc as usize, parent: 0, child: nc as usize, par_dist_rnd: 0 }
    }
}

/// The depth-`depth` subgraph around node `k` of `t`.
pub open spec fn spec_wl<P>(t: Tree<P>, d: Map<usize, usize>, k: usize, depth: nat) -> Seq<WLabel>
    decreases depth, 0nat,
{
    if depth == 0 {
        seq![label0(t@, d, k, t.child_seq(k).len())]
    } else {
        let kids = wl_concat(t, d, t.child_seq(k), (depth - 1) as nat);
        let hood = match parent_of(t@, k) {
            Some(p) => kids + spec_wl(t, d, p, (depth - 1) as nat),
            None => kids,
        };
        spec_wl(t, d, k, (depth - 1) as nat) + sort_by_deg(hood)
    }
}

/// The depth-`depth` subgraphs around each node of `ks`, concatenated.
pub open spec fn wl_concat<P>(t: Tree<P>, d: Map<usize, usize>, ks: Seq<usize>, depth: nat) -> Seq<WLabel>
    decreases depth, ks.len() + 1,
{
    if ks.len() == 0 {
        Seq::empty()
    } else {
        wl_concat(t, d, ks.drop_last(), depth) + spec_wl(t, d, ks.last(), depth)
    }
}

/// `x` inserted into `r` after the last entry of degree at most `x.deg`.
fn insert_sorted(r: &mut Vec<WLabel>, x: WLabel)
    ensures
        final(r)@ == insert_by_deg(old(r)@, x),
{
    let ghost r0 = r@;
    let mut j = r.len();
    proof {
        assert(r0.subrange(0, j as int) == r0);
        assert(r0.subrange(j as int, r0.len() as int) =~= Seq::<WLabel>::empty());
        assert(insert_by_deg(r0, x) + Seq::<WLabel>::empty() =~= insert_by_deg(r0, x));
    }
    while j > 0 && r[j - 1].deg > x.deg
        invariant
            j <= r.len(),
            r@ == r0,
            insert_by_deg(r0, x) == insert_by_deg(r0.subrange(0, j as int), x) + r0.subrange(
                j as int,
                r0.len() as int,
            ),
        decreases j,
    {
        proof {
            let a = r0.subrange(0, j as int);
            assert(a.drop_last() == r0.subrange(0, j - 1));
            assert(insert_by_deg(a, x) == insert_by_deg(a.drop_last(), x).push(a.last()));
            assert(insert_by_deg(a.drop_last(), x).push(a.last()) + r0.subrange(j as int, r0.len() as int)
                =~= insert_by_deg(a.drop_last(), x) + r0.subrange(j - 1, r0.len() as int));
        }
        j = j - 1;
    }
    proof {
        let a = r0.subrange(0, j as int);
        if j > 0 {
            assert(insert_by_deg(a, x) == a.push(x));
        } else {
            assert(insert_by_deg(a, x) == seq![x]);
        }
        assert(insert_by_deg(r0, x) =~= r0.insert(j as int, x));
    }
    r.insert(j, x);
}

/// `s` stably sorted by degree.
fn sort_labels(s: &Vec<WLabel>) -> (r: Vec<WLabel>)
    ensures
        r@ == sort_by_deg(s@),
{
    let mut r: Vec<WLabel> = Vec::new();
    let mut i: usize = 0;
    while i < s.len()
        invariant
            i <= s.len(),
            r@ == sort_by_deg(s@.subrange(0, i as int)),
        decreases s.len() - i,
    {
        proof {
            assert(s@.subrange(0, i + 1).drop_last() == s@.subrange(0, i as int));
        }
        insert_sorted(&mut r, s[i]);
        i = i + 1;
    }
    assert(s@.subrange(0, s.len() as int) == s@);
    r
}

/// The Weisfeiler-Lehman subgraph of depth `depth` rooted at node `node`
/// of `graph`; `dists[k]` is node `k`'s rounded distance to its parent.
pub fn get_wl<P>(node: usize, graph: &Tree<P>, depth: usize, dists: &HashMap<usize, usize>) -> (sg: Subgraph<WLabel>)
    requires
        graph.wf(),
        graph@.contains_key(node),
        forall|k: usize| #[trigger] graph@.contains_key(k) && k != 0 ==> dists@.contains_key(k),
    ensures
        sg.v@ == spec_wl(*graph, dists@, node, depth as nat),
    decreases depth,
{
    proof {
        graph.lemma_wf();
    }
    let mut sg = Subgraph::empty();
    let n = graph.get(node).unwrap();
    if depth == 0 {
        let mut deg = n.num_child;
        let mut parent: usize = 0;
        let child = deg;
        let mut par_dist_rnd: usize = 0;
        if n.par.is_some() {
            parent = 1;
            deg = deg + 1;
            par_dist_rnd = *dists.get(&node).unwrap();
        }
        sg.push(WLabel { deg, parent, child, par_dist_rnd });
        proof {
            assert(sg.v@ =~= seq![label0(graph@, dists@, node, graph.child_seq(node).len())]);
        }
    } else {
        let wl_root = get_wl(node, graph, depth - 1, dists);
        let mut wl_hood: Vec<WLabel> = Vec::new();
        let kids = &n.child;
        let mut i: usize = 0;
        while i < kids.len()
            invariant
                graph.wf(),
                is_tree(graph@),
                graph@.contains_key(node),
                kids@ == graph.child_seq(node),
                kids@.to_set() == children_of(graph@, node),
                forall|k: usize| #[trigger] graph@.contains_key(k) && k != 0 ==> dists@.contains_key(k),
                i <= kids.len(),
                depth > 0,
                wl_hood@ == wl_concat(*graph, dists@, kids@.subrange(0, i as int), (depth - 1) as nat),
            decreases kids.len() - i,
        {
            let c = kids[i];
            proof {
                assert(kids@.to_set().contains(c));
            }
            let mut sub = get_wl(c, graph, depth - 1, dists);
            proof {
                assert(kids@.subrange(0, i + 1).drop_last() == kids@.subrange(0, i as int));
            }
            wl_hood.append(&mut sub.v);
            i = i + 1;
        }
        proof {
            assert(kids@.subrange(0, kids.len() as int) == kids@);
        }
        if let Some(p) = n.par {
            let mut sub = get_wl(p, graph, depth - 1, dists);
            wl_hood.append(&mut sub.v);
        }
        let mut sorted = sort_labels(&wl_hood);
        let mut root_v = wl_root.v;
        sg.v.append(&mut root_v);
        sg.v.append(&mut sorted);
    }
    sg
}

/// The labels of the Weisfeiler-Lehman subgraph of depth `depth` rooted at
/// `node`, rendered as text.
pub fn get_str<P>(node: usize, graph: &Tree<P>, depth: usize, dists: &HashMap<usize, usize>) -> (s: String)
    requires
        graph.wf(),
        graph@.contains_key(node),
        forall|k: usize| #[trigger] graph@.contains_key(k) && k != 0 ==> dists@.contains_key(k),
    ensures
        s@ == labels_text(spec_wl(*graph, dists@, node, depth as nat)),
{
    get_wl(node, graph, depth, dists).to_label_string()
}

} // verus!
