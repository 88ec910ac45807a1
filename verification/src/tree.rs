//! The search tree grown by the RRT.
//!
//! Every node has an index, a point (of any type: the tree never looks at
//! it), the index of its parent (`None` only for the root, index 0), the
//! list of its children and their count. Indices are handed out by a
//! counter, so a parent's index is always smaller than its children's:
//! following parents always ends at the root.

use vstd::prelude::*;
use std::collections::HashMap;

verus! {

/// Representation of a node in the search tree.
pub struct Node<P> {
    /// Position of the node.
    pub pt: P,
    /// Index
    pub idx: usize,
    /// Index of the parent (`None` for the root)
    pub par: Option<usize>,
    /// Indices of the children
    pub child: Vec<usize>,
    /// Number of children
    pub num_child: usize,
}

impl<P> Node<P> {
    /// Constructor.
    pub fn new(point: P, parent: usize, idx: usize) -> (n: Self)
        ensures
            n.pt == point,
            n.idx == idx,
            n.par == Some(parent),
            n.child@ == Seq::<usize>::empty(),
            n.num_child == 0,
    {
        Node { pt: point, idx, par: Some(parent), child: Vec::new(), num_child: 0 }
    }

    /// Create the starting node.
    pub fn start(start: P) -> (n: Self)
        ensures
            n.pt == start,
            n.idx == 0,
            n.par is None,
            n.child@ == Seq::<usize>::empty(),
            n.num_child == 0,
    {
        Node { pt: start, idx: 0, par: None, child: Vec::new(), num_child: 0 }
    }

    /// The node's point.
    pub fn pnt(&self) -> (r: P)
        where P: Copy,
        ensures
            r == self.pt,
    {
        self.pt
    }
}

/// The abstract tree: each index mapped to its point and its parent.
pub type TreeView<P> = Map<usize, (P, Option<usize>)>;

/// The parent of `k` in `m`.
pub open spec fn parent_of<P>(m: TreeView<P>, k: usize) -> Option<usize> {
    m[k].1
}

/// `m` is a tree rooted at 0 in which every parent index is smaller than
/// its child's.
pub open spec fn is_tree<P>(m: TreeView<P>) -> bool {
    &&& m.contains_key(0)
    &&& parent_of(m, 0) is None
    &&& forall|k: usize|
        #![trigger parent_of(m, k)]
        m.contains_key(k) && k != 0 ==> {
            &&& parent_of(m, k) is Some
            &&& parent_of(m, k)->0 < k
            &&& m.contains_key(parent_of(m, k)->0)
        }
}

/// The indices whose parent is `k`.
pub open spec fn children_of<P>(m: TreeView<P>, k: usize) -> Set<usize> {
    Set::new(|c: usize| m.contains_key(c) && parent_of(m, c) == Some(k))
}

/// `k` is `a` or lies below `a` in `m`.
pub open spec fn descends<P>(m: TreeView<P>, a: usize, k: usize) -> bool
    decreases k,
{
    if !m.contains_key(k) {
        false
    } else if k == a {
        true
    } else {
        match parent_of(m, k) {
            Some(p) => p < k && descends(m, a, p),
            None => false,
        }
    }
}

/// The tree after adding the point `pt` as a new child `idx` of `parent`.
pub open spec fn spec_add<P>(m: TreeView<P>, parent: usize, idx: usize, pt: P) -> TreeView<P> {
    m.insert(idx, (pt, Some(parent)))
}

/// The tree after removing the single node `idx`: its children are handed
/// to its parent. The root is never removed.
pub open spec fn spec_del<P>(m: TreeView<P>, idx: usize) -> TreeView<P> {
    if idx == 0 {
        m
    } else {
        Map::new(
            |k: usize| m.contains_key(k) && k != idx,
            |k: usize|
                if parent_of(m, k) == Some(idx) {
                    (m[k].0, parent_of(m, idx))
                } else {
                    m[k]
                },
        )
    }
}

/// The tree after removing `idx` together with everything below it. The
/// root, or an index not in the tree, leaves it unchanged.
pub open spec fn spec_del_subtree<P>(m: TreeView<P>, idx: usize) -> TreeView<P> {
    if idx == 0 || !m.contains_key(idx) {
        m
    } else {
        Map::new(|k: usize| m.contains_key(k) && !descends(m, idx, k), |k: usize| m[k])
    }
}

/// Removing a node just added leaves the tree as it was: adding hangs a
/// leaf below an existing node, and removing a leaf hands no children on.
pub proof fn lemma_del_undoes_add<P>(m: TreeView<P>, parent: usize, idx: usize, pt: P)
    requires
        is_tree(m),
        m.contains_key(parent),
        !m.contains_key(idx),
    ensures
        spec_del(spec_add(m, parent, idx, pt), idx) == m,
{
    let a = spec_add(m, parent, idx, pt);
    assert(idx != 0);
    assert forall|k: usize| m.contains_key(k) implies parent_of(a, k) != Some(idx) by {
        if k != 0 {
            assert(m.contains_key(parent_of(m, k)->0));
        }
    }
    assert(spec_del(a, idx) =~= m);
}

/// The root is never removed, by either kind of removal.
pub proof fn lemma_root_stays<P>(m: TreeView<P>, idx: usize)
    requires
        is_tree(m),
    ensures
        spec_del(m, idx).contains_key(0),
        spec_del_subtree(m, idx).contains_key(0),
{
    if idx != 0 && m.contains_key(idx) && descends(m, idx, 0) {
        lemma_descends_ge(m, idx, 0);
    }
}

/// Adding a node keeps the tree a tree, when the new index is above every
/// index in it.
pub proof fn lemma_add_keeps_tree<P>(m: TreeView<P>, parent: usize, idx: usize, pt: P)
    requires
        is_tree(m),
        m.contains_key(parent),
        forall|k: usize| #[trigger] m.contains_key(k) ==> k < idx,
    ensures
        is_tree(spec_add(m, parent, idx, pt)),
        children_of(spec_add(m, parent, idx, pt), parent) == children_of(m, parent).insert(idx),
{
    let a = spec_add(m, parent, idx, pt);
    assert(0 < idx);
    assert(parent < idx);
    assert forall|k: usize| #![trigger parent_of(a, k)] a.contains_key(k) && k != 0 implies {
        &&& parent_of(a, k) is Some
        &&& parent_of(a, k)->0 < k
        &&& a.contains_key(parent_of(a, k)->0)
    } by {
        if k != idx {
            assert(parent_of(a, k) == parent_of(m, k));
            assert(m.contains_key(parent_of(m, k)->0));
        }
    }
    assert(children_of(a, parent) =~= children_of(m, parent).insert(idx));
}

/// The search tree.
pub struct Tree<P> {
    nodes: HashMap<usize, Node<P>>,
    next: usize,
}

/// The node map `m` is consistent: keys match the nodes' indices and lie
/// below `next`, parents precede their children, and each node's child
/// list holds, once each, exactly the nodes whose parent it is.
pub open spec fn nodes_wf<P>(m: Map<usize, Node<P>>, next: usize) -> bool {
    &&& m.contains_key(0)
    &&& m[0].par is None
    &&& forall|k: usize|
        #![trigger m[k]]
        m.contains_key(k) ==> {
            &&& m[k].idx == k
            &&& k < next
            &&& m[k].child@.no_duplicates()
            &&& m[k].num_child == m[k].child.len()
            &&& k != 0 ==> {
                &&& m[k].par is Some
                &&& m[k].par->0 < k
                &&& m.contains_key(m[k].par->0)
                &&& m[m[k].par->0].child@.contains(k)
            }
        }
    &&& forall|k: usize, c: usize|
        #![trigger m[k].child@.contains(c)]
        m.contains_key(k) && m[k].child@.contains(c) ==> {
            &&& m.contains_key(c)
            &&& m[c].par == Some(k)
        }
}

impl<P> View for Tree<P> {
    type V = TreeView<P>;

    closed spec fn view(&self) -> TreeView<P> {
        view_of(self.nodes@)
    }
}

/// A list of distinct keys of a finite set is no longer than the set.
proof fn lemma_distinct_len(s: Seq<usize>, d: Set<usize>)
    requires
        s.no_duplicates(),
        d.finite(),
        forall|i: int| 0 <= i < s.len() ==> d.contains(#[trigger] s[i]),
    ensures
        s.len() <= d.len(),
{
    s.unique_seq_to_set();
    assert(s.to_set().subset_of(d));
    vstd::set_lib::lemma_len_subset(s.to_set(), d);
}

/// A node's child list is shorter than the node map.
proof fn lemma_child_len_bound<P>(m: Map<usize, Node<P>>, next: usize, k: usize)
    requires
        nodes_wf(m, next),
        m.contains_key(k),
        m.dom().finite(),
    ensures
        m[k].child.len() + 1 <= m.len(),
{
    assert(m[k].idx == k);
    assert(!m[k].child@.contains(k)) by {
        if m[k].child@.contains(k) {
            assert(m[k].par == Some(k));
        }
    }
    let s = m[k].child@.push(k);
    assert forall|i: int| 0 <= i < s.len() implies m.dom().contains(#[trigger] s[i]) by {
        if i < s.len() - 1 {
            assert(m[k].child@.contains(s[i]));
        }
    }
    lemma_distinct_len(s, m.dom());
}

/// Adding node `idx == next` below `parent` keeps the node map consistent.
#[verifier::rlimit(40)]
proof fn lemma_add_wf<P>(m: Map<usize, Node<P>>, m2: Map<usize, Node<P>>, idx: usize, parent: usize)
    requires
        nodes_wf(m, idx),
        idx < usize::MAX,
        m.contains_key(parent),
        m2.dom() == m.dom().insert(idx),
        m2[parent].idx == m[parent].idx,
        m2[parent].par == m[parent].par,
        m2[parent].child@ == m[parent].child@.push(idx),
        m2[parent].num_child == m[parent].num_child + 1,
        m2[idx].idx == idx,
        m2[idx].par == Some(parent),
        m2[idx].child@.len() == 0,
        m2[idx].num_child == 0,
        forall|k: usize| k != parent && k != idx ==> #[trigger] m2[k] == m[k],
    ensures
        nodes_wf(m2, (idx + 1) as usize),
{
    assert(m[parent].idx == parent);
    assert(!m[parent].child@.contains(idx)) by {
        if m[parent].child@.contains(idx) {
            assert(m[idx].idx == idx);
        }
    }
    assert forall|k: usize| #![trigger m2[k]] m2.contains_key(k) implies {
        &&& m2[k].idx == k
        &&& k < idx + 1
        &&& m2[k].child@.no_duplicates()
        &&& m2[k].num_child == m2[k].child.len()
        &&& k != 0 ==> {
            &&& m2[k].par is Some
            &&& m2[k].par->0 < k
            &&& m2.contains_key(m2[k].par->0)
            &&& m2[m2[k].par->0].child@.contains(k)
        }
    } by {
        if k != idx {
            assert(m[k].idx == k);
            if k != 0 {
                let p = m[k].par->0;
                if p == parent {
                    assert(m[p].child@.contains(k));
                    assert(m2[p].child@[m[p].child@.index_of(k)] == k);
                }
            }
        } else {
            assert(m2[parent].child@.last() == idx);
        }
    }
    assert forall|k: usize, c: usize|
        #![trigger m2[k].child@.contains(c)]
        m2.contains_key(k) && m2[k].child@.contains(c) implies {
            &&& m2.contains_key(c)
            &&& m2[c].par == Some(k)
        } by {
        if k == parent {
            if c != idx {
                let j = m2[k].child@.index_of(c);
                assert(m[parent].child@[j] == c);
                assert(m[parent].child@.contains(c));
                assert(m[c].idx == c);
            }
        } else if k != idx {
            assert(m[k].child@.contains(c));
            assert(m[c].idx == c);
        }
    }
}

/// Keeps, in order, the entries of `v` that are keys of `nodes`.
fn retain_present<P>(nodes: &HashMap<usize, Node<P>>, v: &Vec<usize>) -> (r: Vec<usize>)
    requires
        v@.no_duplicates(),
    ensures
        r@.no_duplicates(),
        forall|k: usize| #[trigger] r@.contains(k) <==> (v@.contains(k) && nodes@.contains_key(k)),
{
    let mut r: Vec<usize> = Vec::new();
    let mut i: usize = 0;
    while i < v.len()
        invariant
            i <= v.len(),
            v@.no_duplicates(),
            r@.no_duplicates(),
            forall|k: usize| #[trigger] r@.contains(k) <==> (v@.subrange(0, i as int).contains(k)
                && nodes@.contains_key(k)),
        decreases v.len() - i,
    {
        let k = v[i];
        proof {
            assert(v@.subrange(0, i + 1) == v@.subrange(0, i as int).push(k));
            assert(!v@.subrange(0, i as int).contains(k)) by {
                if v@.subrange(0, i as int).contains(k) {
                    let j = v@.subrange(0, i as int).index_of(k);
                    assert(v@[j] == v@[i as int]);
                }
            }
        }
        let ghost r0 = r@;
        if nodes.contains_key(&k) {
            r.push(k);
            proof {
                assert(!r0.contains(k));
                assert forall|a: int, b: int| 0 <= a < r@.len() && 0 <= b < r@.len() && a != b
                    implies r@[a] != r@[b] by {
                    if a < r0.len() && b < r0.len() {
                        assert(r0[a] != r0[b]);
                    } else if a < r0.len() {
                        assert(r0.contains(r0[a]));
                    } else {
                        assert(r0.contains(r0[b]));
                    }
                }
            }
        }
        proof {
            assert forall|x: usize| #[trigger] r@.contains(x) <==> (v@.subrange(0, i + 1).contains(x)
                && nodes@.contains_key(x)) by {
                if r@.contains(x) && x != k {
                    let j = r@.index_of(x);
                    assert(r0[j] == x);
                    assert(r0.contains(x));
                }
                if r0.contains(x) {
                    let j = r0.index_of(x);
                    assert(r@[j] == x);
                }
                if v@.subrange(0, i + 1).contains(x) && x != k {
                    let j = v@.subrange(0, i + 1).index_of(x);
                    assert(v@.subrange(0, i as int)[j] == x);
                }
                if v@.subrange(0, i as int).contains(x) {
                    let j = v@.subrange(0, i as int).index_of(x);
                    assert(v@.subrange(0, i + 1)[j] == x);
                }
                if x == k && nodes@.contains_key(x) {
                    assert(r@[r@.len() - 1] == x);
                }
                if x == k {
                    assert(v@.subrange(0, i + 1)[i as int] == x);
                }
            }
        }
        i = i + 1;
    }
    assert(v@.subrange(0, v.len() as int) == v@);
    r
}

/// Makes `p` (whose node is `par`, held outside the map) the parent of each
/// node in `kids`, appending them to `par`'s child list.
fn adopt_children<P>(nodes: &mut HashMap<usize, Node<P>>, par: &mut Node<P>, kids: &Vec<usize>, p: usize)
    requires
        kids@.no_duplicates(),
        forall|c: usize| #[trigger] kids@.contains(c) ==> old(nodes)@.contains_key(c),
        old(par).num_child + kids.len() <= usize::MAX,
    ensures
        final(nodes)@.dom() == old(nodes)@.dom(),
        forall|k: usize|
            #![trigger final(nodes)@[k]]
            final(nodes)@.contains_key(k) && kids@.contains(k) ==> {
                &&& final(nodes)@[k].idx == old(nodes)@[k].idx
                &&& final(nodes)@[k].pt == old(nodes)@[k].pt
                &&& final(nodes)@[k].par == Some(p)
                &&& final(nodes)@[k].child == old(nodes)@[k].child
                &&& final(nodes)@[k].num_child == old(nodes)@[k].num_child
            },
        forall|k: usize|
            #![trigger final(nodes)@[k]]
            final(nodes)@.contains_key(k) && !kids@.contains(k) ==> final(nodes)@[k] == old(nodes)@[k],
        final(par).idx == old(par).idx,
        final(par).pt == old(par).pt,
        final(par).par == old(par).par,
        final(par).child@ == old(par).child@ + kids@,
        final(par).num_child == old(par).num_child + kids.len(),
{
    let ghost m = nodes@;
    let ghost pc = par.child@;
    let mut i: usize = 0;
    while i < kids.len()
        invariant
            kids@.no_duplicates(),
            forall|c: usize| #[trigger] kids@.contains(c) ==> m.contains_key(c),
            old(par).num_child + kids.len() <= usize::MAX,
            i <= kids.len(),
            par.idx == old(par).idx,
            par.pt == old(par).pt,
            par.par == old(par).par,
            par.child@ == pc + kids@.subrange(0, i as int),
            par.num_child == old(par).num_child + i,
            nodes@.dom() == m.dom(),
            forall|k: usize|
                #![trigger nodes@[k]]
                nodes@.contains_key(k) && kids@.subrange(0, i as int).contains(k) ==> {
                    &&& nodes@[k].idx == m[k].idx
                    &&& nodes@[k].pt == m[k].pt
                    &&& nodes@[k].par == Some(p)
                    &&& nodes@[k].child == m[k].child
                    &&& nodes@[k].num_child == m[k].num_child
                },
            forall|k: usize|
                #![trigger nodes@[k]]
                nodes@.contains_key(k) && !kids@.subrange(0, i as int).contains(k) ==> nodes@[k] == m[k],
        decreases kids.len() - i,
    {
        let c = kids[i];
        let ghost n0 = nodes@;
        proof {
            assert(kids@.contains(c));
            assert(!kids@.subrange(0, i as int).contains(c)) by {
                if kids@.subrange(0, i as int).contains(c) {
                    let j = kids@.subrange(0, i as int).index_of(c);
                    assert(kids@[j] == kids@[i as int]);
                }
            }
        }
        let mut x = nodes.remove(&c).unwrap();
        x.par = Some(p);
        nodes.insert(c, x);
        par.child.push(c);
        par.num_child = par.num_child + 1;
        proof {
            assert forall|k: usize| kids@.subrange(0, i + 1).contains(k) <==> (kids@.subrange(0, i as int).contains(k)
                || k == c) by {
                if kids@.subrange(0, i + 1).contains(k) {
                    let j = kids@.subrange(0, i + 1).index_of(k);
                    if j < i {
                        assert(kids@.subrange(0, i as int)[j] == k);
                    }
                }
                if kids@.subrange(0, i as int).contains(k) {
                    let j = kids@.subrange(0, i as int).index_of(k);
                    assert(kids@.subrange(0, i + 1)[j] == k);
                }
                if k == c {
                    assert(kids@.subrange(0, i + 1)[i as int] == k);
                }
            }
            assert(kids@.subrange(0, i + 1) == kids@.subrange(0, i as int).push(c));
        }
        i = i + 1;
    }
    assert(kids@.subrange(0, kids.len() as int) == kids@);
}

/// A list without repeats has as many entries as its set of entries.
proof fn lemma_set_len(s: Seq<usize>)
    requires
        s.no_duplicates(),
    ensures
        s.to_set().len() == s.len(),
        s.to_set().finite(),
{
    s.unique_seq_to_set();
}

/// Removing node `idx` (whose parent is `p`) and handing its children to
/// `p` keeps the node map consistent.
proof fn lemma_del_wf<P>(m: Map<usize, Node<P>>, m2: Map<usize, Node<P>>, next: usize, idx: usize, p: usize)
    requires
        nodes_wf(m, next),
        idx != 0,
        m.contains_key(idx),
        m[idx].par == Some(p),
        m2.dom() == m.dom().remove(idx),
        m2[p].idx == p,
        m2[p].par == m[p].par,
        m2[p].child@.no_duplicates(),
        m2[p].num_child == m2[p].child.len(),
        forall|c: usize| #[trigger] m2[p].child@.contains(c) <==> ((m[p].child@.contains(c) && c != idx)
            || m[idx].child@.contains(c)),
        forall|k: usize|
            #![trigger m2[k]]
            m2.contains_key(k) && k != p && m[idx].child@.contains(k) ==> {
                &&& m2[k].idx == m[k].idx
                &&& m2[k].par == Some(p)
                &&& m2[k].child == m[k].child
                &&& m2[k].num_child == m[k].num_child
            },
        forall|k: usize|
            #![trigger m2[k]]
            m2.contains_key(k) && k != p && !m[idx].child@.contains(k) ==> m2[k] == m[k],
    ensures
        nodes_wf(m2, next),
{
    assert(m[idx].idx == idx);
    assert(m[p].idx == p);
    assert forall|k: usize| #![trigger m2[k]] m2.contains_key(k) implies {
        &&& m2[k].idx == k
        &&& k < next
        &&& m2[k].child@.no_duplicates()
        &&& m2[k].num_child == m2[k].child.len()
        &&& k != 0 ==> {
            &&& m2[k].par is Some
            &&& m2[k].par->0 < k
            &&& m2.contains_key(m2[k].par->0)
            &&& m2[m2[k].par->0].child@.contains(k)
        }
    } by {
        assert(m[k].idx == k);
        if k != p && m[idx].child@.contains(k) {
            assert(m[k].par == Some(idx));
            assert(m2[p].child@.contains(k));
        } else if k != 0 {
            let q = m[k].par->0;
            assert(m[q].child@.contains(k));
            if q == idx {
                assert(m[idx].child@.contains(k));
            }
            if q == p && k != p {
                assert(m2[p].child@.contains(k));
            }
        }
    }
    assert forall|k: usize, c: usize|
        #![trigger m2[k].child@.contains(c)]
        m2.contains_key(k) && m2[k].child@.contains(c) implies {
            &&& m2.contains_key(c)
            &&& m2[c].par == Some(k)
        } by {
        if k == p {
            if m[idx].child@.contains(c) {
                assert(m[c].idx == c);
                assert(m[c].par == Some(idx));
            } else {
                assert(m[p].child@.contains(c));
                assert(m[c].par == Some(p));
                assert(!m[idx].child@.contains(c));
            }
        } else if m[idx].child@.contains(k) {
            assert(m[k].child@.contains(c));
            assert(m[c].par == Some(k));
            assert(!m[idx].child@.contains(c));
        } else {
            assert(m[k].child@.contains(c));
            assert(m[c].par == Some(k));
            assert(c != idx) by {
                if c == idx {
                    assert(m[idx].par == Some(k));
                }
            }
            assert(!m[idx].child@.contains(c)) by {
                if m[idx].child@.contains(c) {
                    assert(m[c].par == Some(idx));
                }
            }
        }
    }
}

/// The view of a node map.
pub open spec fn view_of<P>(m: Map<usize, Node<P>>) -> TreeView<P> {
    m.map_values(|n: Node<P>| (n.pt, n.par))
}

/// A descendant's index is never below its ancestor's.
proof fn lemma_descends_ge<P>(v: TreeView<P>, a: usize, k: usize)
    requires
        descends(v, a, k),
    ensures
        a <= k,
        v.contains_key(k),
    decreases k,
{
    if k != a {
        let q = parent_of(v, k)->0;
        lemma_descends_ge(v, a, q);
    }
}

/// Everything below `a` is in `s` when `a` is and `s` holds every child of
/// each of its members.
proof fn lemma_closed_holds<P>(v: TreeView<P>, s: Seq<usize>, a: usize, k: usize)
    requires
        s.contains(a),
        forall|x: usize, c: usize|
            #![trigger s.contains(x), parent_of(v, c)]
            s.contains(x) && v.contains_key(c) && parent_of(v, c) == Some(x) ==> s.contains(c),
        descends(v, a, k),
    ensures
        s.contains(k),
    decreases k,
{
    if k != a {
        let q = parent_of(v, k)->0;
        lemma_closed_holds(v, s, a, q);
    }
}

/// Removing the nodes below `idx` (the child of `p`) and dropping `idx`
/// from `p`'s child list keeps the node map consistent.
proof fn lemma_del_subtree_wf<P>(m: Map<usize, Node<P>>, m2: Map<usize, Node<P>>, next: usize, idx: usize, p: usize)
    requires
        nodes_wf(m, next),
        idx != 0,
        m.contains_key(idx),
        m[idx].par == Some(p),
        m2.dom() == m.dom().filter(|k: usize| !descends(view_of(m), idx, k)),
        m2[p].idx == p,
        m2[p].par == m[p].par,
        m2[p].child@.no_duplicates(),
        m2[p].num_child == m2[p].child.len(),
        forall|c: usize| #[trigger] m2[p].child@.contains(c) <==> (m[p].child@.contains(c) && c != idx),
        forall|k: usize| #![trigger m2[k]] m2.contains_key(k) && k != p ==> m2[k] == m[k],
    ensures
        nodes_wf(m2, next),
{
    let v = view_of(m);
    assert(m[idx].idx == idx);
    assert(m[p].idx == p);
    assert(!descends(v, idx, p)) by {
        if descends(v, idx, p) {
            lemma_descends_ge(v, idx, p);
        }
    }
    assert(m2.contains_key(p));
    assert(m2.contains_key(0)) by {
        if descends(v, idx, 0) {
            lemma_descends_ge(v, idx, 0);
        }
    }
    assert forall|k: usize| #![trigger m2[k]] m2.contains_key(k) implies {
        &&& m2[k].idx == k
        &&& k < next
        &&& m2[k].child@.no_duplicates()
        &&& m2[k].num_child == m2[k].child.len()
        &&& k != 0 ==> {
            &&& m2[k].par is Some
            &&& m2[k].par->0 < k
            &&& m2.contains_key(m2[k].par->0)
            &&& m2[m2[k].par->0].child@.contains(k)
        }
    } by {
        assert(m[k].idx == k);
        assert(!descends(v, idx, k));
        if k != 0 {
            let q = m[k].par->0;
            assert(m[q].child@.contains(k));
            assert(parent_of(v, k) == Some(q));
            assert(k != idx);
            assert(!descends(v, idx, q));
            assert(m2.contains_key(q));
        }
    }
    assert forall|k: usize, c: usize|
        #![trigger m2[k].child@.contains(c)]
        m2.contains_key(k) && m2[k].child@.contains(c) implies {
            &&& m2.contains_key(c)
            &&& m2[c].par == Some(k)
        } by {
        assert(!descends(v, idx, k));
        if k == p {
            assert(m[p].child@.contains(c));
        } else {
            assert(m[k].child@.contains(c));
        }
        assert(m[c].par == Some(k));
        assert(m[c].idx == c);
        assert(parent_of(v, c) == Some(k));
        assert(!descends(v, idx, c)) by {
            if descends(v, idx, c) {
                if c == idx {
                    assert(k == p);
                }
            }
        }
    }
}

/// The depth-first walk's invariant: `stack` and `to_del` hold, once each
/// and apart, nodes below `idx`, `idx` among them; every parent of an
/// entry other than `idx` is in `to_del`; every child of a node in
/// `to_del` is in one of the two.
pub open spec fn dfs_inv<P>(v: TreeView<P>, idx: usize, stack: Seq<usize>, to_del: Seq<usize>) -> bool {
    &&& stack.no_duplicates()
    &&& to_del.no_duplicates()
    &&& forall|x: usize| #[trigger] stack.contains(x) ==> !to_del.contains(x)
    &&& stack.contains(idx) || to_del.contains(idx)
    &&& forall|x: usize| #[trigger] stack.contains(x) ==> descends(v, idx, x)
    &&& forall|x: usize| #[trigger] to_del.contains(x) ==> descends(v, idx, x)
    &&& forall|x: usize|
        #![trigger stack.contains(x), parent_of(v, x)]
        stack.contains(x) && x != idx ==> to_del.contains(parent_of(v, x)->0)
    &&& forall|x: usize|
        #![trigger to_del.contains(x), parent_of(v, x)]
        to_del.contains(x) && x != idx ==> to_del.contains(parent_of(v, x)->0)
    &&& forall|x: usize, c: usize|
        #![trigger to_del.contains(x), parent_of(v, c)]
        to_del.contains(x) && v.contains_key(c) && parent_of(v, c) == Some(x)
            ==> stack.contains(c) || to_del.contains(c)
}

/// Popping the top of the stack gives a node in the tree, not yet
/// gathered, whose gathering keeps `to_del` within the tree.
proof fn lemma_dfs_pop<P>(v: TreeView<P>, idx: usize, s0: Seq<usize>, t0: Seq<usize>)
    requires
        dfs_inv(v, idx, s0, t0),
        s0.len() > 0,
        v.dom().finite(),
    ensures
        v.contains_key(s0.last()),
        !t0.contains(s0.last()),
        t0.len() + 1 <= v.len(),
{
    let cur = s0.last();
    assert(s0.contains(cur)) by { assert(s0[s0.len() - 1] == cur); }
    lemma_descends_ge(v, idx, cur);
    assert forall|i: int| 0 <= i < t0.push(cur).len() implies v.dom().contains(#[trigger] t0.push(cur)[i]) by {
        if i < t0.len() {
            assert(t0.contains(t0[i]));
            lemma_descends_ge(v, idx, t0[i]);
        }
    }
    assert(t0.push(cur).no_duplicates()) by {
        let t1 = t0.push(cur);
        assert forall|a: int, b: int| 0 <= a < t1.len() && 0 <= b < t1.len() && a != b
            implies t1[a] != t1[b] by {
            if a < t0.len() && b < t0.len() {
                assert(t0[a] != t0[b]);
            } else if a < t0.len() {
                assert(t0.contains(t0[a]));
            } else {
                assert(t0.contains(t0[b]));
            }
        }
    }
    lemma_distinct_len(t0.push(cur), v.dom());
}

/// Moving the top of the stack to `to_del` and pushing its children keeps
/// the walk's invariant.
proof fn lemma_dfs_step<P>(v: TreeView<P>, idx: usize, s0: Seq<usize>, t0: Seq<usize>, kids: Seq<usize>)
    requires
        dfs_inv(v, idx, s0, t0),
        is_tree(v),
        s0.len() > 0,
        kids.no_duplicates(),
        kids.to_set() == children_of(v, s0.last()),
    ensures
        dfs_inv(v, idx, s0.drop_last() + kids, t0.push(s0.last())),
{
    let cur = s0.last();
    let s1 = s0.drop_last();
    let t1 = t0.push(cur);
    let sn = s1 + kids;
    assert(s0.contains(cur)) by { assert(s0[s0.len() - 1] == cur); }
    assert forall|x: usize| #[trigger] s1.contains(x) implies s0.contains(x) && x != cur by {
        let j = s1.index_of(x);
        assert(s0[j] == x);
        if x == cur {
            assert(s0[s0.len() - 1] == cur);
        }
    }
    assert forall|x: usize| #[trigger] t1.contains(x) <==> (t0.contains(x) || x == cur) by {
        if t1.contains(x) {
            let j = t1.index_of(x);
            if j < t0.len() {
                assert(t0[j] == x);
            }
        }
        if t0.contains(x) {
            let j = t0.index_of(x);
            assert(t1[j] == x);
        }
        if x == cur {
            assert(t1[t1.len() - 1] == x);
        }
    }
    assert(t1.no_duplicates()) by {
        assert forall|a: int, b: int| 0 <= a < t1.len() && 0 <= b < t1.len() && a != b
            implies t1[a] != t1[b] by {
            if a < t0.len() && b < t0.len() {
                assert(t0[a] != t0[b]);
            } else if a < t0.len() {
                assert(t0.contains(t0[a]));
            } else {
                assert(t0.contains(t0[b]));
            }
        }
    }
    assert forall|x: usize| #[trigger] kids.contains(x) implies !s1.contains(x) && !t1.contains(x)
        && descends(v, idx, x) && x != idx && parent_of(v, x) == Some(cur) by {
        assert(kids.to_set().contains(x));
        assert(children_of(v, cur).contains(x));
        assert(x != idx) by {
            if x == idx {
                lemma_descends_ge(v, idx, cur);
            }
        }
        if s1.contains(x) {
            assert(s0.contains(x));
        }
    }
    assert(s1.no_duplicates()) by {
        assert forall|a: int, b: int| 0 <= a < s1.len() && 0 <= b < s1.len() && a != b
            implies s1[a] != s1[b] by {
            assert(s0[a] != s0[b]);
        }
    }
    assert forall|a: int, b: int| 0 <= a < s1.len() && 0 <= b < kids.len() implies s1[a] != kids[b] by {
        assert(kids.contains(kids[b]));
        assert(s1.contains(s1[a]));
    }
    vstd::seq_lib::lemma_no_dup_in_concat(s1, kids);
    assert forall|x: usize| #[trigger] sn.contains(x) <==> (s1.contains(x) || kids.contains(x)) by {
        if sn.contains(x) {
            let i = sn.index_of(x);
            if i < s1.len() {
                assert(s1[i] == x);
            } else {
                assert(kids[i - s1.len()] == x);
            }
        }
        if s1.contains(x) {
            let i = s1.index_of(x);
            assert(sn[i] == x);
        }
        if kids.contains(x) {
            let i = kids.index_of(x);
            assert(sn[s1.len() + i] == x);
        }
    }
    assert forall|x: usize| #[trigger] s0.contains(x) implies s1.contains(x) || x == cur by {
        if x != cur {
            let i = s0.index_of(x);
            assert(s1[i] == x);
        }
    }
    assert forall|x: usize, c: usize|
        #![trigger t1.contains(x), parent_of(v, c)]
        t1.contains(x) && v.contains_key(c) && parent_of(v, c) == Some(x)
            implies sn.contains(c) || t1.contains(c) by {
        if x == cur {
            assert(children_of(v, cur).contains(c));
            assert(kids.to_set().contains(c));
        } else {
            assert(t0.contains(x));
            assert(s0.contains(c) || t0.contains(c));
        }
    }
}

/// When the stack is empty, `to_del` holds exactly the nodes below `idx`.
proof fn lemma_dfs_done<P>(v: TreeView<P>, idx: usize, t: Seq<usize>)
    requires
        dfs_inv(v, idx, Seq::<usize>::empty(), t),
    ensures
        forall|k: usize| #[trigger] t.contains(k) <==> descends(v, idx, k),
{
    assert forall|k: usize| #[trigger] t.contains(k) <==> descends(v, idx, k) by {
        if descends(v, idx, k) {
            assert forall|x: usize, c: usize|
                #![trigger t.contains(x), parent_of(v, c)]
                t.contains(x) && v.contains_key(c) && parent_of(v, c) == Some(x)
                    implies t.contains(c) by {
                assert(!Seq::<usize>::empty().contains(c));
            }
            assert(!Seq::<usize>::empty().contains(idx));
            lemma_closed_holds(v, t, idx, k);
        }
    }
}

impl<P> Tree<P> {
    /// The tree is consistent.
    pub closed spec fn wf(&self) -> bool {
        nodes_wf(self.nodes@, self.next)
    }

    /// The index the next added node receives.
    pub closed spec fn next_index(&self) -> nat {
        self.next as nat
    }

    /// The child list of node `k`, in the order the tree keeps it.
    pub closed spec fn child_seq(&self, k: usize) -> Seq<usize> {
        self.nodes@[k].child@
    }

    /// What the tree's consistency means on its view.
    pub proof fn lemma_wf(&self)
        requires
            self.wf(),
        ensures
            is_tree(self@),
            self@.dom().finite(),
            self@.len() <= usize::MAX,
            forall|k: usize| #[trigger] self@.contains_key(k) ==> k < self.next_index(),
            forall|k: usize|
                #![trigger self.child_seq(k)]
                self@.contains_key(k) ==> {
                    &&& self.child_seq(k).no_duplicates()
                    &&& self.child_seq(k).to_set() == children_of(self@, k)
                    &&& self.child_seq(k).len() < usize::MAX
                },
    {
        let m = self.nodes@;
        assert(m.dom() == self@.dom());
        assert(vstd::std_specs::hash::spec_hash_map_len(&self.nodes) == m.len());
        assert forall|k: usize| #![trigger parent_of(self@, k)]
            self@.contains_key(k) && k != 0 implies {
                &&& parent_of(self@, k) is Some
                &&& parent_of(self@, k)->0 < k
                &&& self@.contains_key(parent_of(self@, k)->0)
            } by {
            assert(m.contains_key(k));
            assert(m[k].idx == k);
        }
        assert forall|k: usize| #![trigger self.child_seq(k)]
            self@.contains_key(k) implies {
                &&& self.child_seq(k).no_duplicates()
                &&& self.child_seq(k).to_set() == children_of(self@, k)
                &&& self.child_seq(k).len() < usize::MAX
            } by {
            assert(m[k].idx == k);
            assert(m.dom().finite());
            lemma_child_len_bound(m, self.next, k);
            assert forall|c: usize| self.child_seq(k).to_set().contains(c)
                <==> children_of(self@, k).contains(c) by {
                if self.child_seq(k).contains(c) {
                    assert(m[k].child@.contains(c));
                }
                if children_of(self@, k).contains(c) {
                    assert(m[c].idx == c);
                }
            }
            assert(self.child_seq(k).to_set() =~= children_of(self@, k));
        }
        assert forall|k: usize| #[trigger] self@.contains_key(k) implies k < self.next_index() by {
            assert(m[k].idx == k);
        }
    }

    /// A tree holding only the root, at `start`.
    pub fn new(start: P) -> (t: Self)
        ensures
            t.wf(),
            t@ == Map::<usize, (P, Option<usize>)>::empty().insert(0, (start, None::<usize>)),
            t.next_index() == 1,
    {
        let mut nodes: HashMap<usize, Node<P>> = HashMap::new();
        nodes.insert(0, Node::start(start));
        let t = Tree { nodes, next: 1 };
        assert(t.nodes@.dom() =~= set![0usize]);
        assert(t@ =~= Map::<usize, (P, Option<usize>)>::empty().insert(0, (start, None::<usize>)));
        t
    }

    /// Number of nodes.
    pub fn len(&self) -> (r: usize)
        ensures
            r == self@.len(),
    {
        assert(self@.dom() =~= self.nodes@.dom());
        self.nodes.len()
    }

    /// The tree holds node `k`.
    pub fn contains(&self, k: usize) -> (r: bool)
        ensures
            r == self@.contains_key(k),
    {
        self.nodes.contains_key(&k)
    }

    /// The index the next added node receives.
    pub fn next_idx(&self) -> (r: usize)
        ensures
            r == self.next_index(),
    {
        self.next
    }

    /// The node at index `k`, if any.
    pub fn get(&self, k: usize) -> (r: Option<&Node<P>>)
        requires
            self.wf(),
        ensures
            r is Some <==> self@.contains_key(k),
            r matches Some(n) ==> {
                &&& n.pt == self@[k].0
                &&& n.par == self@[k].1
                &&& n.idx == k
                &&& n.child@ == self.child_seq(k)
                &&& n.num_child == n.child.len()
            },
    {
        let r = self.nodes.get(&k);
        proof {
            if r is Some {
                assert(self.nodes@[k].idx == k);
            }
        }
        r
    }

    /// Number of children of node `k`.
    pub fn num_children(&self, k: usize) -> (r: usize)
        requires
            self.wf(),
            self@.contains_key(k),
        ensures
            r == children_of(self@, k).len(),
    {
        let n = self.get(k).unwrap();
        proof {
            self.lemma_wf();
            lemma_set_len(self.child_seq(k));
        }
        n.num_child
    }

    /// Hangs a new node at `pt` below `parent`; it receives the next index,
    /// which is returned.
    pub fn insert_node(&mut self, parent: usize, pt: P) -> (idx: usize)
        requires
            old(self).wf(),
            old(self)@.contains_key(parent),
            old(self).next_index() < usize::MAX,
        ensures
            final(self).wf(),
            idx == old(self).next_index(),
            final(self).next_index() == old(self).next_index() + 1,
            final(self)@ == spec_add(old(self)@, parent, idx, pt),
            final(self).child_seq(parent) == old(self).child_seq(parent).push(idx),
            final(self).child_seq(idx) == Seq::<usize>::empty(),
            forall|k: usize| k != parent && k != idx ==> #[trigger] final(self).child_seq(k)
                == old(self).child_seq(k),
    {
        let ghost m = self.nodes@;
        let idx = self.next;
        proof {
            assert(vstd::std_specs::hash::spec_hash_map_len(&self.nodes) == m.len());
            lemma_child_len_bound(m, self.next, parent);
        }
        let mut par = self.nodes.remove(&parent).unwrap();
        par.num_child = par.num_child + 1;
        par.child.push(idx);
        self.nodes.insert(parent, par);
        self.nodes.insert(idx, Node::new(pt, parent, idx));
        self.next = idx + 1;
        proof {
            lemma_add_wf(m, self.nodes@, idx, parent);
            assert(self@ =~= spec_add(old(self)@, parent, idx, pt));
        }
        idx
    }

    #[verifier::rlimit(60)]
    /// Remove a single node from the tree; its children are reparented to
    /// the grandparent. Index 0 (the root) is left in place.
    pub fn del(&mut self, idx: usize)
        requires
            old(self).wf(),
            idx == 0 || old(self)@.contains_key(idx),
        ensures
            final(self).wf(),
            final(self).next_index() == old(self).next_index(),
            final(self)@ == spec_del(old(self)@, idx),
    {
        if idx == 0 {
            return;
        }
        let ghost m = self.nodes@;
        proof {
            assert(m[idx].idx == idx);
            assert(vstd::std_specs::hash::spec_hash_map_len(&self.nodes) == m.len());
        }
        let rem = self.nodes.remove(&idx).unwrap();
        let p = rem.par.unwrap();
        proof {
            assert(m[p].idx == p);
            assert(m[p].child@.contains(idx));
            let s = m[p].child@ + rem.child@;
            assert forall|a: int, b: int| 0 <= a < m[p].child@.len() && 0 <= b < rem.child@.len()
                implies m[p].child@[a] != rem.child@[b] by {
                assert(m[p].child@.contains(m[p].child@[a]));
                assert(rem.child@.contains(rem.child@[b]));
            }
            vstd::seq_lib::lemma_no_dup_in_concat(m[p].child@, rem.child@);
            assert forall|i: int| 0 <= i < s.len() implies m.dom().contains(#[trigger] s[i]) by {
                if i < m[p].child@.len() {
                    assert(m[p].child@.contains(s[i]));
                } else {
                    assert(rem.child@.contains(s[i]));
                }
            }
            lemma_distinct_len(s, m.dom());
        }
        let mut par = self.nodes.remove(&p).unwrap();
        par.num_child = par.num_child - 1;
        proof {
            assert forall|c: usize| #[trigger] rem.child@.contains(c) implies self.nodes@.contains_key(c)
                && m[c].par == Some(idx) by {
                assert(m[c].idx == c);
            }
        }
        adopt_children(&mut self.nodes, &mut par, &rem.child, p);
        proof {
            vstd::seq_lib::lemma_no_dup_in_concat(m[p].child@, rem.child@);
            assert forall|a: int, b: int| 0 <= a < m[p].child@.len() && 0 <= b < rem.child@.len()
                implies m[p].child@[a] != rem.child@[b] by {
                assert(m[p].child@.contains(m[p].child@[a]));
                assert(rem.child@.contains(rem.child@[b]));
            }
        }
        let kept = retain_present(&self.nodes, &par.child);
        proof {
            let all = m[p].child@ + rem.child@;
            assert forall|c: usize| #[trigger] kept@.contains(c) <==> ((m[p].child@.contains(c)
                && c != idx) || rem.child@.contains(c)) by {
                if m[p].child@.contains(c) {
                    assert(all.contains(c)) by {
                        let j = m[p].child@.index_of(c);
                        assert(all[j] == c);
                    }
                    if c != idx {
                        assert(m[c].par == Some(p));
                        assert(c != p);
                    }
                }
                if rem.child@.contains(c) {
                    assert(all.contains(c)) by {
                        let j = rem.child@.index_of(c);
                        assert(all[m[p].child@.len() + j] == c);
                    }
                    assert(m[c].par == Some(idx));
                    assert(c != p);
                }
                if all.contains(c) {
                    let j = all.index_of(c);
                    if j < m[p].child@.len() {
                        assert(m[p].child@[j] == c);
                    } else {
                        assert(rem.child@[j - m[p].child@.len()] == c);
                    }
                }
            }
            lemma_set_len(all);
            lemma_set_len(kept@);
            assert(kept@.to_set() =~= all.to_set().remove(idx)) by {
                assert forall|c: usize| kept@.to_set().contains(c) <==> all.to_set().remove(idx).contains(c) by {
                    if all.contains(c) {
                        let j = all.index_of(c);
                        if j < m[p].child@.len() {
                            assert(m[p].child@[j] == c);
                            assert(m[p].child@.contains(c));
                        } else {
                            assert(rem.child@[j - m[p].child@.len()] == c);
                            assert(rem.child@.contains(c));
                        }
                    }
                    if kept@.contains(c) {
                        assert(all.contains(c) && c != idx) by {
                            if m[p].child@.contains(c) && c != idx {
                                let j = m[p].child@.index_of(c);
                                assert(all[j] == c);
                            } else {
                                let j = rem.child@.index_of(c);
                                assert(all[m[p].child@.len() + j] == c);
                                assert(m[c].par == Some(idx));
                            }
                        }
                    }
                }
            }
            assert(all.to_set().contains(idx)) by {
                let j = m[p].child@.index_of(idx);
                assert(all[j] == idx);
            }
        }
        par.child = kept;
        self.nodes.insert(p, par);
        proof {
            let m2 = self.nodes@;
            lemma_del_wf(m, m2, old(self).next, idx, p);
            let v = spec_del(old(self)@, idx);
            assert forall|k: usize| #[trigger] self@.contains_key(k) implies self@[k] == v[k] by {
                assert(m[k].idx == k);
                if parent_of(old(self)@, k) == Some(idx) {
                    assert(m[idx].child@.contains(k));
                }
                if m[idx].child@.contains(k) {
                    assert(m[k].par == Some(idx));
                }
            }
            assert(self@ =~= v);
        }
    }

    /// The indices of `idx` and every node below it, each once, gathered by
    /// a depth-first walk over the child lists.
    fn subtree_indices(&self, idx: usize) -> (r: Vec<usize>)
        requires
            self.wf(),
            self@.contains_key(idx),
        ensures
            r@.no_duplicates(),
            forall|k: usize| #[trigger] r@.contains(k) <==> descends(self@, idx, k),
    {
        let ghost v = self@;
        proof {
            self.lemma_wf();
        }
        let mut to_del: Vec<usize> = Vec::new();
        let mut stack: Vec<usize> = Vec::new();
        stack.push(idx);
        proof {
            assert(stack@ == seq![idx]);
            assert(stack@[0] == idx);
            assert(descends(v, idx, idx));
            assert forall|x: usize| #[trigger] stack@.contains(x) implies x == idx by {
                let i = stack@.index_of(x);
            }
        }
        while stack.len() > 0
            invariant
                self.wf(),
                v == self@,
                is_tree(v),
                v.dom().finite(),
                v.contains_key(idx),
                forall|k: usize|
                    #![trigger self.child_seq(k)]
                    v.contains_key(k) ==> {
                        &&& self.child_seq(k).no_duplicates()
                        &&& self.child_seq(k).to_set() == children_of(v, k)
                    },
                dfs_inv(v, idx, stack@, to_del@),
            decreases v.len() - to_del.len(), stack.len(),
        {
            let ghost s0 = stack@;
            let ghost t0 = to_del@;
            let cur = stack.pop().unwrap();
            proof {
                lemma_dfs_pop(v, idx, s0, t0);
            }
            let node_opt = self.get(cur);
            if let Some(node) = node_opt {
                to_del.push(cur);
                let kids = &node.child;
                let ghost s1 = stack@;
                let mut j: usize = 0;
                while j < kids.len()
                    invariant
                        j <= kids.len(),
                        stack@ == s1 + kids@.subrange(0, j as int),
                    decreases kids.len() - j,
                {
                    stack.push(kids[j]);
                    j = j + 1;
                    proof {
                        assert(stack@ == s1 + kids@.subrange(0, j as int));
                    }
                }
                proof {
                    assert(kids@.subrange(0, kids.len() as int) == kids@);
                    lemma_dfs_step(v, idx, s0, t0, kids@);
                }
            } else {
                proof {
                    assert(false);
                }
            }
        }
        proof {
            lemma_dfs_done(v, idx, to_del@);
        }
        to_del
    }

    /// Remove a node and all of its children. The root, or an index not in
    /// the tree, leaves the tree unchanged.
    pub fn del_subtree(&mut self, idx: usize)
        requires
            old(self).wf(),
        ensures
            final(self).wf(),
            final(self).next_index() == old(self).next_index(),
            final(self)@ == spec_del_subtree(old(self)@, idx),
    {
        if idx == 0 {
            return;
        }
        if !self.nodes.contains_key(&idx) {
            return;
        }
        let ghost m = self.nodes@;
        let ghost v = self@;
        let p = self.nodes.get(&idx).unwrap().par.unwrap();
        proof {
            assert(m[idx].idx == idx);
            assert(m[p].idx == p);
            assert(m[p].child@.contains(idx));
        }
        let to_del = self.subtree_indices(idx);
        let mut i: usize = 0;
        while i < to_del.len()
            invariant
                i <= to_del.len(),
                self.next == old(self).next,
                forall|k: usize| #[trigger] self.nodes@.contains_key(k) <==> (m.contains_key(k)
                    && !to_del@.subrange(0, i as int).contains(k)),
                forall|k: usize| #[trigger] self.nodes@.contains_key(k) ==> self.nodes@[k] == m[k],
            decreases to_del.len() - i,
        {
            let k = to_del[i];
            self.nodes.remove(&k);
            proof {
                assert forall|x: usize| to_del@.subrange(0, i + 1).contains(x) <==> (to_del@.subrange(0, i as int).contains(x)
                    || x == k) by {
                    if to_del@.subrange(0, i + 1).contains(x) {
                        let j = to_del@.subrange(0, i + 1).index_of(x);
                        if j < i {
                            assert(to_del@.subrange(0, i as int)[j] == x);
                        }
                    }
                    if to_del@.subrange(0, i as int).contains(x) {
                        let j = to_del@.subrange(0, i as int).index_of(x);
                        assert(to_del@.subrange(0, i + 1)[j] == x);
                    }
                    if x == k {
                        assert(to_del@.subrange(0, i + 1)[i as int] == x);
                    }
                }
            }
            i = i + 1;
        }
        proof {
            assert(to_del@.subrange(0, to_del.len() as int) == to_del@);
            assert(!descends(v, idx, p)) by {
                if descends(v, idx, p) {
                    lemma_descends_ge(v, idx, p);
                }
            }
            assert(self.nodes@.contains_key(p));
        }
        let mut par = self.nodes.remove(&p).unwrap();
        par.num_child = par.num_child - 1;
        let kept = retain_present(&self.nodes, &par.child);
        proof {
            assert forall|c: usize| #[trigger] kept@.contains(c) <==> (m[p].child@.contains(c) && c != idx) by {
                if m[p].child@.contains(c) {
                    assert(m[c].par == Some(p));
                    assert(m[c].idx == c);
                    if c != idx {
                        assert(parent_of(v, c) == Some(p));
                        assert(!descends(v, idx, c));
                    }
                }
            }
            lemma_set_len(m[p].child@);
            lemma_set_len(kept@);
            assert(kept@.to_set() =~= m[p].child@.to_set().remove(idx));
        }
        par.child = kept;
        self.nodes.insert(p, par);
        proof {
            let m2 = self.nodes@;
            assert(m2.dom() =~= m.dom().filter(|k: usize| !descends(view_of(m), idx, k)));
            lemma_del_subtree_wf(m, m2, self.next, idx, p);
            assert(self@ =~= spec_del_subtree(old(self)@, idx));
        }
    }

    /// The map from indices to nodes.
    pub fn nodes(&self) -> (r: &HashMap<usize, Node<P>>)
        requires
            self.wf(),
        ensures
            r@.dom() == self@.dom(),
            forall|k: usize| #[trigger] r@.contains_key(k) ==> r@[k].pt == self@[k].0
                && r@[k].par == self@[k].1 && r@[k].idx == k && r@[k].child@ == self.child_seq(k),
    {
        assert(self@.dom() =~= self.nodes@.dom());
        &self.nodes
    }
}

} // verus!
