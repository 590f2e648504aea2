//! The prerequisite graph as an edge list over plain identifiers, with the
//! notions the layering is stated in: nodes, children, parents, bounded
//! reachability and acyclicity.

use std::collections::BTreeMap;
use std::collections::BTreeSet;
use vstd::prelude::*;

verus! {

/// How many generations of children the descendant sets follow.
pub const GENERATIONS: usize = 30;

/// `n` is an endpoint of some edge.
pub open spec fn is_node(edges: Seq<(usize, usize)>, n: usize) -> bool {
    exists|i: int| 0 <= i < edges.len() && ((#[trigger] edges[i]).0 == n || edges[i].1 == n)
}

/// Some edge leads from `p` to `c`.
pub open spec fn is_edge(edges: Seq<(usize, usize)>, p: usize, c: usize) -> bool {
    exists|i: int| 0 <= i < edges.len() && (#[trigger] edges[i]).0 == p && edges[i].1 == c
}

/// Strictly increasing: sorted, and nothing occurs twice.
pub open spec fn ascending(s: Seq<usize>) -> bool {
    forall|i: int, j: int| 0 <= i < j < s.len() ==> s[i] < s[j]
}

/// The dependents of `p`, one per edge that leaves `p`, in edge order.
pub open spec fn children(edges: Seq<(usize, usize)>, p: usize) -> Seq<usize>
    decreases edges.len(),
{
    if edges.len() == 0 {
        Seq::empty()
    } else if edges.last().0 == p {
        children(edges.drop_last(), p).push(edges.last().1)
    } else {
        children(edges.drop_last(), p)
    }
}

/// The prerequisites of `c`, one per edge that enters `c`, in edge order.
pub open spec fn parents(edges: Seq<(usize, usize)>, c: usize) -> Seq<usize>
    decreases edges.len(),
{
    if edges.len() == 0 {
        Seq::empty()
    } else if edges.last().1 == c {
        parents(edges.drop_last(), c).push(edges.last().0)
    } else {
        parents(edges.drop_last(), c)
    }
}

/// `s` together with the dependents reached from `s` over the first `n` edges.
pub open spec fn expand_upto(edges: Seq<(usize, usize)>, s: Set<usize>, n: int) -> Set<usize> {
    Set::new(
        |y: usize|
            s.contains(y) || exists|j: int|
                0 <= j < n && j < edges.len() && s.contains((#[trigger] edges[j]).0) && edges[j].1
                    == y,
    )
}

/// `s` together with every dependent of a member of `s`.
pub open spec fn expand(edges: Seq<(usize, usize)>, s: Set<usize>) -> Set<usize> {
    expand_upto(edges, s, edges.len() as int)
}

/// The nodes at most `k` edges away from `c`, `c` itself included.
pub open spec fn reach(edges: Seq<(usize, usize)>, c: usize, k: nat) -> Set<usize>
    decreases k,
{
    if k == 0 {
        set![c]
    } else {
        expand(edges, reach(edges, c, (k - 1) as nat))
    }
}

/// The descendants of `c` as the layering sees them: what lies within
/// `GENERATIONS` edges of `c`, without `c`.
pub open spec fn descendants(edges: Seq<(usize, usize)>, c: usize) -> Set<usize> {
    reach(edges, c, GENERATIONS as nat).remove(c)
}

/// The nodes can be ranked so that every edge leads to a higher rank.
pub open spec fn acyclic(edges: Seq<(usize, usize)>) -> bool {
    exists|rank: Map<usize, nat>| ranks_rise(edges, rank)
}

/// Every edge leads from a lower rank to a higher one.
pub open spec fn ranks_rise(edges: Seq<(usize, usize)>, rank: Map<usize, nat>) -> bool {
    forall|i: int| 0 <= i < edges.len() ==> rank[(#[trigger] edges[i]).0] < rank[edges[i].1]
}

/// The children of a node are the ends of its edges, and no more than there
/// are edges.
pub proof fn lemma_children_members(edges: Seq<(usize, usize)>, p: usize)
    ensures
        forall|c: usize| children(edges, p).contains(c) <==> is_edge(edges, p, c),
        children(edges, p).len() <= edges.len(),
    decreases edges.len(),
{
    if edges.len() > 0 {
        let rest = edges.drop_last();
        lemma_children_members(rest, p);
        assert forall|c: usize| children(edges, p).contains(c) <==> is_edge(edges, p, c) by {
            if children(edges, p).contains(c) {
                if edges.last().0 == p && edges.last().1 == c {
                    assert(edges[edges.len() - 1].0 == p);
                } else {
                    if edges.last().0 == p {
                        let k = choose|k: int|
                            0 <= k < children(edges, p).len() && children(edges, p)[k] == c;
                        assert(children(rest, p)[k] == c);
                    }
                    assert(children(rest, p).contains(c));
                    assert(is_edge(rest, p, c));
                    let i = choose|i: int| 0 <= i < rest.len() && rest[i].0 == p && rest[i].1 == c;
                    assert(edges[i] == rest[i]);
                }
            }
            if is_edge(edges, p, c) {
                let i = choose|i: int| 0 <= i < edges.len() && edges[i].0 == p && edges[i].1 == c;
                if i == edges.len() - 1 {
                    assert(children(edges, p).last() == c);
                } else {
                    assert(rest[i] == edges[i]);
                    assert(is_edge(rest, p, c));
                    let k = choose|k: int|
                        0 <= k < children(rest, p).len() && children(rest, p)[k] == c;
                    assert(children(edges, p)[k] == c);
                }
            }
        }
    }
}

/// The parents of a node are the starts of the edges to it, and no more than
/// there are edges.
pub proof fn lemma_parents_members(edges: Seq<(usize, usize)>, c: usize)
    ensures
        forall|p: usize| parents(edges, c).contains(p) <==> is_edge(edges, p, c),
        parents(edges, c).len() <= edges.len(),
    decreases edges.len(),
{
    if edges.len() > 0 {
        let rest = edges.drop_last();
        lemma_parents_members(rest, c);
        assert forall|p: usize| parents(edges, c).contains(p) <==> is_edge(edges, p, c) by {
            if parents(edges, c).contains(p) {
                if edges.last().0 == p && edges.last().1 == c {
                    assert(edges[edges.len() - 1].0 == p);
                } else {
                    if edges.last().1 == c {
                        let k = choose|k: int|
                            0 <= k < parents(edges, c).len() && parents(edges, c)[k] == p;
                        assert(parents(rest, c)[k] == p);
                    }
                    assert(parents(rest, c).contains(p));
                    assert(is_edge(rest, p, c));
                    let i = choose|i: int| 0 <= i < rest.len() && rest[i].0 == p && rest[i].1 == c;
                    assert(edges[i] == rest[i]);
                }
            }
            if is_edge(edges, p, c) {
                let i = choose|i: int| 0 <= i < edges.len() && edges[i].0 == p && edges[i].1 == c;
                if i == edges.len() - 1 {
                    assert(parents(edges, c).last() == p);
                } else {
                    assert(rest[i] == edges[i]);
                    assert(is_edge(rest, p, c));
                    let k = choose|k: int|
                        0 <= k < parents(rest, c).len() && parents(rest, c)[k] == p;
                    assert(parents(edges, c)[k] == p);
                }
            }
        }
    }
}

/// Puts `x` into an ascending vector, unless it is there already.
pub fn insert_ascending(v: &mut Vec<usize>, x: usize)
    requires
        ascending(old(v)@),
    ensures
        ascending(final(v)@),
        forall|y: usize| final(v)@.contains(y) <==> (old(v)@.contains(y) || y == x),
{
    let mut i: usize = 0;
    while i < v.len() && v[i] < x
        invariant
            i <= v.len(),
            v@ == old(v)@,
            forall|k: int| 0 <= k < i ==> v[k] < x,
        decreases v.len() - i,
    {
        i += 1;
    }
    if i < v.len() && v[i] == x {
        assert(v@.contains(x));
        return ;
    }
    v.insert(i, x);
    proof {
        let before = old(v)@;
        let after = v@;
        assert(after[i as int] == x);
        assert forall|y: usize| after.contains(y) <==> (before.contains(y) || y == x) by {
            if after.contains(y) {
                let k = choose|k: int| 0 <= k < after.len() && after[k] == y;
                if k < i {
                    assert(before[k] == y);
                } else if k > i {
                    assert(before[k - 1] == y);
                }
            }
            if before.contains(y) {
                let k = choose|k: int| 0 <= k < before.len() && before[k] == y;
                if k < i {
                    assert(after[k] == y);
                } else {
                    assert(after[k + 1] == y);
                }
            }
        }
    }
}

/// The nodes of an edge list, ascending.
pub fn endpoints(edges: &Vec<(usize, usize)>) -> (ids: Vec<usize>)
    ensures
        ascending(ids@),
        forall|n: usize| ids@.contains(n) <==> is_node(edges@, n),
{
    let mut ids: Vec<usize> = Vec::new();
    let mut i: usize = 0;
    while i < edges.len()
        invariant
            i <= edges.len(),
            ascending(ids@),
            forall|n: usize| ids@.contains(n) <==> is_node(edges@.take(i as int), n),
        decreases edges.len() - i,
    {
        let e = edges[i];
        let ghost before = ids@;
        insert_ascending(&mut ids, e.0);
        insert_ascending(&mut ids, e.1);
        proof {
            let done = edges@.take(i as int);
            let next = edges@.take(i + 1);
            assert forall|n: usize| ids@.contains(n) <==> is_node(next, n) by {
                if is_node(next, n) {
                    let k = choose|k: int|
                        0 <= k < next.len() && (next[k].0 == n || next[k].1 == n);
                    if k < i {
                        assert(done[k] == next[k]);
                        assert(is_node(done, n));
                    }
                }
                if is_node(done, n) {
                    let k = choose|k: int|
                        0 <= k < done.len() && (done[k].0 == n || done[k].1 == n);
                    assert(next[k] == done[k]);
                }
                if n == e.0 || n == e.1 {
                    assert(next[i as int] == e);
                }
            }
        }
        i += 1;
    }
    assert(edges@.take(i as int) == edges@);
    ids
}

/// The dependents of `p`, in edge order.
pub fn children_of(edges: &Vec<(usize, usize)>, p: usize) -> (out: Vec<usize>)
    ensures
        out@ == children(edges@, p),
{
    let mut out: Vec<usize> = Vec::new();
    let mut i: usize = 0;
    while i < edges.len()
        invariant
            i <= edges.len(),
            out@ == children(edges@.take(i as int), p),
        decreases edges.len() - i,
    {
        assert(edges@.take(i + 1).drop_last() == edges@.take(i as int));
        if edges[i].0 == p {
            out.push(edges[i].1);
        }
        i += 1;
    }
    assert(edges@.take(i as int) == edges@);
    out
}

/// The prerequisites of `c`, in edge order.
pub fn parents_of(edges: &Vec<(usize, usize)>, c: usize) -> (out: Vec<usize>)
    ensures
        out@ == parents(edges@, c),
{
    let mut out: Vec<usize> = Vec::new();
    let mut i: usize = 0;
    while i < edges.len()
        invariant
            i <= edges.len(),
            out@ == parents(edges@.take(i as int), c),
        decreases edges.len() - i,
    {
        assert(edges@.take(i + 1).drop_last() == edges@.take(i as int));
        if edges[i].1 == c {
            out.push(edges[i].0);
        }
        i += 1;
    }
    assert(edges@.take(i as int) == edges@);
    out
}

/// One generation: adds to `d` the dependents of its members.
pub fn grow(edges: &Vec<(usize, usize)>, d: &mut BTreeSet<usize>)
    ensures
        final(d)@ == expand(edges@, old(d)@),
{
    let snap = d.clone();
    let mut j: usize = 0;
    while j < edges.len()
        invariant
            j <= edges.len(),
            snap@ == old(d)@,
            d@ == expand_upto(edges@, snap@, j as int),
        decreases edges.len() - j,
    {
        let e = edges[j];
        if snap.contains(&e.0) {
            d.insert(e.1);
        }
        assert(d@ =~= expand_upto(edges@, snap@, j + 1));
        j += 1;
    }
}

/// The descendants of `c`, followed for `GENERATIONS` generations.
pub fn descendants_of(edges: &Vec<(usize, usize)>, c: usize) -> (d: BTreeSet<usize>)
    ensures
        d@ == descendants(edges@, c),
{
    let mut d: BTreeSet<usize> = BTreeSet::new();
    d.insert(c);
    assert(d@ =~= reach(edges@, c, 0));
    let mut g: usize = 0;
    while g < GENERATIONS
        invariant
            g <= GENERATIONS,
            d@ == reach(edges@, c, g as nat),
        decreases GENERATIONS - g,
    {
        grow(edges, &mut d);
        g += 1;
    }
    d.remove(&c);
    d
}

/// The graph's tables, made once for an edge list: its nodes, and for each
/// node its dependents, its prerequisites and its descendants.
pub struct Adjacency {
    pub ids: Vec<usize>,
    pub kids: BTreeMap<usize, Vec<usize>>,
    pub pars: BTreeMap<usize, Vec<usize>>,
    pub desc: BTreeMap<usize, BTreeSet<usize>>,
}

impl Adjacency {
    /// The tables are those of `edges`.
    pub open spec fn wf(&self, edges: Seq<(usize, usize)>) -> bool {
        &&& ascending(self.ids@)
        &&& forall|n: usize| self.ids@.contains(n) <==> is_node(edges, n)
        &&& forall|n: usize| #[trigger] self.kids@.contains_key(n) ==> is_node(edges, n)
        &&& forall|n: usize| #[trigger]
            is_node(edges, n) ==> {
                &&& self.kids@.contains_key(n)
                &&& self.kids@[n]@ == children(edges, n)
                &&& self.pars@.contains_key(n)
                &&& self.pars@[n]@ == parents(edges, n)
                &&& self.desc@.contains_key(n)
                &&& self.desc@[n]@ == descendants(edges, n)
            }
    }

    /// The tables of the graph of `edges`.
    pub fn new(edges: &Vec<(usize, usize)>) -> (t: Self)
        ensures
            t.wf(edges@),
    {
        let ids = endpoints(edges);
        let mut kids: BTreeMap<usize, Vec<usize>> = BTreeMap::new();
        let mut pars: BTreeMap<usize, Vec<usize>> = BTreeMap::new();
        let mut desc: BTreeMap<usize, BTreeSet<usize>> = BTreeMap::new();
        let mut i: usize = 0;
        while i < ids.len()
            invariant
                i <= ids.len(),
                forall|n: usize| #[trigger] kids@.contains_key(n) ==> ids@.contains(n),
                forall|j: int|
                    0 <= j < i ==> {
                        &&& kids@.contains_key(#[trigger] ids@[j])
                        &&& kids@[ids@[j]]@ == children(edges@, ids@[j])
                        &&& pars@.contains_key(ids@[j])
                        &&& pars@[ids@[j]]@ == parents(edges@, ids@[j])
                        &&& desc@.contains_key(ids@[j])
                        &&& desc@[ids@[j]]@ == descendants(edges@, ids@[j])
                    },
            decreases ids.len() - i,
        {
            let c = ids[i];
            assert(ids@.contains(c));
            kids.insert(c, children_of(edges, c));
            pars.insert(c, parents_of(edges, c));
            desc.insert(c, descendants_of(edges, c));
            i += 1;
        }
        let t = Adjacency { ids, kids, pars, desc };
        proof {
            assert forall|n: usize| #[trigger] is_node(edges@, n) implies {
                &&& t.kids@.contains_key(n)
                &&& t.kids@[n]@ == children(edges@, n)
                &&& t.pars@.contains_key(n)
                &&& t.pars@[n]@ == parents(edges@, n)
                &&& t.desc@.contains_key(n)
                &&& t.desc@[n]@ == descendants(edges@, n)
            } by {
                let j = choose|j: int| 0 <= j < t.ids@.len() && t.ids@[j] == n;
                assert(t.kids@.contains_key(t.ids@[j]));
            }
        }
        t
    }
}

} // verus!
