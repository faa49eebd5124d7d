//! The dependency graph between cells.
//!
//! Nodes are cell coordinates; a directed edge records that the target
//! cell's displayed value depends on the source cell's value.  The
//! graph supports idempotent edge insertion, bulk removal of a node's
//! incoming edges, enumeration of a node's direct dependants, a cycle
//! test through a node, and the component connected to a node in
//! either edge direction.

use vstd::prelude::*;
use crate::coords::Coords;

verus! {

/// An edge of the dependency graph is in the list.
pub open spec fn edge_in(es: Seq<(Coords, Coords)>, a: Coords, b: Coords) -> bool {
    es.contains((a, b))
}

/// A walk along edges: at least one node, each adjacent pair an edge.
pub open spec fn is_path(es: Seq<(Coords, Coords)>, p: Seq<Coords>) -> bool {
    p.len() >= 1 && forall|i: int| 0 <= i < p.len() - 1 ==> edge_in(es, #[trigger] p[i], p[i + 1])
}

/// A node can be walked to from another (in zero or more steps).
pub open spec fn reachable(es: Seq<(Coords, Coords)>, a: Coords, b: Coords) -> bool {
    exists|p: Seq<Coords>| is_path(es, p) && p.first() == a && p.last() == b
}

/// The same edges, both ways round: the undirected view of the graph.
pub open spec fn sym_of(es: Seq<(Coords, Coords)>) -> Seq<(Coords, Coords)> {
    es + es.map_values(|e: (Coords, Coords)| (e.1, e.0))
}

/// A node can be walked to from another ignoring edge direction.
pub open spec fn ureachable(es: Seq<(Coords, Coords)>, a: Coords, b: Coords) -> bool {
    reachable(sym_of(es), a, b)
}

/// A node sits on a cycle through one of its own dependencies: some
/// direct dependant can be walked back round to the node itself.
pub open spec fn spec_has_cycle(es: Seq<(Coords, Coords)>, c: Coords) -> bool {
    exists|n: Coords| edge_in(es, c, n) && #[trigger] reachable(es, n, c)
}

/// The edge list with every edge into `target` removed.
pub open spec fn without_incoming(es: Seq<(Coords, Coords)>, target: Coords) -> Seq<
    (Coords, Coords),
>
    decreases es.len(),
{
    if es.len() == 0 {
        Seq::empty()
    } else {
        without_incoming(es.drop_last(), target) + (if es.last().1 == target {
            Seq::empty()
        } else {
            seq![es.last()]
        })
    }
}

/// The targets of the edges leaving `source`, in edge order.
pub open spec fn dependants_of(es: Seq<(Coords, Coords)>, source: Coords) -> Seq<Coords>
    decreases es.len(),
{
    if es.len() == 0 {
        Seq::empty()
    } else {
        dependants_of(es.drop_last(), source) + (if es.last().0 == source {
            seq![es.last().1]
        } else {
            Seq::empty()
        })
    }
}

/// Every node a list of edges can put into play: their endpoints.
pub open spec fn targets_of(es: Seq<(Coords, Coords)>) -> Set<Coords> {
    es.map_values(|e: (Coords, Coords)| e.1).to_set()
}

/// The node list is closed under the edges: following any edge from a
/// listed node lands on a listed node.
pub open spec fn closed_under(es: Seq<(Coords, Coords)>, r: Seq<Coords>) -> bool {
    forall|i: int|
        0 <= i < es.len() ==> (r.contains((#[trigger] es[i]).0) ==> r.contains(es[i].1))
}

/// A single node is a walk from itself to itself.
pub proof fn lemma_reachable_self(es: Seq<(Coords, Coords)>, a: Coords)
    ensures
        reachable(es, a, a),
{
    let p = seq![a];
    assert(is_path(es, p));
    assert(p.first() == a && p.last() == a);
}

/// A walk extends along one more edge.
pub proof fn lemma_reachable_step(es: Seq<(Coords, Coords)>, a: Coords, b: Coords, c: Coords)
    requires
        reachable(es, a, b),
        edge_in(es, b, c),
    ensures
        reachable(es, a, c),
{
    let p = choose|p: Seq<Coords>| is_path(es, p) && p.first() == a && p.last() == b;
    let q = p.push(c);
    assert forall|i: int| 0 <= i < q.len() - 1 implies edge_in(es, #[trigger] q[i], q[i + 1]) by {
        if i < p.len() - 1 {
            assert(q[i] == p[i] && q[i + 1] == p[i + 1]);
        } else {
            assert(q[i] == p.last() && q[i + 1] == c);
        }
    }
    assert(is_path(es, q) && q.first() == a && q.last() == c);
}

/// Walks out of a closed node list never leave it.
pub proof fn lemma_closed_reach(
    es: Seq<(Coords, Coords)>,
    r: Seq<Coords>,
    s: Coords,
    x: Coords,
)
    requires
        closed_under(es, r),
        r.contains(s),
        reachable(es, s, x),
    ensures
        r.contains(x),
{
    let p = choose|p: Seq<Coords>| is_path(es, p) && p.first() == s && p.last() == x;
    lemma_closed_path(es, r, p);
}

/// Walks whose first node is listed end on a listed node.
proof fn lemma_closed_path(es: Seq<(Coords, Coords)>, r: Seq<Coords>, p: Seq<Coords>)
    requires
        closed_under(es, r),
        is_path(es, p),
        r.contains(p.first()),
    ensures
        r.contains(p.last()),
    decreases p.len(),
{
    if p.len() == 1 {
    } else {
        let q = p.drop_last();
        assert forall|i: int| 0 <= i < q.len() - 1 implies edge_in(es, #[trigger] q[i], q[i + 1])
            by {
            assert(q[i] == p[i] && q[i + 1] == p[i + 1]);
        }
        assert(is_path(es, q));
        assert(q.first() == p.first());
        lemma_closed_path(es, r, q);
        let u = p[p.len() - 2];
        assert(q.last() == u);
        assert(edge_in(es, u, p.last()));
        let k = choose|k: int| 0 <= k < es.len() && es[k] == (u, p.last());
        assert(r.contains((es[k]).0));
        assert(r.contains(es[k].1));
    }
}

/// What survives the removal of a node's incoming edges: exactly the
/// edges that end elsewhere, their order kept, duplicates never
/// introduced.
pub proof fn lemma_without_incoming_elems(es: Seq<(Coords, Coords)>, t: Coords)
    ensures
        forall|x: (Coords, Coords)|
            #[trigger] without_incoming(es, t).contains(x) <==> es.contains(x) && x.1 != t,
        es.no_duplicates() ==> without_incoming(es, t).no_duplicates(),
    decreases es.len(),
{
    if es.len() == 0 {
    } else {
        let dl = es.drop_last();
        lemma_without_incoming_elems(dl, t);
        assert forall|x: (Coords, Coords)| #[trigger] es.contains(x) implies dl.contains(x) || x
            == es.last() by {
            let k = choose|k: int| 0 <= k < es.len() && es[k] == x;
            if k < es.len() - 1 {
                assert(dl[k] == x);
            }
        }
        assert forall|x: (Coords, Coords)| dl.contains(x) implies #[trigger] es.contains(x) by {
            let k = choose|k: int| 0 <= k < dl.len() && dl[k] == x;
            assert(es[k] == x);
        }
        assert(es.contains(es.last()));
        let w = without_incoming(es, t);
        let wd = without_incoming(dl, t);
        assert forall|x: (Coords, Coords)| #[trigger] w.contains(x) implies (es.contains(x)
            && x.1 != t) by {
            let k = choose|k: int| 0 <= k < w.len() && w[k] == x;
            if k < wd.len() {
                assert(w[k] == wd[k]);
                assert(wd.contains(x));
            } else {
                assert(x == es.last());
            }
        }
        assert forall|x: (Coords, Coords)| es.contains(x) && x.1 != t implies #[trigger] w
            .contains(x) by {
            if dl.contains(x) {
                assert(wd.contains(x));
                let k = choose|k: int| 0 <= k < wd.len() && wd[k] == x;
                assert(w[k] == wd[k]);
                assert(w[k] == x);
            } else {
                assert(x == es.last());
                assert(w[w.len() - 1] == x);
            }
        }
        if es.no_duplicates() {
            assert(dl.no_duplicates());
            if es.last().1 != t {
                assert forall|k: int| 0 <= k < dl.len() implies dl[k] != es.last() by {
                    assert(es[k] == dl[k]);
                }
                assert(!dl.contains(es.last()));
                assert(!wd.contains(es.last()));
                assert forall|k1: int, k2: int| 0 <= k1 < k2 < w.len() implies w[k1] != w[k2]
                    by {
                    if k2 < wd.len() {
                        assert(w[k1] == wd[k1] && w[k2] == wd[k2]);
                    } else {
                        assert(w[k2] == es.last());
                        assert(w[k1] == wd[k1]);
                        assert(wd.contains(wd[k1]));
                    }
                }
            }
        }
    }
}

/// The dependants list holds exactly the far ends of the node's
/// outgoing edges.
pub proof fn lemma_dependants_elems(es: Seq<(Coords, Coords)>, c: Coords)
    ensures
        forall|x: Coords|
            #[trigger] dependants_of(es, c).contains(x) <==> es.contains((c, x)),
    decreases es.len(),
{
    if es.len() == 0 {
    } else {
        let dl = es.drop_last();
        lemma_dependants_elems(dl, c);
        let d = dependants_of(es, c);
        let dd = dependants_of(dl, c);
        assert forall|x: Coords| #[trigger] d.contains(x) implies es.contains((c, x)) by {
            let k = choose|k: int| 0 <= k < d.len() && d[k] == x;
            if k < dd.len() {
                assert(d[k] == dd[k]);
                assert(dd.contains(x));
                let m = choose|m: int| 0 <= m < dl.len() && dl[m] == (c, x);
                assert(es[m] == (c, x));
            } else {
                assert(es.last() == (c, x));
                assert(es[es.len() - 1] == (c, x));
            }
        }
        assert forall|x: Coords| es.contains((c, x)) implies #[trigger] d.contains(x) by {
            let k = choose|k: int| 0 <= k < es.len() && es[k] == (c, x);
            if k < es.len() - 1 {
                assert(dl[k] == (c, x));
                assert(dl.contains((c, x)));
                assert(dd.contains(x));
                let m = choose|m: int| 0 <= m < dd.len() && dd[m] == x;
                assert(d[m] == dd[m]);
                assert(d[m] == x);
            } else {
                assert(es.last() == (c, x));
                assert(d[d.len() - 1] == x);
            }
        }
    }
}

/// Some start can walk to this node.
pub open spec fn sound_at(
    es: Seq<(Coords, Coords)>,
    starts: Seq<Coords>,
    x: Coords,
) -> bool {
    exists|s: Coords| starts.contains(s) && #[trigger] reachable(es, s, x)
}

/// The nodes a closure from `starts` can ever visit.
pub open spec fn closure_univ(es: Seq<(Coords, Coords)>, starts: Seq<Coords>) -> Set<Coords> {
    starts.to_set().union(targets_of(es))
}

/// Every node some start can walk to: computed by saturating the start
/// list under the edges.
#[verifier::rlimit(60)]
fn reach_set(edges: &Vec<(Coords, Coords)>, starts: &Vec<Coords>) -> (r: Vec<Coords>)
    ensures
        r@.no_duplicates(),
        forall|x: Coords| #[trigger] r@.contains(x) <==> sound_at(edges@, starts@, x),
{
    let ghost es = edges@;
    let ghost univ = closure_univ(es, starts@);
    proof {
        vstd::seq_lib::seq_to_set_is_finite::<Coords>(starts@);
        vstd::seq_lib::seq_to_set_is_finite::<Coords>(
            es.map_values(|e: (Coords, Coords)| e.1),
        );
        assert(univ.finite());
    }
    let mut r: Vec<Coords> = Vec::new();
    // seed with the starts themselves
    let mut i: usize = 0;
    while i < starts.len()
        invariant
            i <= starts@.len(),
            r@.no_duplicates(),
            forall|j: int| 0 <= j < i ==> r@.contains(#[trigger] starts@[j]),
            forall|k: int| 0 <= k < r@.len() ==> starts@.contains(#[trigger] r@[k]),
        decreases starts@.len() - i,
    {
        let s = starts[i];
        if !coords_contains(&r, s) {
            let ghost prev = r@;
            r.push(s);
            proof {
                assert forall|j: int| 0 <= j < i + 1 implies r@.contains(
                    #[trigger] starts@[j],
                ) by {
                    if j < i {
                        let m = choose|m: int| 0 <= m < prev.len() && prev[m] == starts@[j];
                        assert(r@[m] == starts@[j]);
                    } else {
                        assert(r@.last() == s);
                    }
                }
                assert forall|k: int| 0 <= k < r@.len() implies starts@.contains(
                    #[trigger] r@[k],
                ) by {
                    if k < prev.len() {
                        assert(r@[k] == prev[k]);
                    } else {
                        assert(r@[k] == s && s == starts@[i as int]);
                    }
                }
            }
        }
        i += 1;
    }
    proof {
        assert forall|k: int| 0 <= k < r@.len() implies sound_at(es, starts@, #[trigger] r@[k])
            by {
            lemma_reachable_self(es, r@[k]);
            assert(starts@.contains(r@[k]) && reachable(es, r@[k], r@[k]));
        }
        assert forall|k: int| 0 <= k < r@.len() implies univ.contains(#[trigger] r@[k]) by {
            assert(starts@.to_set().contains(r@[k]));
        }
    }
    // saturate: follow every edge out of the gathered set until nothing
    // new appears
    loop
        invariant
            es == edges@,
            univ == closure_univ(es, starts@),
            univ.finite(),
            r@.no_duplicates(),
            forall|j: int| 0 <= j < starts@.len() ==> r@.contains(#[trigger] starts@[j]),
            forall|k: int| 0 <= k < r@.len() ==> sound_at(es, starts@, #[trigger] r@[k]),
            forall|k: int| 0 <= k < r@.len() ==> univ.contains(#[trigger] r@[k]),
        ensures
            r@.no_duplicates(),
            forall|j: int| 0 <= j < starts@.len() ==> r@.contains(#[trigger] starts@[j]),
            forall|k: int| 0 <= k < r@.len() ==> sound_at(es, starts@, #[trigger] r@[k]),
            closed_under(es, r@),
        decreases univ.len() + 1 - r@.len(),
    {
        proof {
            assert forall|x: Coords| r@.to_set().contains(x) implies univ.contains(x) by {
                let k = choose|k: int| 0 <= k < r@.len() && r@[k] == x;
            }
            r@.unique_seq_to_set();
            vstd::set_lib::lemma_len_subset(r@.to_set(), univ);
        }
        let ghost pass_start = r@.len();
        let mut changed = false;
        let mut j: usize = 0;
        while j < edges.len()
            invariant
                es == edges@,
                univ == closure_univ(es, starts@),
                univ.finite(),
                j <= es.len(),
                r@.no_duplicates(),
                r@.len() >= pass_start,
                changed ==> r@.len() > pass_start,
                forall|jj: int| 0 <= jj < starts@.len() ==> r@.contains(
                    #[trigger] starts@[jj],
                ),
                forall|k: int| 0 <= k < r@.len() ==> sound_at(es, starts@, #[trigger] r@[k]),
                forall|k: int| 0 <= k < r@.len() ==> univ.contains(#[trigger] r@[k]),
                !changed ==> forall|m: int|
                    0 <= m < j ==> (r@.contains((#[trigger] es[m]).0) ==> r@.contains(
                        es[m].1,
                    )),
            decreases es.len() - j,
        {
            let e = edges[j];
            let has_u = coords_contains(&r, e.0);
            let has_v = coords_contains(&r, e.1);
            if has_u && !has_v {
                let ghost prev = r@;
                r.push(e.1);
                proof {
                    let k0 = choose|k0: int| 0 <= k0 < prev.len() && prev[k0] == e.0;
                    let s = choose|s: Coords|
                        starts@.contains(s) && #[trigger] reachable(es, s, prev[k0]);
                    assert(es[j as int] == e);
                    assert(edge_in(es, e.0, e.1));
                    lemma_reachable_step(es, s, e.0, e.1);
                    assert(sound_at(es, starts@, e.1));
                    assert forall|k: int| 0 <= k < r@.len() implies sound_at(
                        es,
                        starts@,
                        #[trigger] r@[k],
                    ) by {
                        if k < prev.len() {
                            assert(r@[k] == prev[k]);
                        } else {
                            assert(r@[k] == e.1);
                        }
                    }
                    assert forall|jj: int| 0 <= jj < starts@.len() implies r@.contains(
                        #[trigger] starts@[jj],
                    ) by {
                        let m = choose|m: int| 0 <= m < prev.len() && prev[m] == starts@[jj];
                        assert(r@[m] == starts@[jj]);
                    }
                    assert forall|k: int| 0 <= k < r@.len() implies univ.contains(
                        #[trigger] r@[k],
                    ) by {
                        if k < prev.len() {
                            assert(r@[k] == prev[k]);
                        } else {
                            assert(r@[k] == e.1);
                            let tgts = es.map_values(|e2: (Coords, Coords)| e2.1);
                            assert(tgts[j as int] == e.1);
                            assert(tgts.contains(e.1));
                            assert(targets_of(es).contains(e.1));
                        }
                    }
                }
                changed = true;
            }
            proof {
                if !changed {
                    assert(!(r@.contains((es[j as int]).0) && !r@.contains(es[j as int].1)));
                }
            }
            j += 1;
        }
        if !changed {
            break ;
        }
        proof {
            assert forall|x: Coords| r@.to_set().contains(x) implies univ.contains(x) by {
                let k = choose|k: int| 0 <= k < r@.len() && r@[k] == x;
            }
            r@.unique_seq_to_set();
            vstd::set_lib::lemma_len_subset(r@.to_set(), univ);
        }
    }
    proof {
        assert forall|x: Coords| sound_at(es, starts@, x) implies r@.contains(x) by {
            let s = choose|s: Coords| starts@.contains(s) && #[trigger] reachable(es, s, x);
            let m = choose|m: int| 0 <= m < starts@.len() && starts@[m] == s;
            assert(r@.contains(starts@[m]));
            lemma_closed_reach(es, r@, s, x);
        }
        assert forall|x: Coords| #[trigger] r@.contains(x) implies sound_at(es, starts@, x) by {
            let k = choose|k: int| 0 <= k < r@.len() && r@[k] == x;
        }
    }
    r
}

/// The dependency graph: a duplicate-free list of directed edges.
pub struct DepGraph {
    pub edges: Vec<(Coords, Coords)>,
}

/// Does a coordinate list hold this coordinate?
pub fn coords_contains(v: &Vec<Coords>, c: Coords) -> (r: bool)
    ensures
        r == v@.contains(c),
{
    let mut i: usize = 0;
    while i < v.len()
        invariant
            i <= v@.len(),
            forall|j: int| 0 <= j < i ==> v@[j] != c,
        decreases v@.len() - i,
    {
        if v[i].row == c.row && v[i].column == c.column {
            proof {
                assert(v@[i as int] == c);
            }
            return true;
        }
        i += 1;
    }
    false
}

/// Does the edge list hold this edge?
fn edges_contain(v: &Vec<(Coords, Coords)>, e: (Coords, Coords)) -> (r: bool)
    ensures
        r == v@.contains(e),
{
    let mut i: usize = 0;
    while i < v.len()
        invariant
            i <= v@.len(),
            forall|j: int| 0 <= j < i ==> v@[j] != e,
        decreases v@.len() - i,
    {
        if v[i].0.row == e.0.row && v[i].0.column == e.0.column && v[i].1.row == e.1.row
            && v[i].1.column == e.1.column {
            proof {
                assert(v@[i as int] == e);
            }
            return true;
        }
        i += 1;
    }
    false
}

impl DepGraph {
    /// No duplicate edges: insertion is idempotent.
    pub open spec fn wf(&self) -> bool {
        self.edges@.no_duplicates()
    }

    /// An empty graph.
    pub fn new() -> (r: DepGraph)
        ensures
            r.edges@ == Seq::<(Coords, Coords)>::empty(),
            r.wf(),
    {
        DepGraph { edges: Vec::new() }
    }

    /// Records that `target` depends on `source`; a duplicate edge
    /// changes nothing.
    pub fn add_edge(&mut self, source: Coords, target: Coords)
        requires
            old(self).wf(),
        ensures
            final(self).wf(),
            final(self).edges@ == (if old(self).edges@.contains((source, target)) {
                old(self).edges@
            } else {
                old(self).edges@.push((source, target))
            }),
    {
        if !edges_contain(&self.edges, (source, target)) {
            self.edges.push((source, target));
        }
    }

    /// Deletes every edge that ends at `target`.
    pub fn remove_incoming_edges(&mut self, target: Coords)
        requires
            old(self).wf(),
        ensures
            final(self).wf(),
            final(self).edges@ == without_incoming(old(self).edges@, target),
    {
        let mut kept: Vec<(Coords, Coords)> = Vec::new();
        let mut i: usize = 0;
        while i < self.edges.len()
            invariant
                i <= self.edges@.len(),
                self.edges@ == old(self).edges@,
                kept@ == without_incoming(self.edges@.take(i as int), target),
            decreases self.edges@.len() - i,
        {
            proof {
                let t = self.edges@.take(i + 1);
                assert(t.drop_last() =~= self.edges@.take(i as int));
                assert(t.last() == self.edges@[i as int]);
            }
            let e = self.edges[i];
            if !(e.1.row == target.row && e.1.column == target.column) {
                proof {
                    assert(e.1 != target);
                }
                kept.push(e);
            } else {
                proof {
                    assert(e.1 == target);
                }
            }
            proof {
                assert(kept@ =~= without_incoming(self.edges@.take(i + 1), target));
            }
            i += 1;
        }
        proof {
            assert(self.edges@.take(self.edges@.len() as int) =~= self.edges@);
            lemma_without_incoming_elems(self.edges@, target);
        }
        self.edges = kept;
    }

    /// True exactly when the node sits on a cycle through one of its
    /// own dependencies.
    pub fn has_cycle_through(&self, c: Coords) -> (r: bool)
        ensures
            r == spec_has_cycle(self.edges@, c),
    {
        let succs = self.dependants(c);
        let reach = reach_set(&self.edges, &succs);
        let found = coords_contains(&reach, c);
        proof {
            lemma_dependants_elems(self.edges@, c);
            if found {
                assert(sound_at(self.edges@, succs@, c));
                let s = choose|s: Coords|
                    succs@.contains(s) && #[trigger] reachable(self.edges@, s, c);
                assert(edge_in(self.edges@, c, s));
            }
            if spec_has_cycle(self.edges@, c) {
                let n = choose|n: Coords|
                    edge_in(self.edges@, c, n) && #[trigger] reachable(self.edges@, n, c);
                assert(succs@.contains(n));
                assert(sound_at(self.edges@, succs@, c));
            }
        }
        found
    }

    /// Every node connected to `c` through edges followed in either
    /// direction: the component stamped when a cycle is found.
    pub fn connected_component(&self, c: Coords) -> (r: Vec<Coords>)
        ensures
            r@.no_duplicates(),
            forall|x: Coords| #[trigger] r@.contains(x) <==> ureachable(self.edges@, c, x),
    {
        let mut both: Vec<(Coords, Coords)> = Vec::new();
        let mut i: usize = 0;
        while i < self.edges.len()
            invariant
                i <= self.edges@.len(),
                both@ == self.edges@.take(i as int),
            decreases self.edges@.len() - i,
        {
            both.push(self.edges[i]);
            proof {
                assert(both@ =~= self.edges@.take(i + 1));
            }
            i += 1;
        }
        let mut j: usize = 0;
        let ghost swapped = self.edges@.map_values(|e: (Coords, Coords)| (e.1, e.0));
        while j < self.edges.len()
            invariant
                j <= self.edges@.len(),
                swapped == self.edges@.map_values(|e: (Coords, Coords)| (e.1, e.0)),
                both@ == self.edges@ + swapped.take(j as int),
            decreases self.edges@.len() - j,
        {
            let e = self.edges[j];
            both.push((e.1, e.0));
            proof {
                assert(swapped[j as int] == (e.1, e.0));
                assert(both@ =~= self.edges@ + swapped.take(j + 1));
            }
            j += 1;
        }
        proof {
            assert(self.edges@.take(self.edges@.len() as int) =~= self.edges@);
            assert(swapped.take(swapped.len() as int) =~= swapped);
            assert(both@ =~= sym_of(self.edges@));
        }
        let mut start: Vec<Coords> = Vec::new();
        start.push(c);
        let r = reach_set(&both, &start);
        proof {
            assert(start@.len() == 1 && start@[0] == c);
            assert(start@.contains(c));
            assert forall|x: Coords| #[trigger] r@.contains(x) implies ureachable(
                self.edges@,
                c,
                x,
            ) by {
                assert(sound_at(both@, start@, x));
                let s = choose|s: Coords|
                    start@.contains(s) && #[trigger] reachable(both@, s, x);
                let m = choose|m: int| 0 <= m < start@.len() && start@[m] == s;
                assert(s == c);
            }
            assert forall|x: Coords| ureachable(self.edges@, c, x) implies #[trigger] r@
                .contains(x) by {
                assert(reachable(both@, c, x));
                assert(sound_at(both@, start@, x));
            }
        }
        r
    }

    /// The direct dependants of `source`: the targets of its outgoing
    /// edges, in edge order.
    pub fn dependants(&self, source: Coords) -> (r: Vec<Coords>)
        ensures
            r@ == dependants_of(self.edges@, source),
    {
        let mut r: Vec<Coords> = Vec::new();
        let mut i: usize = 0;
        while i < self.edges.len()
            invariant
                i <= self.edges@.len(),
                r@ == dependants_of(self.edges@.take(i as int), source),
            decreases self.edges@.len() - i,
        {
            proof {
                let t = self.edges@.take(i + 1);
                assert(t.drop_last() =~= self.edges@.take(i as int));
                assert(t.last() == self.edges@[i as int]);
            }
            let e = self.edges[i];
            if e.0.row == source.row && e.0.column == source.column {
                proof {
                    assert(e.0 == source);
                }
                r.push(e.1);
            }
            proof {
                assert(r@ =~= dependants_of(self.edges@.take(i + 1), source));
            }
            i += 1;
        }
        proof {
            assert(self.edges@.take(self.edges@.len() as int) =~= self.edges@);
        }
        r
    }
}

} // verus!
