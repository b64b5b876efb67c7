//! The dependency graph of a set of packages, as a mathematical object:
//! which names a name depends on, what a depth-first walk reaches, when that
//! walk meets a name twice, and how the names fall into install levels.

use vstd::prelude::*;

verus! {

/// Each name, mapped to the names it depends on.
pub type Graph = Map<Seq<char>, Set<Seq<char>>>;

/// `u` depends on `v`.
pub open spec fn edge(g: Graph, u: Seq<char>, v: Seq<char>) -> bool {
    g.contains_key(u) && g[u].contains(v)
}

/// The step from position `i` of `p` to position `i + 1` is an edge.
pub open spec fn step(g: Graph, p: Seq<Seq<char>>, i: int) -> bool {
    edge(g, p[i], p[i + 1])
}

/// `p` is a nonempty walk along edges.
pub open spec fn is_path(g: Graph, p: Seq<Seq<char>>) -> bool {
    &&& p.len() >= 1
    &&& forall|i: int| 0 <= i < p.len() - 1 ==> #[trigger] step(g, p, i)
}

/// No name of `p` is in `s`.
pub open spec fn avoids(p: Seq<Seq<char>>, s: Set<Seq<char>>) -> bool {
    forall|i: int| 0 <= i < p.len() ==> !s.contains(#[trigger] p[i])
}

/// `p` is a walk from `x` to `v` that stays outside `s`.
pub open spec fn walk_from(g: Graph, p: Seq<Seq<char>>, x: Seq<char>, s: Set<Seq<char>>) -> bool {
    is_path(g, p) && p[0] == x && avoids(p, s)
}

/// The names that a walk from `x` reaches without entering `s`.
pub open spec fn reach(g: Graph, x: Seq<char>, s: Set<Seq<char>>) -> Set<Seq<char>> {
    Set::new(|v: Seq<char>| exists|p: Seq<Seq<char>>| #[trigger] walk_from(g, p, x, s) && p.last() == v)
}

/// Some name of `t` other than `u` depends on `v`.
pub open spec fn second_in_edge(g: Graph, t: Set<Seq<char>>, u: Seq<char>, v: Seq<char>) -> bool {
    exists|w: Seq<char>| w != u && t.contains(w) && #[trigger] edge(g, w, v)
}

/// Following the edge `u -> v` out of the reached set `t` meets a name met
/// before: one in `s`, the start `x`, or one with another way in from `t`.
pub open spec fn revisit(g: Graph, t: Set<Seq<char>>, s: Set<Seq<char>>, x: Seq<char>, u: Seq<char>, v: Seq<char>) -> bool {
    &&& t.contains(u)
    &&& edge(g, u, v)
    &&& (s.contains(v) || v == x || second_in_edge(g, t, u, v))
}

/// A depth-first walk from `x` that starts with the names of `s` visited
/// meets some name a second time: `x` itself is in `s`, or an edge out of
/// the names it reaches leads back into `s`, to `x`, or to a name that
/// another of those names also leads to.
pub open spec fn meets_visited(g: Graph, x: Seq<char>, s: Set<Seq<char>>) -> bool {
    ||| s.contains(x)
    ||| exists|u: Seq<char>, v: Seq<char>| #[trigger] revisit(g, reach(g, x, s), s, x, u, v)
}

/// Some name of the graph is met twice by the walk that starts from it.
pub open spec fn graph_rejected(g: Graph) -> bool {
    exists|k: Seq<char>| g.contains_key(k) && #[trigger] meets_visited(g, k, Set::empty())
}

/// A walk of at least one edge leads from a name back to itself.
pub open spec fn has_cycle(g: Graph) -> bool {
    exists|p: Seq<Seq<char>>| #[trigger] is_path(g, p) && p.len() >= 2 && p[0] == p.last()
}

/// Every name the graph mentions is a name of the graph.
pub open spec fn closed(g: Graph) -> bool {
    forall|u: Seq<char>, v: Seq<char>| #[trigger] edge(g, u, v) ==> g.contains_key(v)
}

// ----------------------------- lemmas ------------------------------ //

pub proof fn lemma_start_reached(g: Graph, x: Seq<char>, s: Set<Seq<char>>)
    ensures
        !s.contains(x) ==> reach(g, x, s).contains(x),
        s.contains(x) ==> reach(g, x, s) =~= Set::empty(),
        reach(g, x, s).disjoint(s),
{
    if !s.contains(x) {
        let p = seq![x];
        assert(walk_from(g, p, x, s));
    }
    assert forall|v: Seq<char>| reach(g, x, s).contains(v) implies !s.contains(v) && !s.contains(x) by {
        let p = choose|p: Seq<Seq<char>>| #[trigger] walk_from(g, p, x, s) && p.last() == v;
        assert(!s.contains(p[p.len() - 1]));
        assert(!s.contains(p[0]));
    }
}

/// A reached name's successors outside `s` are reached.
pub proof fn lemma_reach_step(g: Graph, x: Seq<char>, s: Set<Seq<char>>, u: Seq<char>, v: Seq<char>)
    requires
        reach(g, x, s).contains(u),
        edge(g, u, v),
        !s.contains(v),
    ensures
        reach(g, x, s).contains(v),
{
    let p = choose|p: Seq<Seq<char>>| #[trigger] walk_from(g, p, x, s) && p.last() == u;
    let q = p.push(v);
    assert forall|i: int| 0 <= i < q.len() - 1 implies #[trigger] step(g, q, i) by {
        if i < p.len() - 1 {
            assert(step(g, p, i));
        }
    }
    assert(avoids(q, s));
    assert(walk_from(g, q, x, s));
}

/// A reached name other than the start has a reached predecessor.
pub proof fn lemma_reach_pred(g: Graph, x: Seq<char>, s: Set<Seq<char>>, v: Seq<char>) -> (w: Seq<char>)
    requires
        reach(g, x, s).contains(v),
        v != x,
    ensures
        reach(g, x, s).contains(w),
        edge(g, w, v),
{
    let p = choose|p: Seq<Seq<char>>| #[trigger] walk_from(g, p, x, s) && p.last() == v;
    let q = p.drop_last();
    assert(p.len() >= 2);
    assert(step(g, p, p.len() - 2));
    assert forall|i: int| 0 <= i < q.len() - 1 implies #[trigger] step(g, q, i) by {
        assert(step(g, p, i));
    }
    assert(walk_from(g, q, x, s));
    q.last()
}

/// What a successor reaches outside a larger visited set, the start reaches.
pub proof fn lemma_reach_child(g: Graph, k: Seq<char>, s0: Set<Seq<char>>, y: Seq<char>, s1: Set<Seq<char>>)
    requires
        !s0.contains(k),
        edge(g, k, y),
        s0.subset_of(s1),
    ensures
        reach(g, y, s1).subset_of(reach(g, k, s0)),
{
    assert forall|v: Seq<char>| reach(g, y, s1).contains(v) implies reach(g, k, s0).contains(v) by {
        let p = choose|p: Seq<Seq<char>>| #[trigger] walk_from(g, p, y, s1) && p.last() == v;
        let q = seq![k] + p;
        assert forall|i: int| 0 <= i < q.len() - 1 implies #[trigger] step(g, q, i) by {
            if i > 0 {
                assert(step(g, p, i - 1));
            }
        }
        assert forall|i: int| 0 <= i < q.len() implies !s0.contains(#[trigger] q[i]) by {
            if i > 0 {
                assert(q[i] == p[i - 1]);
            }
        }
        assert(q.last() == p.last());
        assert(walk_from(g, q, k, s0));
    }
}

/// A set holding the start that every edge out of it leaves only into `s`
/// or into itself holds all the start reaches.
pub proof fn lemma_reach_least(g: Graph, x: Seq<char>, s: Set<Seq<char>>, u: Set<Seq<char>>)
    requires
        u.contains(x),
        forall|a: Seq<char>, b: Seq<char>| u.contains(a) && #[trigger] edge(g, a, b) && !s.contains(b) ==> u.contains(b),
    ensures
        reach(g, x, s).subset_of(u),
{
    assert forall|v: Seq<char>| reach(g, x, s).contains(v) implies u.contains(v) by {
        let p = choose|p: Seq<Seq<char>>| #[trigger] walk_from(g, p, x, s) && p.last() == v;
        assert forall|i: int| 0 <= i < p.len() implies u.contains(#[trigger] p[i]) by {
            lemma_path_prefix_in(g, p, s, u, i);
        }
    }
}

proof fn lemma_path_prefix_in(g: Graph, p: Seq<Seq<char>>, s: Set<Seq<char>>, u: Set<Seq<char>>, i: int)
    requires
        is_path(g, p),
        avoids(p, s),
        u.contains(p[0]),
        forall|a: Seq<char>, b: Seq<char>| u.contains(a) && #[trigger] edge(g, a, b) && !s.contains(b) ==> u.contains(b),
        0 <= i < p.len(),
    ensures
        u.contains(p[i]),
    decreases i,
{
    if i > 0 {
        lemma_path_prefix_in(g, p, s, u, i - 1);
        assert(step(g, p, i - 1));
        assert(!s.contains(p[i]));
    }
}

/// A cycle is met twice by the walk from any of its names.
pub proof fn lemma_cycle_rejected(g: Graph, p: Seq<Seq<char>>)
    requires
        is_path(g, p),
        p.len() >= 2,
        p[0] == p.last(),
    ensures
        g.contains_key(p[0]),
        meets_visited(g, p[0], Set::empty()),
{
    let s = Set::<Seq<char>>::empty();
    let x = p[0];
    let q = p.drop_last();
    assert(step(g, p, 0));
    assert forall|i: int| 0 <= i < q.len() - 1 implies #[trigger] step(g, q, i) by {
        assert(step(g, p, i));
    }
    assert(walk_from(g, q, x, s));
    let u = q.last();
    assert(reach(g, x, s).contains(u));
    assert(step(g, p, p.len() - 2));
    assert(edge(g, u, x));
    assert(revisit(g, reach(g, x, s), s, x, u, x));
}

/// A graph that no walk meets twice has no cycle.
pub proof fn lemma_accepted_acyclic(g: Graph)
    requires
        !graph_rejected(g),
    ensures
        !has_cycle(g),
{
    if has_cycle(g) {
        let p = choose|p: Seq<Seq<char>>| #[trigger] is_path(g, p) && p.len() >= 2 && p[0] == p.last();
        lemma_cycle_rejected(g, p);
        assert(meets_visited(g, p[0], Set::empty()));
    }
}


// ------------------ a walk from `k` part way through ------------------ //

/// `u -> v` is an edge the walk from `k` has followed once the successors of
/// `k` in `done` are handled.
pub open spec fn pedge(g: Graph, k: Seq<char>, done: Set<Seq<char>>, u: Seq<char>, v: Seq<char>) -> bool {
    edge(g, u, v) && (u != k || done.contains(v))
}

pub open spec fn second_pedge(g: Graph, k: Seq<char>, done: Set<Seq<char>>, t: Set<Seq<char>>, u: Seq<char>, v: Seq<char>) -> bool {
    exists|w: Seq<char>| w != u && t.contains(w) && #[trigger] pedge(g, k, done, w, v)
}

pub open spec fn previsit(g: Graph, k: Seq<char>, done: Set<Seq<char>>, t: Set<Seq<char>>, s: Set<Seq<char>>, u: Seq<char>, v: Seq<char>) -> bool {
    &&& t.contains(u)
    &&& pedge(g, k, done, u, v)
    &&& (s.contains(v) || v == k || second_pedge(g, k, done, t, u, v))
}

/// The walk from `k`, with the successors in `done` handled, has met a name twice.
pub open spec fn partial_meets(g: Graph, k: Seq<char>, done: Set<Seq<char>>, t: Set<Seq<char>>, s: Set<Seq<char>>) -> bool {
    exists|u: Seq<char>, v: Seq<char>| #[trigger] previsit(g, k, done, t, s, u, v)
}

/// What the walk from `k` knows about the names `t` it has visited so far.
pub open spec fn walk_state(g: Graph, k: Seq<char>, done: Set<Seq<char>>, t: Set<Seq<char>>, s: Set<Seq<char>>) -> bool {
    &&& !s.contains(k)
    &&& g.contains_key(k)
    &&& done.subset_of(g[k])
    &&& t.contains(k)
    &&& t.disjoint(s)
    &&& t.subset_of(reach(g, k, s))
    &&& forall|u: Seq<char>, v: Seq<char>| t.contains(u) && #[trigger] pedge(g, k, done, u, v) ==> s.contains(v) || t.contains(v)
    &&& forall|v: Seq<char>| t.contains(v) && v != k ==> exists|w: Seq<char>| t.contains(w) && #[trigger] pedge(g, k, done, w, v)
}

pub proof fn lemma_walk_start(g: Graph, k: Seq<char>, s: Set<Seq<char>>)
    requires
        !s.contains(k),
        g.contains_key(k),
    ensures
        walk_state(g, k, Set::empty(), set![k], s),
        !partial_meets(g, k, Set::empty(), set![k], s),
{
    lemma_start_reached(g, k, s);
}

/// Handling one more successor `y` of `k` adds what `y` reaches outside the
/// names visited so far; the walk has now met a name twice exactly when it
/// had before or the walk from `y` does.
pub proof fn lemma_walk_child(g: Graph, k: Seq<char>, done: Set<Seq<char>>, t: Set<Seq<char>>, s: Set<Seq<char>>, y: Seq<char>)
    requires
        walk_state(g, k, done, t, s),
        edge(g, k, y),
        !done.contains(y),
    ensures
        walk_state(g, k, done.insert(y), t.union(reach(g, y, s.union(t))), s),
        partial_meets(g, k, done.insert(y), t.union(reach(g, y, s.union(t))), s)
            == (meets_visited(g, y, s.union(t)) || partial_meets(g, k, done, t, s)),
{
    let si = s.union(t);
    let r = reach(g, y, si);
    let t2 = t.union(r);
    let done2 = done.insert(y);
    lemma_reach_child(g, k, s, y, si);
    lemma_start_reached(g, y, si);
    assert(r.disjoint(si));
    // Every followed edge leaves the visited names only into `s`.
    assert forall|u: Seq<char>, v: Seq<char>| t2.contains(u) && #[trigger] pedge(g, k, done2, u, v) implies s.contains(v) || t2.contains(v) by {
        if r.contains(u) {
            if !si.contains(v) {
                lemma_reach_step(g, y, si, u, v);
            }
        } else if u == k && v == y {
        } else {
            assert(pedge(g, k, done, u, v));
        }
    }
    // Every visited name but `k` has a followed edge into it.
    assert forall|v: Seq<char>| t2.contains(v) && v != k implies exists|w: Seq<char>| t2.contains(w) && #[trigger] pedge(g, k, done2, w, v) by {
        if t.contains(v) {
            let w = choose|w: Seq<char>| t.contains(w) && #[trigger] pedge(g, k, done, w, v);
            assert(pedge(g, k, done2, w, v));
        } else if v == y {
            assert(pedge(g, k, done2, k, v));
        } else {
            let w = lemma_reach_pred(g, y, si, v);
            assert(pedge(g, k, done2, w, v));
        }
    }
    // Old evidence stays evidence.
    if partial_meets(g, k, done, t, s) {
        let (u, v) = choose|u: Seq<char>, v: Seq<char>| #[trigger] previsit(g, k, done, t, s, u, v);
        if second_pedge(g, k, done, t, u, v) {
            let w = choose|w: Seq<char>| w != u && t.contains(w) && #[trigger] pedge(g, k, done, w, v);
            assert(pedge(g, k, done2, w, v));
        }
        assert(previsit(g, k, done2, t2, s, u, v));
    }
    // Evidence from the walk from `y` is evidence.
    if meets_visited(g, y, si) {
        if si.contains(y) {
            if s.contains(y) {
                assert(previsit(g, k, done2, t2, s, k, y));
            } else if y == k {
                assert(previsit(g, k, done2, t2, s, k, k));
            } else {
                let w = choose|w: Seq<char>| t.contains(w) && #[trigger] pedge(g, k, done, w, y);
                assert(pedge(g, k, done2, w, y));
                assert(previsit(g, k, done2, t2, s, k, y));
            }
        } else {
            let (u, v) = choose|u: Seq<char>, v: Seq<char>| #[trigger] revisit(g, r, si, y, u, v);
            assert(pedge(g, k, done2, u, v));
            if s.contains(v) {
                assert(previsit(g, k, done2, t2, s, u, v));
            } else if v == k {
                assert(previsit(g, k, done2, t2, s, u, v));
            } else if t.contains(v) {
                let w = choose|w: Seq<char>| t.contains(w) && #[trigger] pedge(g, k, done, w, v);
                assert(pedge(g, k, done2, w, v));
                assert(previsit(g, k, done2, t2, s, u, v));
            } else if v == y {
                assert(pedge(g, k, done2, k, v));
                assert(previsit(g, k, done2, t2, s, u, v));
            } else {
                let w = choose|w: Seq<char>| w != u && r.contains(w) && #[trigger] edge(g, w, v);
                assert(pedge(g, k, done2, w, v));
                assert(previsit(g, k, done2, t2, s, u, v));
            }
        }
    }
    // New evidence comes from the walk from `y`, or was there before.
    if partial_meets(g, k, done2, t2, s) && !meets_visited(g, y, si) {
        let (u, v) = choose|u: Seq<char>, v: Seq<char>| #[trigger] previsit(g, k, done2, t2, s, u, v);
        assert(!si.contains(y));
        assert(r.contains(y));
        if r.contains(u) {
            assert(!revisit(g, r, si, y, u, v));
            if second_pedge(g, k, done2, t2, u, v) {
                let w = choose|w: Seq<char>| w != u && t2.contains(w) && #[trigger] pedge(g, k, done2, w, v);
                if !si.contains(v) {
                    lemma_reach_step(g, y, si, u, v);
                    if r.contains(w) {
                        assert(second_in_edge(g, r, u, v));
                    } else if w == k && v == y {
                    } else {
                        assert(pedge(g, k, done, w, v));
                    }
                }
            }
            assert(false);
        } else if u == k && v == y && !done.contains(y) {
            if second_pedge(g, k, done2, t2, u, v) {
                let w = choose|w: Seq<char>| w != u && t2.contains(w) && #[trigger] pedge(g, k, done2, w, v);
                if r.contains(w) {
                    assert(revisit(g, r, si, y, w, y));
                } else {
                    assert(pedge(g, k, done, w, v));
                }
            }
            assert(false);
        } else {
            assert(pedge(g, k, done, u, v));
            if second_pedge(g, k, done2, t2, u, v) && !s.contains(v) && v != k {
                let w = choose|w: Seq<char>| w != u && t2.contains(w) && #[trigger] pedge(g, k, done2, w, v);
                if r.contains(w) {
                    assert(si.contains(v));
                    assert(revisit(g, r, si, y, w, v));
                    assert(false);
                } else if w == k && v == y && !done.contains(y) {
                    assert(si.contains(v));
                    assert(false);
                } else {
                    assert(pedge(g, k, done, w, v));
                }
            }
            assert(previsit(g, k, done, t, s, u, v));
        }
    }
}

/// Once every successor of `k` is handled, the visited names are all `k`
/// reaches, and the walk has met a name twice exactly as `meets_visited` says.
pub proof fn lemma_walk_end(g: Graph, k: Seq<char>, done: Set<Seq<char>>, t: Set<Seq<char>>, s: Set<Seq<char>>)
    requires
        walk_state(g, k, done, t, s),
        g[k].subset_of(done),
    ensures
        t == reach(g, k, s),
        partial_meets(g, k, done, t, s) == meets_visited(g, k, s),
{
    assert forall|a: Seq<char>, b: Seq<char>| t.contains(a) && #[trigger] edge(g, a, b) && !s.contains(b) implies t.contains(b) by {
        assert(pedge(g, k, done, a, b));
    }
    lemma_reach_least(g, k, s, t);
    assert(t =~= reach(g, k, s));
    if partial_meets(g, k, done, t, s) {
        let (u, v) = choose|u: Seq<char>, v: Seq<char>| #[trigger] previsit(g, k, done, t, s, u, v);
        if second_pedge(g, k, done, t, u, v) {
            let w = choose|w: Seq<char>| w != u && t.contains(w) && #[trigger] pedge(g, k, done, w, v);
            assert(edge(g, w, v));
        }
        assert(revisit(g, t, s, k, u, v));
    }
    if meets_visited(g, k, s) {
        let (u, v) = choose|u: Seq<char>, v: Seq<char>| #[trigger] revisit(g, t, s, k, u, v);
        if second_in_edge(g, t, u, v) {
            let w = choose|w: Seq<char>| w != u && t.contains(w) && #[trigger] edge(g, w, v);
            assert(pedge(g, k, done, w, v));
        }
        assert(previsit(g, k, done, t, s, u, v));
    }
}

/// From a name outside the graph, a walk reaches that name only.
pub proof fn lemma_walk_leaf(g: Graph, k: Seq<char>, s: Set<Seq<char>>)
    requires
        !s.contains(k),
        !g.contains_key(k),
    ensures
        reach(g, k, s) == set![k],
        !meets_visited(g, k, s),
{
    lemma_start_reached(g, k, s);
    lemma_reach_least(g, k, s, set![k]);
    assert(reach(g, k, s) =~= set![k]);
    if meets_visited(g, k, s) {
        let (u, v) = choose|u: Seq<char>, v: Seq<char>| #[trigger] revisit(g, reach(g, k, s), s, k, u, v);
        assert(u == k);
    }
}

// ------------------------- counting visits ------------------------- //

/// How many of `names` are outside `s`.
pub open spec fn unvisited(names: Seq<Seq<char>>, s: Set<Seq<char>>) -> nat
    decreases names.len(),
{
    if names.len() == 0 {
        0
    } else {
        unvisited(names.drop_last(), s) + if s.contains(names.last()) { 0nat } else { 1nat }
    }
}

/// Visiting more names leaves fewer unvisited, and strictly fewer when one
/// of `names` is newly visited.
pub proof fn lemma_unvisited_shrinks(names: Seq<Seq<char>>, s1: Set<Seq<char>>, s2: Set<Seq<char>>, x: Seq<char>)
    requires
        s1.subset_of(s2),
    ensures
        unvisited(names, s2) <= unvisited(names, s1),
        names.contains(x) && !s1.contains(x) && s2.contains(x) ==> unvisited(names, s2) < unvisited(names, s1),
    decreases names.len(),
{
    if names.len() > 0 {
        lemma_unvisited_shrinks(names.drop_last(), s1, s2, x);
        if names.contains(x) && names.last() != x {
            let i = choose|i: int| 0 <= i < names.len() && names[i] == x;
            assert(names.drop_last()[i] == x);
        }
    }
}


// ------------------------------ levels ------------------------------ //

/// The names of `a` that depend on no name of `a`.
pub open spec fn sinks(g: Graph, a: Set<Seq<char>>) -> Set<Seq<char>> {
    Set::new(|v: Seq<char>| a.contains(v) && forall|d: Seq<char>| #[trigger] edge(g, v, d) ==> !a.contains(d))
}

/// The names of `a` split into levels: the first holds the names that depend
/// on no name of `a`, and the rest are the levels of what is left.  The
/// split stops early only where every name left depends on another one left.
pub open spec fn layers(g: Graph, a: Set<Seq<char>>) -> Seq<Set<Seq<char>>>
    decreases a.len(),
{
    if !a.finite() || a.len() == 0 {
        Seq::empty()
    } else {
        let l = sinks(g, a);
        if l.len() == 0 {
            Seq::empty()
        } else {
            proof {
                lemma_remove_nonempty_shrinks(a, l);
            }
            seq![l] + layers(g, a.difference(l))
        }
    }
}

/// Taking a nonempty part away from a finite set leaves a smaller set.
pub proof fn lemma_remove_nonempty_shrinks<A>(a: Set<A>, l: Set<A>)
    requires
        a.finite(),
        l.subset_of(a),
        l.len() != 0,
    ensures
        a.difference(l).finite(),
        a.difference(l).len() < a.len(),
{
    vstd::set_lib::lemma_len_subset(l, a);
    vstd::set_lib::lemma_set_empty_equivalency_len(l);
    assert(l != Set::<A>::empty());
    let x = l.choose();
    if !l.contains(x) {
        assert(l =~= Set::<A>::empty());
    }
    vstd::set_lib::lemma_len_subset(a.difference(l), a.remove(x));
}

/// Follows edges inside `a` from `x` for `n` steps.
pub open spec fn walk_inside(g: Graph, a: Set<Seq<char>>, x: Seq<char>, n: nat) -> Seq<Seq<char>>
    decreases n,
{
    if n == 0 {
        seq![x]
    } else {
        let y = choose|y: Seq<char>| a.contains(y) && #[trigger] edge(g, x, y);
        seq![x] + walk_inside(g, a, y, (n - 1) as nat)
    }
}

proof fn lemma_walk_inside(g: Graph, a: Set<Seq<char>>, x: Seq<char>, n: nat)
    requires
        a.contains(x),
        forall|v: Seq<char>| a.contains(v) ==> exists|y: Seq<char>| a.contains(y) && #[trigger] edge(g, v, y),
    ensures
        is_path(g, walk_inside(g, a, x, n)),
        walk_inside(g, a, x, n).len() == n + 1,
        walk_inside(g, a, x, n)[0] == x,
        forall|i: int| 0 <= i < n + 1 ==> a.contains(#[trigger] walk_inside(g, a, x, n)[i]),
    decreases n,
{
    if n > 0 {
        let y = choose|y: Seq<char>| a.contains(y) && #[trigger] edge(g, x, y);
        lemma_walk_inside(g, a, y, (n - 1) as nat);
        let rest = walk_inside(g, a, y, (n - 1) as nat);
        let p = walk_inside(g, a, x, n);
        assert(p =~= seq![x] + rest);
        assert forall|i: int| 0 <= i < p.len() - 1 implies #[trigger] step(g, p, i) by {
            if i > 0 {
                assert(step(g, rest, i - 1));
            }
        }
        assert forall|i: int| 0 <= i < n + 1 implies a.contains(#[trigger] p[i]) by {
            if i > 0 {
                assert(p[i] == rest[i - 1]);
            }
        }
    }
}

/// In a graph without cycles, a nonempty finite set of names holds a name
/// that depends on no name of the set.
pub proof fn lemma_sink_exists(g: Graph, a: Set<Seq<char>>)
    requires
        !has_cycle(g),
        a.finite(),
        a.len() != 0,
    ensures
        sinks(g, a).len() != 0,
        sinks(g, a).subset_of(a),
{
    vstd::set_lib::lemma_len_subset(sinks(g, a), a);
    if sinks(g, a).len() == 0 {
        vstd::set_lib::lemma_set_empty_equivalency_len(sinks(g, a));
        vstd::set_lib::lemma_set_empty_equivalency_len(a);
        let x = a.choose();
        if !a.contains(x) {
            assert(a =~= Set::<Seq<char>>::empty());
        }
        assert forall|v: Seq<char>| a.contains(v) implies exists|y: Seq<char>| a.contains(y) && #[trigger] edge(g, v, y) by {
            assert(!sinks(g, a).contains(v));
        }
        let n = a.len();
        lemma_walk_inside(g, a, x, n);
        let p = walk_inside(g, a, x, n);
        assert(p.to_set().subset_of(a));
        vstd::set_lib::lemma_len_subset(p.to_set(), a);
        if p.no_duplicates() {
            p.unique_seq_to_set();
            assert(false);
        }
        let (i, j) = choose|i: int, j: int| 0 <= i < p.len() && 0 <= j < p.len() && i != j && p[i] == p[j];
        let lo = if i < j { i } else { j };
        let hi = if i < j { j } else { i };
        let c = p.subrange(lo, hi + 1);
        assert forall|m: int| 0 <= m < c.len() - 1 implies #[trigger] step(g, c, m) by {
            assert(step(g, p, lo + m));
        }
        assert(is_path(g, c) && c.len() >= 2 && c[0] == c.last());
        assert(has_cycle(g));
    }
}

/// In a graph without cycles, the levels of a finite set split it: each of
/// its names is in exactly one level, and no level is empty.
pub proof fn lemma_layers_partition(g: Graph, a: Set<Seq<char>>)
    requires
        !has_cycle(g),
        a.finite(),
    ensures
        forall|i: int| 0 <= i < layers(g, a).len() ==> (#[trigger] layers(g, a)[i]).subset_of(a) && layers(g, a)[i].len() != 0,
        forall|v: Seq<char>| a.contains(v) ==> exists|i: int| 0 <= i < layers(g, a).len() && #[trigger] layers(g, a)[i].contains(v),
        forall|i: int, j: int, v: Seq<char>| 0 <= i < layers(g, a).len() && 0 <= j < layers(g, a).len()
            && #[trigger] layers(g, a)[i].contains(v) && #[trigger] layers(g, a)[j].contains(v) ==> i == j,
    decreases a.len(),
{
    if a.len() != 0 {
        lemma_sink_exists(g, a);
        let l = sinks(g, a);
        let rest = a.difference(l);
        lemma_remove_nonempty_shrinks(a, l);
        lemma_layers_partition(g, rest);
        let ls = layers(g, a);
        assert(ls == seq![l] + layers(g, rest));
        assert forall|i: int| 0 <= i < ls.len() implies (#[trigger] ls[i]).subset_of(a) && ls[i].len() != 0 by {
            if i > 0 {
                assert(ls[i] == layers(g, rest)[i - 1]);
            }
        }
        assert forall|v: Seq<char>| a.contains(v) implies exists|i: int| 0 <= i < ls.len() && #[trigger] ls[i].contains(v) by {
            if l.contains(v) {
                assert(ls[0].contains(v));
            } else {
                assert(rest.contains(v));
                let i = choose|i: int| 0 <= i < layers(g, rest).len() && #[trigger] layers(g, rest)[i].contains(v);
                assert(ls[i + 1] == layers(g, rest)[i]);
            }
        }
        assert forall|i: int, j: int, v: Seq<char>| 0 <= i < ls.len() && 0 <= j < ls.len()
            && #[trigger] ls[i].contains(v) && #[trigger] ls[j].contains(v) implies i == j by {
            if i > 0 {
                assert(ls[i] == layers(g, rest)[i - 1]);
                assert(layers(g, rest)[i - 1].contains(v));
            }
            if j > 0 {
                assert(ls[j] == layers(g, rest)[j - 1]);
                assert(layers(g, rest)[j - 1].contains(v));
            }
        }
    } else {
        vstd::set_lib::lemma_set_empty_equivalency_len(a);
    }
}

/// A name's dependencies inside the set come in earlier levels than the name.
pub proof fn lemma_layers_ordered(g: Graph, a: Set<Seq<char>>, i: int, v: Seq<char>, d: Seq<char>)
    requires
        !has_cycle(g),
        a.finite(),
        0 <= i < layers(g, a).len(),
        layers(g, a)[i].contains(v),
        edge(g, v, d),
        a.contains(d),
    ensures
        exists|j: int| 0 <= j < i && #[trigger] layers(g, a)[j].contains(d),
    decreases a.len(),
{
    lemma_sink_exists(g, a);
    let l = sinks(g, a);
    let rest = a.difference(l);
    lemma_remove_nonempty_shrinks(a, l);
    let ls = layers(g, a);
    assert(ls == seq![l] + layers(g, rest));
    if i == 0 {
        assert(l.contains(v));
        assert(false);
    } else {
        assert(ls[i] == layers(g, rest)[i - 1]);
        if l.contains(d) {
            assert(ls[0].contains(d));
        } else {
            lemma_layers_ordered(g, rest, i - 1, v, d);
            let j = choose|j: int| 0 <= j < i - 1 && #[trigger] layers(g, rest)[j].contains(d);
            assert(ls[j + 1] == layers(g, rest)[j]);
        }
    }
}

} // verus!
