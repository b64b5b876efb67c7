//! Staging packages: the dependency graph of a set of packages is searched
//! for names that a walk meets twice, then split into levels, each of which
//! depends only on the levels before it.

use vstd::prelude::*;

use crate::graph::{
    Graph, closed, edge, graph_rejected, has_cycle, is_path, layers, lemma_accepted_acyclic,
    lemma_cycle_rejected, lemma_layers_ordered, lemma_layers_partition, lemma_remove_nonempty_shrinks,
    lemma_sink_exists, sinks, lemma_start_reached, lemma_unvisited_shrinks, lemma_walk_child, lemma_walk_end,
    lemma_walk_leaf, lemma_walk_start, meets_visited, partial_meets, reach, unvisited, walk_state,
};
use crate::text::{lemma_to_set_push, lemma_views_push, str_eq, strs_contain, views};
use crate::types::{Package, PackageModel, Packages, package_views};

verus! {

/// A name of the dependency graph with the names it depends on.
pub struct PackageNode<'a> {
    pub name: &'a str,
    pub dependencies: Vec<&'a str>,
}

/// The dependency graph: each name once, with the names it depends on.
pub struct PackageTree<'a> {
    pub nodes: Vec<PackageNode<'a>>,
}

/// Why packages could not be staged.
#[derive(Debug, PartialEq, Eq, Structural)]
pub enum PackageError {
    /// A walk through the dependency graph meets some name twice.
    CyclesPresent,
}

/// The names in a stack of visited names.
pub open spec fn stack_set(v: Seq<&str>) -> Set<Seq<char>> {
    views(v).to_set()
}

impl<'a> PackageTree<'a> {
    pub open spec fn names(&self) -> Seq<Seq<char>> {
        self.nodes@.map_values(|n: PackageNode<'a>| n.name@)
    }

    pub open spec fn deps_of(&self, i: int) -> Set<Seq<char>> {
        views(self.nodes@[i].dependencies@).to_set()
    }

    /// Each name occurs once, and each dependency list names a name once.
    pub open spec fn wf(&self) -> bool {
        &&& self.names().no_duplicates()
        &&& forall|i: int| 0 <= i < self.nodes@.len() ==> #[trigger] views(self.nodes@[i].dependencies@).no_duplicates()
    }

    /// The index of `name`, when it is a name of the graph.
    pub fn find(&self, name: &str) -> (r: Option<usize>)
        ensures
            match r {
                Some(i) => i < self.nodes@.len() && self.names()[i as int] == name@,
                None => !self.names().contains(name@),
            },
    {
        let mut i: usize = 0;
        while i < self.nodes.len()
            invariant
                0 <= i <= self.nodes@.len(),
                forall|j: int| 0 <= j < i ==> self.names()[j] != name@,
            decreases self.nodes.len() - i,
        {
            if str_eq(self.nodes[i].name, name) {
                return Some(i);
            }
            i = i + 1;
        }
        None
    }

    pub proof fn lemma_view_at(&self, i: int)
        requires
            self.wf(),
            0 <= i < self.nodes@.len(),
        ensures
            self@.contains_key(self.names()[i]),
            self@[self.names()[i]] == self.deps_of(i),
            self@.dom() == self.names().to_set(),
    {
        let n = self.names()[i];
        assert(self.names().contains(n));
        let j = self.names().index_of(n);
        assert(self.names()[j] == n);
        assert(j == i);
        assert(self@.dom() =~= self.names().to_set());
    }
}

impl<'a> View for PackageTree<'a> {
    type V = Graph;

    open spec fn view(&self) -> Graph {
        Map::new(
            |n: Seq<char>| self.names().contains(n),
            |n: Seq<char>| self.deps_of(self.names().index_of(n)),
        )
    }
}

fn push_name<'a>(stack: &mut Vec<&'a str>, name: &'a str)
    ensures
        final(stack)@ == old(stack)@.push(name),
        stack_set(final(stack)@) == stack_set(old(stack)@).insert(name@),
{
    stack.push(name);
    proof {
        let a = views(stack@);
        let b = views(old(stack)@);
        assert(a =~= b.push(name@));
        assert forall|x: Seq<char>| stack_set(stack@).contains(x) implies stack_set(old(stack)@).insert(name@).contains(x) by {
            let j = choose|j: int| 0 <= j < a.len() && a[j] == x;
            if j < b.len() {
                assert(b[j] == x);
            }
        }
        assert forall|x: Seq<char>| stack_set(old(stack)@).insert(name@).contains(x) implies stack_set(stack@).contains(x) by {
            if x == name@ {
                assert(a[b.len() as int] == x);
            } else {
                let j = choose|j: int| 0 <= j < b.len() && b[j] == x;
                assert(a[j] == x);
            }
        }
        assert(stack_set(stack@) =~= stack_set(old(stack)@).insert(name@));
    }
}

/// Walks depth-first from `current_key`, marking each name it reaches on
/// `stack` and never unmarking it; answers whether the walk met a name that
/// was already marked.
pub fn visitor<'a>(current_key: &'a str, graph: &PackageTree<'a>, stack: &mut Vec<&'a str>) -> (r: bool)
    requires
        graph.wf(),
    ensures
        stack_set(final(stack)@) == stack_set(old(stack)@).union(
            reach(graph@, current_key@, stack_set(old(stack)@)),
        ),
        r == meets_visited(graph@, current_key@, stack_set(old(stack)@)),
    decreases unvisited(graph.names(), stack_set(old(stack)@)),
{
    let ghost g = graph@;
    let ghost k = current_key@;
    let ghost s = stack_set(stack@);
    if strs_contain(stack, current_key) {
        proof {
            lemma_start_reached(g, k, s);
            assert(stack_set(stack@) =~= s.union(reach(g, k, s)));
        }
        return true;
    }
    push_name(stack, current_key);
    match graph.find(current_key) {
        None => {
            proof {
                lemma_walk_leaf(g, k, s);
                assert(stack_set(stack@) =~= s.union(reach(g, k, s)));
            }
            false
        },
        Some(idx) => {
            let deps = &graph.nodes[idx].dependencies;
            let ghost kids = views(deps@);
            proof {
                graph.lemma_view_at(idx as int);
                lemma_walk_start(g, k, s);
                assert(kids.take(0).to_set() =~= Set::<Seq<char>>::empty());
                assert(stack_set(stack@) =~= s.union(set![k]));
                assert(graph.names()[idx as int] == k);
                assert(graph.names().contains(k));
                lemma_unvisited_shrinks(graph.names(), s, stack_set(stack@), k);
            }
            let mut result = false;
            let mut i: usize = 0;
            while i < deps.len()
                invariant
                    graph.wf(),
                    g == graph@,
                    deps == &graph.nodes@[idx as int].dependencies,
                    idx < graph.nodes@.len(),
                    graph.names()[idx as int] == k,
                    kids == views(deps@),
                    kids.no_duplicates(),
                    g[k] == kids.to_set(),
                    0 <= i <= deps.len(),
                    walk_state(g, k, kids.take(i as int).to_set(), stack_set(stack@).difference(s), s),
                    s.subset_of(stack_set(stack@)),
                    s == stack_set(old(stack)@),
                    result == partial_meets(g, k, kids.take(i as int).to_set(), stack_set(stack@).difference(s), s),
                    unvisited(graph.names(), stack_set(stack@)) < unvisited(graph.names(), s),
                decreases deps.len() - i,
            {
                let ghost t = stack_set(stack@).difference(s);
                let ghost before = stack_set(stack@);
                let ghost done = kids.take(i as int).to_set();
                let y = deps[i];
                proof {
                    assert(kids[i as int] == y@);
                    assert(before =~= s.union(t));
                    assert(edge(g, k, y@));
                    assert(!done.contains(y@)) by {
                        if done.contains(y@) {
                            let j = choose|j: int| 0 <= j < i && kids.take(i as int)[j] == y@;
                            assert(kids[j] == kids[i as int]);
                        }
                    }
                }
                let found = visitor(y, graph, stack);
                result = found || result;
                proof {
                    lemma_walk_child(g, k, done, t, s, y@);
                    let ka = kids.take(i + 1);
                    let kb = kids.take(i as int);
                    assert forall|x: Seq<char>| ka.to_set().contains(x) implies done.insert(y@).contains(x) by {
                        let j = choose|j: int| 0 <= j < ka.len() && ka[j] == x;
                        if j < i {
                            assert(kb[j] == x);
                        }
                    }
                    assert forall|x: Seq<char>| done.insert(y@).contains(x) implies ka.to_set().contains(x) by {
                        if x == y@ {
                            assert(ka[i as int] == x);
                        } else {
                            let j = choose|j: int| 0 <= j < kb.len() && kb[j] == x;
                            assert(ka[j] == x);
                        }
                    }
                    assert(ka.to_set() =~= done.insert(y@));
                    lemma_start_reached(g, y@, before);
                    assert(s.union(t) =~= before);
                    assert(t.disjoint(s));
                    assert(stack_set(stack@).difference(s) =~= t.union(reach(g, y@, s.union(t))));
                    lemma_unvisited_shrinks(graph.names(), before, stack_set(stack@), y@);
                }
                i = i + 1;
            }
            proof {
                assert(kids.take(deps.len() as int) =~= kids);
                let t = stack_set(stack@).difference(s);
                lemma_walk_end(g, k, kids.to_set(), t, s);
                assert(stack_set(stack@) =~= s.union(t));
            }
            result
        },
    }
}


/// The dependency graph of `ps`: every package name and every name a
/// package depends on is a name of the graph; a name depends on what the
/// last package of that name lists, and a name that only occurs as a
/// dependency depends on nothing.
pub open spec fn package_graph(ps: Seq<PackageModel>) -> Graph
    decreases ps.len(),
{
    if ps.len() == 0 {
        Map::empty()
    } else {
        let g = package_graph(ps.drop_last());
        let p = ps.last();
        with_names(g, p.dependency).insert(p.name, p.dependency.to_set())
    }
}

/// `g` with each name of `names` that it lacks added, depending on nothing.
pub open spec fn with_names(g: Graph, names: Seq<Seq<char>>) -> Graph {
    Map::new(
        |n: Seq<char>| g.contains_key(n) || names.contains(n),
        |n: Seq<char>| if g.contains_key(n) { g[n] } else { Set::empty() },
    )
}

pub proof fn lemma_package_graph_closed(ps: Seq<PackageModel>)
    ensures
        closed(package_graph(ps)),
        package_graph(ps).dom().finite(),
    decreases ps.len(),
{
    if ps.len() > 0 {
        lemma_package_graph_closed(ps.drop_last());
        let g = package_graph(ps.drop_last());
        let p = ps.last();
        let w = with_names(g, p.dependency);
        let g2 = package_graph(ps);
        assert(w.dom() =~= g.dom().union(p.dependency.to_set()));
        vstd::seq_lib::seq_to_set_is_finite(p.dependency);
        assert forall|u: Seq<char>, v: Seq<char>| #[trigger] edge(g2, u, v) implies g2.contains_key(v) by {
            if u == p.name {
                assert(p.dependency.to_set().contains(v));
                assert(w.contains_key(v));
            } else if g.contains_key(u) {
                assert(edge(g, u, v));
            }
        }
        assert(g2.dom() =~= w.dom().insert(p.name));
    }
}

impl<'a> PackageTree<'a> {
    /// A graph with no names.
    pub fn new() -> (t: Self)
        ensures
            t.wf(),
            t@ == Map::<Seq<char>, Set<Seq<char>>>::empty(),
    {
        let t = PackageTree { nodes: Vec::new() };
        proof {
            assert(t@ =~= Map::<Seq<char>, Set<Seq<char>>>::empty());
        }
        t
    }

    /// Adds `name`, depending on nothing, unless it is a name already.
    fn ensure_node(&mut self, name: &'a str)
        requires
            old(self).wf(),
        ensures
            final(self).wf(),
            final(self)@ == if old(self)@.contains_key(name@) {
                old(self)@
            } else {
                old(self)@.insert(name@, Set::empty())
            },
    {
        match self.find(name) {
            Some(_) => {},
            None => {
                let ghost before = *self;
                self.nodes.push(PackageNode { name, dependencies: Vec::new() });
                proof {
                    assert(self.names() =~= before.names().push(name@));
                    assert forall|i: int| 0 <= i < self.nodes@.len() implies #[trigger] views(self.nodes@[i].dependencies@).no_duplicates() by {
                        if i < before.nodes@.len() {
                            assert(self.nodes@[i] == before.nodes@[i]);
                        }
                    }
                    assert(views(self.nodes@[before.nodes@.len() as int].dependencies@) =~= Seq::<Seq<char>>::empty());
                    assert(self.deps_of(before.nodes@.len() as int) =~= Set::<Seq<char>>::empty());
                    self.lemma_view_pushed(before, name@, Set::empty());
                }
            },
        }
    }

    /// Sets what `name` depends on, adding `name` if it is not a name yet.
    fn set_dependencies(&mut self, name: &'a str, deps: Vec<&'a str>)
        requires
            old(self).wf(),
            views(deps@).no_duplicates(),
        ensures
            final(self).wf(),
            final(self)@ == old(self)@.insert(name@, views(deps@).to_set()),
    {
        let ghost before = *self;
        let ghost d = views(deps@).to_set();
        match self.find(name) {
            Some(j) => {
                let node_name = self.nodes[j].name;
                self.nodes.set(j, PackageNode { name: node_name, dependencies: deps });
                proof {
                    assert(self.names() =~= before.names());
                    assert forall|i: int| 0 <= i < self.nodes@.len() implies #[trigger] views(self.nodes@[i].dependencies@).no_duplicates() by {
                        if i != j {
                            assert(self.nodes@[i] == before.nodes@[i]);
                        }
                    }
                    assert forall|n: Seq<char>| #[trigger] self@.contains_key(n) implies self@[n] == before@.insert(name@, d)[n] by {
                        let i = choose|i: int| 0 <= i < self.names().len() && self.names()[i] == n;
                        self.lemma_view_at(i);
                        if i != j {
                            assert(self.nodes@[i] == before.nodes@[i]);
                            before.lemma_view_at(i);
                            assert(self.deps_of(i) == before.deps_of(i));
                        }
                    }
                    self.lemma_view_at(j as int);
                    before.lemma_view_at(j as int);
                    assert(self@.dom() =~= before@.insert(name@, d).dom());
                    assert(self@ =~= before@.insert(name@, d));
                }
            },
            None => {
                self.nodes.push(PackageNode { name, dependencies: deps });
                proof {
                    assert(self.names() =~= before.names().push(name@));
                    assert forall|i: int| 0 <= i < self.nodes@.len() implies #[trigger] views(self.nodes@[i].dependencies@).no_duplicates() by {
                        if i < before.nodes@.len() {
                            assert(self.nodes@[i] == before.nodes@[i]);
                        }
                    }
                    self.lemma_view_pushed(before, name@, d);
                }
            },
        }
    }

    proof fn lemma_view_pushed(&self, before: PackageTree<'a>, name: Seq<char>, d: Set<Seq<char>>)
        requires
            before.wf(),
            self.wf(),
            self.nodes@.len() == before.nodes@.len() + 1,
            forall|i: int| 0 <= i < before.nodes@.len() ==> self.nodes@[i] == before.nodes@[i],
            self.names() == before.names().push(name),
            self.deps_of(before.nodes@.len() as int) == d,
        ensures
            self@ == before@.insert(name, d),
    {
        let last = before.nodes@.len() as int;
        assert forall|n: Seq<char>| #[trigger] self@.contains_key(n) implies self@[n] == before@.insert(name, d)[n] by {
            let i = choose|i: int| 0 <= i < self.names().len() && self.names()[i] == n;
            self.lemma_view_at(i);
            if i != last {
                assert(self.names()[i] != self.names()[last]);
                assert(self.names()[i] == before.names()[i]);
                before.lemma_view_at(i);
                assert(self.nodes@[i] == before.nodes@[i]);
                assert(self.deps_of(i) == before.deps_of(i));
            }
        }
        self.lemma_view_at(last);
        lemma_to_set_push(before.names(), name);
        if before.nodes@.len() > 0 {
            before.lemma_view_at(0);
        } else {
            assert(before.names().to_set() =~= Set::<Seq<char>>::empty());
            assert(before@.dom() =~= Set::<Seq<char>>::empty());
        }
        assert(self@.dom() =~= before@.insert(name, d).dom());
        assert(self@ =~= before@.insert(name, d));
    }
}

/// `names` with every repeated text left out after its first occurrence.
fn distinct_names<'a>(names: &Vec<&'a str>) -> (r: Vec<&'a str>)
    ensures
        views(r@).no_duplicates(),
        views(r@).to_set() == views(names@).to_set(),
{
    let mut r: Vec<&'a str> = Vec::new();
    let mut i: usize = 0;
    while i < names.len()
        invariant
            0 <= i <= names.len(),
            views(r@).no_duplicates(),
            views(r@).to_set() == views(names@.take(i as int)).to_set(),
        decreases names.len() - i,
    {
        let ghost before = r@;
        if !strs_contain(&r, names[i]) {
            r.push(names[i]);
            proof {
                assert(views(r@) =~= views(before).push(names@[i as int]@));
            }
        }
        proof {
            assert(names@.take(i + 1) =~= names@.take(i as int).push(names@[i as int]));
            lemma_views_push(names@.take(i as int), names@[i as int]);
            lemma_to_set_push(views(names@.take(i as int)), names@[i as int]@);
            if views(r@) != views(before) {
                lemma_to_set_push(views(before), names@[i as int]@);
            } else {
                assert(views(before).to_set().contains(names@[i as int]@));
                assert(views(before).to_set().insert(names@[i as int]@) =~= views(before).to_set());
            }
        }
        i = i + 1;
    }
    proof {
        assert(names@.take(names@.len() as int) =~= names@);
    }
    r
}

/// The dependency graph of `packages`.
pub fn construct_package_tree<'a>(packages: &Packages<'a>) -> (t: PackageTree<'a>)
    ensures
        t.wf(),
        t@ == package_graph(package_views(packages@)),
        closed(t@),
{
    let ghost ps = package_views(packages@);
    let mut tree = PackageTree::new();
    let mut i: usize = 0;
    while i < packages.len()
        invariant
            0 <= i <= packages.len(),
            ps == package_views(packages@),
            tree.wf(),
            tree@ == package_graph(ps.take(i as int)),
        decreases packages.len() - i,
    {
        let package = &packages[i];
        let ghost g = tree@;
        let ghost deps = views(package.dependency@);
        proof {
            assert(ps.take(i + 1).drop_last() =~= ps.take(i as int));
            assert(ps.take(i + 1).last() == package@);
            assert(with_names(g, deps.take(0)) =~= g);
        }
        let mut j: usize = 0;
        while j < package.dependency.len()
            invariant
                0 <= j <= package.dependency.len(),
                deps == views(package.dependency@),
                tree.wf(),
                tree@ == with_names(g, deps.take(j as int)),
            decreases package.dependency.len() - j,
        {
            tree.ensure_node(package.dependency[j]);
            proof {
                let d = package.dependency@[j as int]@;
                assert(deps.take(j + 1) =~= deps.take(j as int).push(d));
                lemma_with_names_push(g, deps.take(j as int), d);
            }
            j = j + 1;
        }
        proof {
            assert(deps.take(deps.len() as int) =~= deps);
        }
        let unique = distinct_names(&package.dependency);
        tree.set_dependencies(package.name, unique);
        i = i + 1;
    }
    proof {
        assert(ps.take(ps.len() as int) =~= ps);
        lemma_package_graph_closed(ps);
    }
    tree
}


proof fn lemma_with_names_push(g: Graph, names: Seq<Seq<char>>, x: Seq<char>)
    ensures
        with_names(g, names.push(x)) == if with_names(g, names).contains_key(x) {
            with_names(g, names)
        } else {
            with_names(g, names).insert(x, Set::empty())
        },
{
    let a = with_names(g, names);
    let b = with_names(g, names.push(x));
    assert forall|n: Seq<char>| names.push(x).contains(n) <==> (names.contains(n) || n == x) by {
        if names.push(x).contains(n) {
            let j = choose|j: int| 0 <= j < names.push(x).len() && names.push(x)[j] == n;
            if j < names.len() {
                assert(names[j] == n);
            }
        }
        if names.contains(n) {
            let j = choose|j: int| 0 <= j < names.len() && names[j] == n;
            assert(names.push(x)[j] == n);
        }
        if n == x {
            assert(names.push(x)[names.len() as int] == n);
        }
    }
    if a.contains_key(x) {
        assert(b =~= a);
    } else {
        assert(b =~= a.insert(x, Set::empty()));
    }
}


/// Whether a walk from some name of the graph meets a name twice.
pub fn graph_validation<'a>(graph: &PackageTree<'a>) -> (r: bool)
    requires
        graph.wf(),
    ensures
        r == graph_rejected(graph@),
{
    let ghost g = graph@;
    let mut acc = false;
    let mut i: usize = 0;
    while i < graph.nodes.len()
        invariant
            0 <= i <= graph.nodes@.len(),
            graph.wf(),
            g == graph@,
            acc == exists|j: int| 0 <= j < i && #[trigger] meets_visited(g, graph.names()[j], Set::empty()),
        decreases graph.nodes.len() - i,
    {
        if !acc {
            let mut stack: Vec<&'a str> = Vec::new();
            proof {
                assert(stack_set(stack@) =~= Set::<Seq<char>>::empty());
            }
            acc = visitor(graph.nodes[i].name, graph, &mut stack);
            proof {
                assert(graph.names()[i as int] == graph.nodes@[i as int].name@);
            }
        }
        i = i + 1;
    }
    proof {
        if acc {
            let j = choose|j: int| 0 <= j < graph.nodes@.len() && #[trigger] meets_visited(g, graph.names()[j], Set::empty());
            graph.lemma_view_at(j);
        }
        if graph_rejected(g) {
            let k = choose|k: Seq<char>| g.contains_key(k) && #[trigger] meets_visited(g, k, Set::empty());
            let j = choose|j: int| 0 <= j < graph.names().len() && graph.names()[j] == k;
            assert(meets_visited(g, graph.names()[j], Set::empty()));
        }
    }
    acc
}

/// The names of the nodes still in play.
pub open spec fn alive_names<'a>(t: PackageTree<'a>, alive: Seq<bool>) -> Set<Seq<char>> {
    Set::new(|v: Seq<char>| exists|i: int| 0 <= i < alive.len() && alive[i] && #[trigger] t.names()[i] == v)
}

/// The texts of each level.
pub open spec fn level_sets<'a>(ls: Seq<Vec<&'a str>>) -> Seq<Set<Seq<char>>> {
    ls.map_values(|l: Vec<&'a str>| views(l@).to_set())
}

/// Whether node `i` depends on no node still in play.
fn is_sink<'a>(tree: &PackageTree<'a>, alive: &Vec<bool>, i: usize) -> (r: bool)
    requires
        tree.wf(),
        closed(tree@),
        alive@.len() == tree.nodes@.len(),
        i < tree.nodes@.len(),
    ensures
        r == forall|d: Seq<char>| #[trigger] edge(tree@, tree.names()[i as int], d) ==> !alive_names(*tree, alive@).contains(d),
{
    let ghost g = tree@;
    let ghost a = alive_names(*tree, alive@);
    let deps = &tree.nodes[i].dependencies;
    proof {
        tree.lemma_view_at(i as int);
    }
    let mut j: usize = 0;
    while j < deps.len()
        invariant
            tree.wf(),
            closed(tree@),
            g == tree@,
            a == alive_names(*tree, alive@),
            alive@.len() == tree.nodes@.len(),
            i < tree.nodes@.len(),
            deps == &tree.nodes@[i as int].dependencies,
            g[tree.names()[i as int]] == views(deps@).to_set(),
            g.contains_key(tree.names()[i as int]),
            0 <= j <= deps.len(),
            forall|m: int| 0 <= m < j ==> !a.contains(#[trigger] deps@[m]@),
        decreases deps.len() - j,
    {
        let d = deps[j];
        proof {
            assert(views(deps@)[j as int] == d@);
            assert(edge(g, tree.names()[i as int], d@));
        }
        match tree.find(d) {
            Some(k) => {
                if alive[k] {
                    proof {
                        assert(a.contains(d@));
                    }
                    return false;
                }
                proof {
                    if a.contains(d@) {
                        let m = choose|m: int| 0 <= m < alive@.len() && alive@[m] && #[trigger] tree.names()[m] == d@;
                        assert(tree.names()[m] == tree.names()[k as int]);
                    }
                }
            },
            None => {
                proof {
                    assert(g.contains_key(d@));
                    tree.lemma_view_at(0);
                }
            },
        }
        j = j + 1;
    }
    proof {
        assert forall|d: Seq<char>| #[trigger] edge(g, tree.names()[i as int], d) implies !a.contains(d) by {
            let m = choose|m: int| 0 <= m < views(deps@).len() && views(deps@)[m] == d;
            assert(deps@[m]@ == d);
        }
    }
    true
}

fn any_alive(alive: &Vec<bool>) -> (r: bool)
    ensures
        r == exists|i: int| 0 <= i < alive@.len() && alive@[i],
{
    let mut i: usize = 0;
    while i < alive.len()
        invariant
            0 <= i <= alive@.len(),
            forall|j: int| 0 <= j < i ==> !alive@[j],
        decreases alive.len() - i,
    {
        if alive[i] {
            return true;
        }
        i = i + 1;
    }
    false
}

/// Splits the names of the graph into levels, each depending only on the
/// levels before it; refuses a graph in which a walk meets a name twice.
pub fn construct_levels<'a>(package_map: PackageTree<'a>) -> (r: Result<Vec<Vec<&'a str>>, PackageError>)
    requires
        package_map.wf(),
        closed(package_map@),
    ensures
        r is Err <==> graph_rejected(package_map@),
        r is Err ==> r == Err::<Vec<Vec<&'a str>>, PackageError>(PackageError::CyclesPresent),
        r matches Ok(levels) ==> {
            &&& level_sets(levels@) == layers(package_map@, package_map@.dom())
            &&& forall|i: int| 0 <= i < levels@.len() ==> #[trigger] views(levels@[i]@).no_duplicates()
        },
{
    let tree = package_map;
    let ghost g = tree@;
    if graph_validation(&tree) {
        return Err(PackageError::CyclesPresent);
    }
    proof {
        lemma_accepted_acyclic(g);
    }
    let n = tree.nodes.len();
    let mut alive: Vec<bool> = Vec::new();
    let mut i: usize = 0;
    while i < n
        invariant
            n == tree.nodes@.len(),
            0 <= i <= n,
            alive@.len() == i,
            forall|j: int| 0 <= j < i ==> alive@[j],
        decreases n - i,
    {
        alive.push(true);
        i = i + 1;
    }
    let ghost mut a = alive_names(tree, alive@);
    proof {
        assert forall|v: Seq<char>| a.contains(v) <==> g.contains_key(v) by {
            if g.contains_key(v) {
                let j = choose|j: int| 0 <= j < tree.names().len() && tree.names()[j] == v;
                assert(alive@[j]);
            }
        }
        assert(a =~= g.dom());
        if n > 0 {
            tree.lemma_view_at(0);
        } else {
            assert(tree.names().to_set() =~= Set::<Seq<char>>::empty());
            assert(g.dom() =~= Set::<Seq<char>>::empty());
        }
        vstd::seq_lib::seq_to_set_is_finite(tree.names());
        assert(level_sets(Seq::<Vec<&'a str>>::empty()) + layers(g, a) =~= layers(g, g.dom()));
    }
    let mut levels: Vec<Vec<&'a str>> = Vec::new();
    while any_alive(&alive)
        invariant
            tree.wf(),
            closed(tree@),
            g == tree@,
            !has_cycle(g),
            n == tree.nodes@.len(),
            alive@.len() == n,
            a == alive_names(tree, alive@),
            a.finite(),
            a.subset_of(g.dom()),
            g.dom().finite(),
            level_sets(levels@) + layers(g, a) == layers(g, g.dom()),
            forall|m: int| 0 <= m < levels@.len() ==> #[trigger] views(levels@[m]@).no_duplicates(),
        decreases a.len(),
    {
        let ghost l = sinks(g, a);
        let mut level: Vec<&'a str> = Vec::new();
        let mut leaving: Vec<bool> = Vec::new();
        let mut i: usize = 0;
        while i < n
            invariant
                tree.wf(),
                closed(tree@),
                g == tree@,
                n == tree.nodes@.len(),
                alive@.len() == n,
                a == alive_names(tree, alive@),
                l == sinks(g, a),
                0 <= i <= n,
                leaving@.len() == i,
                forall|j: int| 0 <= j < i ==> (#[trigger] leaving@[j] <==> l.contains(tree.names()[j])),
                views(level@).no_duplicates(),
                forall|v: Seq<char>| views(level@).contains(v) <==> exists|j: int| 0 <= j < i && leaving@[j] && #[trigger] tree.names()[j] == v,
            decreases n - i,
        {
            let ghost before = level@;
            let leave = alive[i] && is_sink(&tree, &alive, i);
            proof {
                let v = tree.names()[i as int];
                tree.lemma_view_at(i as int);
                if alive@[i as int] {
                    assert(a.contains(v));
                }
                if a.contains(v) {
                    let m = choose|m: int| 0 <= m < alive@.len() && alive@[m] && #[trigger] tree.names()[m] == v;
                    assert(m == i);
                }
                assert(leave == l.contains(v));
            }
            leaving.push(leave);
            if leave {
                level.push(tree.nodes[i].name);
                proof {
                    lemma_views_push(before, tree.nodes@[i as int].name);
                    assert(tree.names()[i as int] == tree.nodes@[i as int].name@);
                    assert forall|p: int, q: int| 0 <= p < q < views(level@).len() implies views(level@)[p] != views(level@)[q] by {
                        if q == views(level@).len() - 1 {
                            assert(views(before).contains(views(level@)[p]));
                        }
                    }
                }
            }
            proof {
                assert forall|v: Seq<char>| views(level@).contains(v) <==> exists|j: int| 0 <= j < i + 1 && leaving@[j] && #[trigger] tree.names()[j] == v by {
                    if views(level@).contains(v) && !views(before).contains(v) {
                        assert(leave);
                        assert(views(level@)[views(level@).len() - 1] == v || views(before).contains(v)) by {
                            let m = choose|m: int| 0 <= m < views(level@).len() && views(level@)[m] == v;
                            if m < views(before).len() {
                                assert(views(before)[m] == v);
                            }
                        }
                        assert(leaving@[i as int]);
                    }
                    if views(before).contains(v) {
                        let m = choose|m: int| 0 <= m < views(before).len() && views(before)[m] == v;
                        assert(views(level@)[m] == v);
                    }
                    if exists|j: int| 0 <= j < i + 1 && leaving@[j] && #[trigger] tree.names()[j] == v {
                        let j = choose|j: int| 0 <= j < i + 1 && leaving@[j] && #[trigger] tree.names()[j] == v;
                        if j == i {
                            assert(views(level@)[views(level@).len() - 1] == v);
                        } else {
                            assert(views(before).contains(v));
                        }
                    }
                }
            }
            i = i + 1;
        }
        proof {
            assert forall|v: Seq<char>| views(level@).to_set().contains(v) <==> l.contains(v) by {
                if l.contains(v) {
                    assert(a.contains(v));
                    let m = choose|m: int| 0 <= m < alive@.len() && alive@[m] && #[trigger] tree.names()[m] == v;
                    assert(leaving@[m]);
                }
            }
            assert(views(level@).to_set() =~= l);
        }
        let ghost old_alive = alive@;
        let mut i: usize = 0;
        while i < n
            invariant
                n == tree.nodes@.len(),
                alive@.len() == n,
                leaving@.len() == n,
                old_alive.len() == n,
                0 <= i <= n,
                forall|j: int| 0 <= j < i ==> #[trigger] alive@[j] == (old_alive[j] && !leaving@[j]),
                forall|j: int| i <= j < n ==> #[trigger] alive@[j] == old_alive[j],
            decreases n - i,
        {
            let ghost prev = alive@;
            if leaving[i] {
                alive.set(i, false);
            }
            proof {
                assert forall|j: int| 0 <= j < i + 1 implies #[trigger] alive@[j] == (old_alive[j] && !leaving@[j]) by {
                    if j < i {
                        assert(alive@[j] == prev[j]);
                    }
                }
                assert forall|j: int| i + 1 <= j < n implies #[trigger] alive@[j] == old_alive[j] by {
                    assert(alive@[j] == prev[j]);
                }
            }
            i = i + 1;
        }
        proof {
            assert(a.len() != 0) by {
                vstd::set_lib::lemma_set_empty_equivalency_len(a);
                let m = choose|m: int| 0 <= m < old_alive.len() && old_alive[m];
                assert(a.contains(tree.names()[m]));
            }
            lemma_sink_exists(g, a);
            lemma_remove_nonempty_shrinks(a, l);
            assert(layers(g, a) == seq![l] + layers(g, a.difference(l)));
            let a2 = alive_names(tree, alive@);
            assert forall|v: Seq<char>| a2.contains(v) <==> a.difference(l).contains(v) by {
                if a2.contains(v) {
                    let m = choose|m: int| 0 <= m < alive@.len() && alive@[m] && #[trigger] tree.names()[m] == v;
                    assert(old_alive[m]);
                }
                if a.difference(l).contains(v) {
                    let m = choose|m: int| 0 <= m < old_alive.len() && old_alive[m] && #[trigger] tree.names()[m] == v;
                    assert(!leaving@[m]);
                    assert(alive@[m]);
                }
            }
            assert(a2 =~= a.difference(l));
        }
        levels.push(level);
        proof {
            a = a.difference(l);
            assert(level_sets(levels@) =~= level_sets(levels@.drop_last()).push(l));
            assert(level_sets(levels@) + layers(g, a) =~= level_sets(levels@.drop_last()) + (seq![l] + layers(g, a)));
        }
    }
    proof {
        if a.len() != 0 {
            vstd::set_lib::lemma_set_empty_equivalency_len(a);
            let x = a.choose();
            if a.contains(x) {
                let m = choose|m: int| 0 <= m < alive@.len() && alive@[m] && #[trigger] tree.names()[m] == x;
            } else {
                assert(a =~= Set::<Seq<char>>::empty());
            }
        }
        assert(layers(g, a) =~= Seq::<Set<Seq<char>>>::empty());
        assert(level_sets(levels@) =~= layers(g, g.dom()));
    }
    Ok(levels)
}


/// The index of the last package named `n`.
pub open spec fn last_named(ps: Seq<PackageModel>, n: Seq<char>) -> Option<int>
    decreases ps.len(),
{
    if ps.len() == 0 {
        None
    } else if ps.last().name == n {
        Some(ps.len() - 1)
    } else {
        last_named(ps.drop_last(), n)
    }
}

/// The package a stage holds for the name `n`: the last package of that
/// name, or a package with that name only.
pub open spec fn package_for(ps: Seq<PackageModel>, n: Seq<char>) -> PackageModel {
    match last_named(ps, n) {
        Some(j) => ps[j],
        None => PackageModel { name: n, dependency: Seq::empty(), optional: Seq::empty(), processor: None },
    }
}

pub open spec fn stage_names(stage: Seq<PackageModel>) -> Seq<Seq<char>> {
    stage.map_values(|p: PackageModel| p.name)
}

/// `stage` holds, once each, the package for each name of `level`.
pub open spec fn stage_matches(stage: Seq<PackageModel>, level: Set<Seq<char>>, ps: Seq<PackageModel>) -> bool {
    &&& stage_names(stage).no_duplicates()
    &&& stage_names(stage).to_set() == level
    &&& forall|k: int| 0 <= k < stage.len() ==> #[trigger] stage[k] == package_for(ps, stage[k].name)
}

proof fn lemma_last_named(ps: Seq<PackageModel>, n: Seq<char>)
    ensures
        match last_named(ps, n) {
            Some(j) => 0 <= j < ps.len() && ps[j].name == n && forall|k: int| j < k < ps.len() ==> ps[k].name != n,
            None => forall|k: int| 0 <= k < ps.len() ==> ps[k].name != n,
        },
    decreases ps.len(),
{
    if ps.len() > 0 {
        lemma_last_named(ps.drop_last(), n);
        if ps.last().name != n {
            match last_named(ps.drop_last(), n) {
                Some(j) => {
                    assert forall|k: int| j < k < ps.len() implies ps[k].name != n by {
                        if k < ps.len() - 1 {
                            assert(ps.drop_last()[k] == ps[k]);
                        }
                    }
                },
                None => {
                    assert forall|k: int| 0 <= k < ps.len() implies ps[k].name != n by {
                        if k < ps.len() - 1 {
                            assert(ps.drop_last()[k] == ps[k]);
                        }
                    }
                },
            }
        }
    }
}

/// The package a stage holds for `name`.
fn package_named<'a>(packages: &Packages<'a>, name: &'a str) -> (p: Package<'a>)
    ensures
        p@ == package_for(package_views(packages@), name@),
{
    let ghost ps = package_views(packages@);
    let mut i: usize = packages.len();
    while i > 0
        invariant
            0 <= i <= packages@.len(),
            ps == package_views(packages@),
            forall|k: int| i <= k < ps.len() ==> ps[k].name != name@,
        decreases i,
    {
        if str_eq(packages[i - 1].name, name) {
            proof {
                lemma_last_named(ps, name@);
                assert(ps[i - 1].name == name@);
                match last_named(ps, name@) {
                    Some(j) => {
                        assert(j == i - 1);
                    },
                    None => {},
                }
            }
            return packages[i - 1].duplicate();
        }
        i = i - 1;
    }
    let p = Package::from_name(name);
    proof {
        lemma_last_named(ps, name@);
        match last_named(ps, name@) {
            Some(j) => {
                assert(ps[j].name == name@);
            },
            None => {},
        }
        assert(views(p.dependency@) =~= Seq::<Seq<char>>::empty());
        assert(views(p.optional@) =~= Seq::<Seq<char>>::empty());
    }
    p
}

/// Splits packages into stages: each stage holds packages that depend only
/// on packages of earlier stages; names that only occur as dependencies get
/// a package of their own.  Refuses packages whose dependency graph a walk
/// meets a name twice in.
pub fn construct_staged_list<'a>(packages: Packages<'a>) -> (r: Result<Vec<Packages<'a>>, PackageError>)
    ensures
        r is Err <==> graph_rejected(package_graph(package_views(packages@))),
        r is Err ==> r == Err::<Vec<Packages<'a>>, PackageError>(PackageError::CyclesPresent),
        r matches Ok(stages) ==> {
            let g = package_graph(package_views(packages@));
            &&& stages@.len() == layers(g, g.dom()).len()
            &&& forall|i: int| 0 <= i < stages@.len() ==> stage_matches(
                #[trigger] package_views(stages@[i]@),
                layers(g, g.dom())[i],
                package_views(packages@),
            )
        },
{
    let ghost ps = package_views(packages@);
    let map = construct_package_tree(&packages);
    let ghost g = map@;
    let levels = match construct_levels(map) {
        Ok(levels) => levels,
        Err(e) => {
            return Err(e);
        },
    };
    let mut stages: Vec<Packages<'a>> = Vec::new();
    let mut i: usize = 0;
    while i < levels.len()
        invariant
            0 <= i <= levels@.len(),
            ps == package_views(packages@),
            g == package_graph(ps),
            level_sets(levels@) == layers(g, g.dom()),
            forall|m: int| 0 <= m < levels@.len() ==> #[trigger] views(levels@[m]@).no_duplicates(),
            stages@.len() == i,
            forall|m: int| 0 <= m < i ==> stage_matches(#[trigger] package_views(stages@[m]@), layers(g, g.dom())[m], ps),
        decreases levels.len() - i,
    {
        let level = &levels[i];
        let mut stage: Packages<'a> = Vec::new();
        let mut j: usize = 0;
        while j < level.len()
            invariant
                0 <= j <= level@.len(),
                ps == package_views(packages@),
                stage@.len() == j,
                forall|k: int| 0 <= k < j ==> #[trigger] package_views(stage@)[k] == package_for(ps, level@[k]@),
            decreases level.len() - j,
        {
            let p = package_named(&packages, level[j]);
            let ghost prev = stage@;
            stage.push(p);
            proof {
                assert forall|k: int| 0 <= k < j + 1 implies #[trigger] package_views(stage@)[k] == package_for(ps, level@[k]@) by {
                    if k < j {
                        assert(stage@[k] == prev[k]);
                        assert(package_views(prev)[k] == prev[k]@);
                    }
                }
            }
            j = j + 1;
        }
        proof {
            let st = package_views(stage@);
            assert forall|k: int| 0 <= k < st.len() implies #[trigger] st[k].name == level@[k]@ by {
                assert(st[k] == package_for(ps, level@[k]@));
                lemma_last_named(ps, level@[k]@);
            }
            assert(stage_names(st) =~= views(level@));
            assert(level_sets(levels@)[i as int] == views(level@).to_set());
            assert forall|k: int| 0 <= k < st.len() implies #[trigger] st[k] == package_for(ps, st[k].name) by {
                assert(st[k].name == level@[k]@);
            }
            assert(views(levels@[i as int]@).no_duplicates());
        }
        stages.push(stage);
        proof {
            assert forall|m: int| 0 <= m < i + 1 implies stage_matches(#[trigger] package_views(stages@[m]@), layers(g, g.dom())[m], ps) by {
                if m < i {
                    assert(stages@[m] == stages@.drop_last()[m]);
                }
            }
        }
        i = i + 1;
    }
    Ok(stages)
}

// ------------------------------- laws ------------------------------- //

/// `p` is named `n` or depends on `n`.
pub open spec fn mentions(p: PackageModel, n: Seq<char>) -> bool {
    p.name == n || p.dependency.contains(n)
}

/// The names of the dependency graph are the package names and the names
/// packages depend on.
pub proof fn law_graph_names(ps: Seq<PackageModel>, n: Seq<char>)
    ensures
        package_graph(ps).contains_key(n) <==> exists|k: int| 0 <= k < ps.len() && #[trigger] mentions(ps[k], n),
    decreases ps.len(),
{
    if ps.len() > 0 {
        let q = ps.drop_last();
        law_graph_names(q, n);
        let g = package_graph(q);
        let last = ps.last();
        assert(package_graph(ps).contains_key(n) <==> (n == last.name || g.contains_key(n) || last.dependency.contains(n)));
        if exists|k: int| 0 <= k < q.len() && #[trigger] mentions(q[k], n) {
            let k = choose|k: int| 0 <= k < q.len() && #[trigger] mentions(q[k], n);
            assert(ps[k] == q[k]);
        }
        if mentions(last, n) {
            assert(mentions(ps[ps.len() - 1], n));
        }
        if exists|k: int| 0 <= k < ps.len() && #[trigger] mentions(ps[k], n) {
            let k = choose|k: int| 0 <= k < ps.len() && #[trigger] mentions(ps[k], n);
            if k < q.len() {
                assert(q[k] == ps[k]);
            }
        }
    }
}

/// A name depends on exactly what the last package of that name lists.
pub proof fn law_last_package_decides(ps: Seq<PackageModel>, n: Seq<char>)
    requires
        last_named(ps, n) is Some,
    ensures
        package_graph(ps)[n] == ps[last_named(ps, n)->0].dependency.to_set(),
    decreases ps.len(),
{
    if ps.last().name != n {
        law_last_package_decides(ps.drop_last(), n);
        let g = package_graph(ps.drop_last());
        law_graph_names(ps.drop_last(), n);
        lemma_last_named(ps.drop_last(), n);
        let j = last_named(ps.drop_last(), n)->0;
        assert(ps.drop_last()[j].name == n);
        assert(mentions(ps.drop_last()[j], n));
        assert(g.contains_key(n));
        assert(ps.drop_last()[j] == ps[j]);
    }
}

/// A dependency graph with a cycle is refused.
pub proof fn law_cycles_refused(ps: Seq<PackageModel>)
    requires
        has_cycle(package_graph(ps)),
    ensures
        graph_rejected(package_graph(ps)),
{
    let g = package_graph(ps);
    let p = choose|p: Seq<Seq<char>>| #[trigger] is_path(g, p) && p.len() >= 2 && p[0] == p.last();
    lemma_cycle_rejected(g, p);
}

/// When packages are staged, every name of the dependency graph is in
/// exactly one stage, and no stage is empty.
pub proof fn law_each_name_in_one_stage(ps: Seq<PackageModel>, n: Seq<char>)
    requires
        !graph_rejected(package_graph(ps)),
        package_graph(ps).contains_key(n),
    ensures
        exists|i: int| 0 <= i < layers(package_graph(ps), package_graph(ps).dom()).len()
            && #[trigger] layers(package_graph(ps), package_graph(ps).dom())[i].contains(n),
        forall|i: int, j: int| 0 <= i < layers(package_graph(ps), package_graph(ps).dom()).len()
            && 0 <= j < layers(package_graph(ps), package_graph(ps).dom()).len()
            && #[trigger] layers(package_graph(ps), package_graph(ps).dom())[i].contains(n)
            && #[trigger] layers(package_graph(ps), package_graph(ps).dom())[j].contains(n) ==> i == j,
        forall|i: int| 0 <= i < layers(package_graph(ps), package_graph(ps).dom()).len()
            ==> #[trigger] layers(package_graph(ps), package_graph(ps).dom())[i].len() != 0,
{
    let g = package_graph(ps);
    lemma_accepted_acyclic(g);
    lemma_package_graph_closed(ps);
    lemma_layers_partition(g, g.dom());
}

/// When packages are staged, every name a package depends on is in an
/// earlier stage than the package.
pub proof fn law_dependencies_come_first(ps: Seq<PackageModel>, i: int, n: Seq<char>, d: Seq<char>)
    requires
        !graph_rejected(package_graph(ps)),
        0 <= i < layers(package_graph(ps), package_graph(ps).dom()).len(),
        layers(package_graph(ps), package_graph(ps).dom())[i].contains(n),
        edge(package_graph(ps), n, d),
    ensures
        exists|j: int| 0 <= j < i && #[trigger] layers(package_graph(ps), package_graph(ps).dom())[j].contains(d),
{
    let g = package_graph(ps);
    lemma_accepted_acyclic(g);
    lemma_package_graph_closed(ps);
    lemma_layers_ordered(g, g.dom(), i, n, d);
}

} // verus!
