use vstd::prelude::*;
use vstd::string::*;

use crate::composition::{id_texts, ModuleInstanceId};
use crate::error::MicrodeError;
use crate::graph_order::{dependency_first, dfs_order, has_cycle, index_graph_closed, int_graph, ints, is_cycle, lemma_dfs_order, topological, in_range};
use crate::text::{concat3, join_arrows, lemma_text_less_irreflexive, lemma_text_less_total, lemma_text_less_transitive, precedes, text_less};

verus! {

/// Texts listed in strictly increasing order.
pub open spec fn strictly_sorted(texts: Seq<Seq<char>>) -> bool {
    forall|i: int, j: int| 0 <= i < j < texts.len() ==> text_less(#[trigger] texts[i], #[trigger] texts[j])
}

/// A strictly sorted listing holds no text twice.
pub proof fn lemma_sorted_no_duplicates(texts: Seq<Seq<char>>)
    requires
        strictly_sorted(texts),
    ensures
        texts.no_duplicates(),
{
    assert forall|i: int, j: int| 0 <= i < texts.len() && 0 <= j < texts.len() && i != j implies texts[i] != texts[j] by {
        if i < j {
            lemma_text_less_irreflexive(texts[i]);
        } else {
            lemma_text_less_irreflexive(texts[j]);
        }
    }
}

/// Two strictly sorted listings of the same texts are the same listing.
pub proof fn lemma_sorted_listing_unique(a: Seq<Seq<char>>, b: Seq<Seq<char>>)
    requires
        strictly_sorted(a),
        strictly_sorted(b),
        a.to_set() == b.to_set(),
    ensures
        a == b,
    decreases a.len(),
{
    broadcast use vstd::seq_lib::group_seq_properties;

    if a.len() == 0 {
        if b.len() > 0 {
            assert(b.to_set().contains(b[0]));
        }
        assert(a =~= b);
    } else if b.len() == 0 {
        assert(a.to_set().contains(a[0]));
    } else {
        // The least element of both listings is their first element.
        assert(a.to_set().contains(a[0]));
        assert(b.to_set().contains(b[0]));
        let ia = choose|k: int| 0 <= k < b.len() && b[k] == a[0];
        let ib = choose|k: int| 0 <= k < a.len() && a[k] == b[0];
        if ia > 0 {
            assert(text_less(b[0], b[ia]));
            if ib > 0 {
                assert(text_less(a[0], a[ib]));
                lemma_text_less_total(a[0], b[0]);
            } else {
                lemma_text_less_irreflexive(a[0]);
            }
        }
        assert(a[0] == b[0]);
        let ra = a.drop_first();
        let rb = b.drop_first();
        assert(strictly_sorted(ra));
        assert(strictly_sorted(rb));
        lemma_sorted_no_duplicates(a);
        lemma_sorted_no_duplicates(b);
        assert forall|x: Seq<char>| ra.to_set().contains(x) implies rb.to_set().contains(x) by {
            let k = choose|k: int| 0 <= k < ra.len() && ra[k] == x;
            assert(a[k + 1] == x);
            assert(b.to_set().contains(x));
            let m = choose|m: int| 0 <= m < b.len() && b[m] == x;
            assert(m != 0);
            assert(rb[m - 1] == x);
        }
        assert forall|x: Seq<char>| rb.to_set().contains(x) implies ra.to_set().contains(x) by {
            let k = choose|k: int| 0 <= k < rb.len() && rb[k] == x;
            assert(b[k + 1] == x);
            assert(a.to_set().contains(x));
            let m = choose|m: int| 0 <= m < a.len() && a[m] == x;
            assert(m != 0);
            assert(ra[m - 1] == x);
        }
        assert(ra.to_set() =~= rb.to_set());
        lemma_sorted_listing_unique(ra, rb);
        assert(a =~= seq![a[0]] + ra);
        assert(b =~= seq![b[0]] + rb);
    }
}

/// Where `text` stands in a strictly sorted listing, or where it would be
/// inserted, and whether it is there.
fn locate(listing: &Vec<ModuleInstanceId>, text: &str) -> (found: (usize, bool))
    requires
        strictly_sorted(id_texts(listing@)),
    ensures
        found.0 <= listing@.len(),
        forall|k: int| 0 <= k < found.0 ==> text_less(#[trigger] listing@[k]@, text@),
        found.1 <==> (found.0 < listing@.len() && listing@[found.0 as int]@ == text@),
        found.0 < listing@.len() && !found.1 ==> text_less(text@, listing@[found.0 as int]@),
        found.1 <==> id_texts(listing@).contains(text@),
{
    let n = listing.len();
    let mut j: usize = 0;
    while j < n && precedes(listing[j].as_str(), text)
        invariant
            n == listing@.len(),
            j <= n,
            forall|k: int| 0 <= k < j ==> text_less(#[trigger] listing@[k]@, text@),
        decreases n - j,
    {
        j = j + 1;
    }
    let found = j < n && listing[j].has_text(text);
    proof {
        let texts = id_texts(listing@);
        if j < n && !found {
            lemma_text_less_total(text@, listing@[j as int]@);
        }
        if texts.contains(text@) {
            let m = choose|m: int| 0 <= m < texts.len() && texts[m] == text@;
            if m < j {
                assert(text_less(listing@[m]@, text@));
                lemma_text_less_irreflexive(text@);
            } else if m > j {
                assert(text_less(texts[j as int], texts[m]));
                if !found {
                    lemma_text_less_total(text@, listing@[j as int]@);
                    lemma_text_less_transitive(text@, texts[j as int], texts[m]);
                    lemma_text_less_irreflexive(text@);
                }
            }
        }
        if found {
            assert(texts[j as int] == text@);
        }
    }
    (j, found)
}

/// Inserts `id` into a strictly sorted listing unless it is already there.
fn insert_sorted(listing: &mut Vec<ModuleInstanceId>, id: ModuleInstanceId) -> (position: usize)
    requires
        strictly_sorted(id_texts(old(listing)@)),
    ensures
        strictly_sorted(id_texts(final(listing)@)),
        id_texts(final(listing)@).to_set() == id_texts(old(listing)@).to_set().insert(id@),
        position < final(listing)@.len(),
        final(listing)@[position as int]@ == id@,
        id_texts(old(listing)@).contains(id@) ==> final(listing)@ == old(listing)@,
        !id_texts(old(listing)@).contains(id@) ==> final(listing)@ == old(listing)@.insert(
            position as int,
            id,
        ),
{
    let (j, found) = locate(listing, id.as_str());
    let ghost before = listing@;
    if found {
        proof {
            let texts = id_texts(before);
            assert(texts.to_set().insert(id@) =~= texts.to_set()) by {
                assert(texts[j as int] == id@);
            }
        }
        return j;
    }
    listing.insert(j, id);
    proof {
        let old_texts = id_texts(before);
        let texts = id_texts(listing@);
        assert(texts =~= old_texts.insert(j as int, id@));
        assert forall|a: int, b: int| 0 <= a < b < texts.len() implies text_less(#[trigger] texts[a], #[trigger] texts[b]) by {
            if a < j && b == j {
            } else if a == j && b > j {
                assert(texts[b] == old_texts[b - 1]);
                if b - 1 > j {
                    assert(text_less(old_texts[j as int], old_texts[b - 1]));
                    lemma_text_less_transitive(id@, old_texts[j as int], old_texts[b - 1]);
                }
            } else if a < j && b > j {
                assert(texts[b] == old_texts[b - 1]);
                assert(text_less(old_texts[a], old_texts[b - 1]));
            } else if a > j {
                assert(texts[a] == old_texts[a - 1]);
                assert(texts[b] == old_texts[b - 1]);
            }
        }
        assert(texts.to_set() =~= old_texts.to_set().insert(id@)) by {
            assert forall|x: Seq<char>| texts.to_set().contains(x) implies old_texts.to_set().insert(id@).contains(x) by {
                let k = choose|k: int| 0 <= k < texts.len() && texts[k] == x;
                if k < j {
                    assert(old_texts[k] == x);
                } else if k > j {
                    assert(old_texts[k - 1] == x);
                }
            }
            assert forall|x: Seq<char>| old_texts.to_set().insert(id@).contains(x) implies texts.to_set().contains(x) by {
                if x == id@ {
                    assert(texts[j as int] == x);
                } else {
                    let k = choose|k: int| 0 <= k < old_texts.len() && old_texts[k] == x;
                    if k < j {
                        assert(texts[k] == x);
                    } else {
                        assert(texts[k + 1] == x);
                    }
                }
            }
        }
    }
    j
}

/// The graph as texts: its nodes in increasing order and, for each node, the
/// nodes it depends on in increasing order.
pub struct GraphView {
    pub ids: Seq<Seq<char>>,
    pub deps: Seq<Seq<Seq<char>>>,
}

/// The shape every dependency graph keeps.
pub open spec fn graph_wf(g: GraphView) -> bool {
    &&& g.ids.len() == g.deps.len()
    &&& strictly_sorted(g.ids)
    &&& forall|i: int| 0 <= i < g.deps.len() ==> strictly_sorted(#[trigger] g.deps[i])
}

/// Every node that some node depends on is itself a node of the graph.
pub open spec fn graph_closed(g: GraphView) -> bool {
    forall|i: int, k: int|
        0 <= i < g.deps.len() && 0 <= k < g.deps[i].len() ==> g.ids.contains(#[trigger] g.deps[i][k])
}

/// The nodes that node `a` depends on; none when `a` is not a node.
pub open spec fn dependencies_of(g: GraphView, a: Seq<char>) -> Set<Seq<char>> {
    if g.ids.contains(a) {
        g.deps[g.ids.index_of(a)].to_set()
    } else {
        Set::empty()
    }
}

/// The diagnostic for a module identifier that names no node.
pub open spec fn unknown_id_message(value: Seq<char>) -> Seq<char> {
    "unknown module instance ID '"@ + value + "'"@
}

/// The graph with nodes named by their positions in the listing.
pub open spec fn adjacency(g: GraphView) -> Seq<Seq<int>> {
    Seq::new(g.ids.len(), |i: int| g.deps[i].map_values(|d: Seq<char>| g.ids.index_of(d)))
}

/// The texts of the nodes at the given positions.
pub open spec fn names(g: GraphView, nodes: Seq<int>) -> Seq<Seq<char>> {
    nodes.map_values(|k: int| g.ids[k])
}

/// The diagnostic for a dependency cycle: its nodes joined by arrows.
pub open spec fn cycle_message(cycle: Seq<Seq<char>>) -> Seq<char> {
    "dependency cycle detected: "@ + join_arrows(cycle)
}

/// Whether `cycle` leads around a circle of dependencies, named by the
/// texts of its nodes: it returns to where it started and passes each node
/// once on the way.
pub open spec fn is_text_cycle(g: GraphView, cycle: Seq<Seq<char>>) -> bool {
    &&& cycle.len() >= 2
    &&& cycle[0] == cycle.last()
    &&& cycle.drop_last().no_duplicates()
    &&& forall|t: int| 0 <= t < cycle.len() - 1 ==> dependencies_of(g, #[trigger] cycle[t]).contains(cycle[t + 1])
}

/// Records, for each module, the modules that must be started before it.
pub struct DependencyGraph {
    ids: Vec<ModuleInstanceId>,
    dependencies: Vec<Vec<ModuleInstanceId>>,
}

impl View for DependencyGraph {
    type V = GraphView;

    closed spec fn view(&self) -> GraphView {
        GraphView {
            ids: id_texts(self.ids@),
            deps: self.dependencies@.map_values(|list: Vec<ModuleInstanceId>| id_texts(list@)),
        }
    }
}

proof fn lemma_index_of_sorted(texts: Seq<Seq<char>>, k: int)
    requires
        strictly_sorted(texts),
        0 <= k < texts.len(),
    ensures
        texts.index_of(texts[k]) == k,
{
    lemma_sorted_no_duplicates(texts);
    texts.index_of_first_ensures(texts[k]);
}

proof fn lemma_adjacency_closed(g: GraphView)
    requires
        graph_wf(g),
        graph_closed(g),
    ensures
        index_graph_closed(adjacency(g)),
        adjacency(g).len() == g.ids.len(),
        forall|i: int, k: int|
            0 <= i < g.ids.len() && 0 <= k < g.deps[i].len() ==> g.ids[#[trigger] adjacency(g)[i][k]]
                == g.deps[i][k],
{
    let adj = adjacency(g);
    assert forall|i: int, k: int| 0 <= i < adj.len() && 0 <= k < adj[i].len() implies 0 <= #[trigger] adj[i][k] < adj.len() && g.ids[adj[i][k]] == g.deps[i][k] by {
        assert(g.ids.contains(g.deps[i][k]));
        g.ids.index_of_first_ensures(g.deps[i][k]);
        lemma_sorted_no_duplicates(g.ids);
        let q = choose|q: int| 0 <= q < g.ids.len() && g.ids[q] == g.deps[i][k];
        lemma_index_of_sorted(g.ids, q);
    }
}

/// The dependency-first order of the graph's nodes, named by their texts:
/// every node exactly once, each after the nodes it depends on. It exists
/// exactly when no nodes depend on each other in a circle.
pub proof fn lemma_order_is_dependency_first(g: GraphView)
    requires
        graph_wf(g),
        graph_closed(g),
    ensures
        match dfs_order(adjacency(g)) {
            Ok(order) => {
                &&& names(g, order).no_duplicates()
                &&& names(g, order).to_set() == g.ids.to_set()
                &&& forall|p: int|
                    0 <= p < order.len() ==> dependencies_of(g, #[trigger] names(g, order)[p]).subset_of(
                        names(g, order).take(p).to_set(),
                    )
            },
            Err(cycle) => is_text_cycle(g, names(g, cycle)),
        },
        dfs_order(adjacency(g)) is Ok <==> !has_cycle(adjacency(g)),
{
    let adj = adjacency(g);
    lemma_adjacency_closed(g);
    lemma_dfs_order(adj);
    lemma_sorted_no_duplicates(g.ids);
    match dfs_order(adj) {
        Ok(order) => {
            let r = names(g, order);
            assert(r.no_duplicates()) by {
                assert forall|a: int, b: int| 0 <= a < r.len() && 0 <= b < r.len() && a != b implies r[a] != r[b] by {
                    assert(order[a] != order[b]);
                }
            }
            assert(r.to_set() =~= g.ids.to_set()) by {
                assert forall|x: Seq<char>| r.to_set().contains(x) implies g.ids.to_set().contains(x) by {
                    let q = choose|q: int| 0 <= q < r.len() && r[q] == x;
                    assert(0 <= order[q] < g.ids.len());
                }
                assert forall|x: Seq<char>| g.ids.to_set().contains(x) implies r.to_set().contains(x) by {
                    let q = choose|q: int| 0 <= q < g.ids.len() && g.ids[q] == x;
                    assert(order.contains(q));
                    let p = choose|p: int| 0 <= p < order.len() && order[p] == q;
                    assert(r[p] == x);
                }
            }
            assert forall|p: int| 0 <= p < order.len() implies dependencies_of(g, #[trigger] r[p]).subset_of(
                r.take(p).to_set(),
            ) by {
                let node = order[p];
                assert(0 <= node < g.ids.len());
                lemma_index_of_sorted(g.ids, node);
                assert(g.ids.contains(r[p]));
                assert forall|d: Seq<char>| dependencies_of(g, r[p]).contains(d) implies r.take(p).to_set().contains(d) by {
                    let k = choose|k: int| 0 <= k < g.deps[node].len() && g.deps[node][k] == d;
                    assert(adj[node][k] == adj[order[p]][k]);
                    assert(order.take(p).contains(adj[order[p]][k]));
                    let q = choose|q: int| 0 <= q < order.take(p).len() && order.take(p)[q] == adj[node][k];
                    assert(r.take(p)[q] == g.ids[adj[node][k]]);
                }
            }
        },
        Err(cycle) => {
            let c = names(g, cycle);
            assert forall|t: int| 0 <= t < c.len() - 1 implies dependencies_of(g, #[trigger] c[t]).contains(c[t + 1]) by {
                let x = cycle[t];
                assert(adj[x].contains(cycle[t + 1]));
                let k = choose|k: int| 0 <= k < adj[x].len() && adj[x][k] == cycle[t + 1];
                lemma_index_of_sorted(g.ids, x);
                assert(g.ids.contains(c[t]));
                assert(g.deps[x][k] == g.ids[cycle[t + 1]]);
            }
            assert(c[0] == c.last());
            assert(c.drop_last().no_duplicates()) by {
                assert forall|a: int, b: int| 0 <= a < c.drop_last().len() && 0 <= b < c.drop_last().len() && a != b implies c.drop_last()[a] != c.drop_last()[b] by {
                    assert(cycle.drop_last()[a] != cycle.drop_last()[b]);
                    assert(c.drop_last()[a] == g.ids[cycle[a]]);
                    assert(c.drop_last()[b] == g.ids[cycle[b]]);
                    if g.ids[cycle[a]] == g.ids[cycle[b]] {
                        lemma_index_of_sorted(g.ids, cycle[a]);
                        lemma_index_of_sorted(g.ids, cycle[b]);
                    }
                }
            }
        },
    }
}

/// Closedness, stated over the dependency sets of the nodes.
proof fn lemma_closed_by_sets(g: GraphView)
    requires
        graph_wf(g),
    ensures
        graph_closed(g) <==> forall|a: Seq<char>|
            #![trigger dependencies_of(g, a)]
            g.ids.contains(a) ==> dependencies_of(g, a).subset_of(g.ids.to_set()),
{
    if graph_closed(g) {
        assert forall|a: Seq<char>| #![trigger dependencies_of(g, a)] g.ids.contains(a) implies dependencies_of(g, a).subset_of(g.ids.to_set()) by {
            let i = g.ids.index_of(a);
            g.ids.index_of_first_ensures(a);
            assert forall|d: Seq<char>| dependencies_of(g, a).contains(d) implies g.ids.to_set().contains(d) by {
                let k = choose|k: int| 0 <= k < g.deps[i].len() && g.deps[i][k] == d;
                assert(g.ids.contains(g.deps[i][k]));
            }
        }
    }
    if forall|a: Seq<char>| #![trigger dependencies_of(g, a)] g.ids.contains(a) ==> dependencies_of(g, a).subset_of(g.ids.to_set()) {
        assert forall|i: int, k: int| 0 <= i < g.deps.len() && 0 <= k < g.deps[i].len() implies g.ids.contains(#[trigger] g.deps[i][k]) by {
            let a = g.ids[i];
            assert(g.ids.contains(a));
            lemma_index_of_sorted(g.ids, i);
            assert(dependencies_of(g, a).contains(g.deps[i][k]));
            assert(g.ids.to_set().contains(g.deps[i][k]));
        }
    }
}

impl DependencyGraph {
    /// A graph with the given modules and no dependency; each module is a
    /// node once, whatever the order and repetitions of `ids`.
    pub fn new(ids: Vec<ModuleInstanceId>) -> (graph: Self)
        ensures
            graph_wf(graph@),
            graph_closed(graph@),
            graph@.ids.to_set() == id_texts(ids@).to_set(),
            forall|i: int| 0 <= i < graph@.deps.len() ==> (#[trigger] graph@.deps[i]).len() == 0,
    {
        let mut listing: Vec<ModuleInstanceId> = Vec::new();
        let n = ids.len();
        let mut i: usize = 0;
        while i < n
            invariant
                n == ids@.len(),
                i <= n,
                strictly_sorted(id_texts(listing@)),
                id_texts(listing@).to_set() == id_texts(ids@.take(i as int)).to_set(),
            decreases n - i,
        {
            let ghost before = id_texts(listing@);
            insert_sorted(&mut listing, ids[i].duplicate());
            proof {
                assert(id_texts(ids@.take(i + 1)) =~= id_texts(ids@.take(i as int)).push(ids@[i as int]@));
                broadcast use vstd::seq_lib::group_seq_properties;
                assert(id_texts(ids@.take(i as int)).push(ids@[i as int]@).to_set() =~= id_texts(
                    ids@.take(i as int),
                ).to_set().insert(ids@[i as int]@));
            }
            i = i + 1;
        }
        assert(ids@.take(n as int) =~= ids@);
        let m = listing.len();
        let mut dependencies: Vec<Vec<ModuleInstanceId>> = Vec::new();
        let mut k: usize = 0;
        while k < m
            invariant
                k <= m,
                dependencies@.len() == k,
                forall|j: int| 0 <= j < k ==> (#[trigger] dependencies@[j])@.len() == 0,
            decreases m - k,
        {
            dependencies.push(Vec::new());
            k = k + 1;
        }
        let graph = DependencyGraph { ids: listing, dependencies };
        assert forall|j: int| 0 <= j < graph@.deps.len() implies strictly_sorted(#[trigger] graph@.deps[j]) by {
            assert(graph@.deps[j] =~= Seq::<Seq<char>>::empty());
        }
        assert forall|j: int| 0 <= j < graph@.deps.len() implies (#[trigger] graph@.deps[j]).len() == 0 by {
            assert(graph@.deps[j] =~= Seq::<Seq<char>>::empty());
        }
        graph
    }

    /// Adds `dependency` to the dependencies of node `position`.
    fn insert_dependency_at(&mut self, position: usize, dependency: ModuleInstanceId)
        requires
            graph_wf(old(self)@),
            position < old(self)@.ids.len(),
        ensures
            graph_wf(final(self)@),
            final(self)@.ids == old(self)@.ids,
            final(self)@.deps.len() == old(self)@.deps.len(),
            final(self)@.deps[position as int].to_set() == old(self)@.deps[position as int].to_set().insert(
                dependency@,
            ),
            forall|j: int|
                0 <= j < final(self)@.deps.len() && j != position ==> #[trigger] final(self)@.deps[j]
                    == old(self)@.deps[j],
    {
        let ghost old_deps = self.dependencies@;
        let mut inner = self.dependencies.remove(position);
        proof {
            assert(id_texts(inner@) == old(self)@.deps[position as int]);
        }
        insert_sorted(&mut inner, dependency);
        self.dependencies.insert(position, inner);
        proof {
            assert(self.dependencies@ =~= old_deps.update(position as int, inner));
            assert forall|j: int| 0 <= j < self@.deps.len() implies strictly_sorted(#[trigger] self@.deps[j]) by {
                if j != position {
                    assert(self@.deps[j] == old(self)@.deps[j]);
                }
            }
        }
    }

    /// Records that the node named `consumer` depends on the node named
    /// `dependency`; both must already be nodes.
    pub fn add_dependency(&mut self, consumer: &str, dependency: &str) -> (result: Result<
        (),
        MicrodeError,
    >)
        requires
            graph_wf(old(self)@),
        ensures
            graph_wf(final(self)@),
            graph_closed(old(self)@) ==> graph_closed(final(self)@),
            !old(self)@.ids.contains(consumer@) ==> (result matches Err(e) && e@
                == unknown_id_message(consumer@)),
            old(self)@.ids.contains(consumer@) && !old(self)@.ids.contains(dependency@)
                ==> (result matches Err(e) && e@ == unknown_id_message(dependency@)),
            result is Err ==> final(self)@ == old(self)@,
            result is Ok <==> old(self)@.ids.contains(consumer@) && old(self)@.ids.contains(
                dependency@,
            ),
            result is Ok ==> final(self)@.ids == old(self)@.ids,
            result is Ok ==> forall|a: Seq<char>|
                #![trigger dependencies_of(final(self)@, a)]
                dependencies_of(final(self)@, a) == if a == consumer@ {
                    dependencies_of(old(self)@, a).insert(dependency@)
                } else {
                    dependencies_of(old(self)@, a)
                },
    {
        let (position, found) = locate(&self.ids, consumer);
        if !found {
            return Err(MicrodeError::from_message(concat3("unknown module instance ID '", consumer, "'")));
        }
        let (target, target_found) = locate(&self.ids, dependency);
        if !target_found {
            return Err(MicrodeError::from_message(concat3("unknown module instance ID '", dependency, "'")));
        }
        let ghost g0 = self@;
        let dependency_id = self.ids[target].duplicate();
        self.insert_dependency_at(position, dependency_id);
        proof {
            let g2 = self@;
            lemma_index_of_sorted(g0.ids, position as int);
            assert forall|a: Seq<char>| #![trigger dependencies_of(g2, a)]
                dependencies_of(g2, a) == if a == consumer@ {
                    dependencies_of(g0, a).insert(dependency@)
                } else {
                    dependencies_of(g0, a)
                } by {
                if g0.ids.contains(a) && a != consumer@ {
                    let k = g0.ids.index_of(a);
                    g0.ids.index_of_first_ensures(a);
                    lemma_index_of_sorted(g0.ids, k);
                    assert(k != position);
                }
            }
            if graph_closed(g0) {
                lemma_closed_by_sets(g0);
                lemma_closed_by_sets(g2);
                assert(g0.ids.contains(g0.ids[target as int]));
            }
        }
        Ok(())
    }

    /// The dependency lists as positions in the node listing.
    fn positions(&self) -> (adj: Vec<Vec<usize>>)
        requires
            graph_wf(self@),
            graph_closed(self@),
        ensures
            int_graph(adj@) == adjacency(self@),
    {
        let ghost g = self@;
        let n = self.ids.len();
        let mut adj: Vec<Vec<usize>> = Vec::new();
        let mut i: usize = 0;
        while i < n
            invariant
                g == self@,
                graph_wf(g),
                graph_closed(g),
                n == g.ids.len(),
                i <= n,
                adj@.len() == i,
                forall|j: int| 0 <= j < i ==> int_graph(adj@)[j] == #[trigger] adjacency(g)[j],
            decreases n - i,
        {
            let list = &self.dependencies[i];
            let m = list.len();
            let mut row: Vec<usize> = Vec::new();
            let mut k: usize = 0;
            while k < m
                invariant
                    g == self@,
                    graph_wf(g),
                    graph_closed(g),
                    n == g.ids.len(),
                    i < n,
                    list@ == self.dependencies@[i as int]@,
                    m == list@.len(),
                    k <= m,
                    ints(row@) == adjacency(g)[i as int].take(k as int),
                decreases m - k,
            {
                let (position, found) = locate(&self.ids, list[k].as_str());
                proof {
                    assert(g.deps[i as int][k as int] == list@[k as int]@);
                    assert(g.ids.contains(g.deps[i as int][k as int]));
                    lemma_index_of_sorted(g.ids, position as int);
                    assert(adjacency(g)[i as int][k as int] == position as int);
                    assert(ints(row@.push(position)) =~= ints(row@).push(position as int));
                    assert(adjacency(g)[i as int].take(k + 1) =~= adjacency(g)[i as int].take(
                        k as int,
                    ).push(position as int));
                }
                row.push(position);
                k = k + 1;
            }
            proof {
                assert(adjacency(g)[i as int].len() == m);
                assert(adjacency(g)[i as int].take(m as int) =~= adjacency(g)[i as int]);
            }
            adj.push(row);
            i = i + 1;
        }
        assert(int_graph(adj@) =~= adjacency(g));
        adj
    }

    /// The dependency-first order of the modules, or the first dependency
    /// cycle that the search meets.
    pub fn order(&self) -> (result: Result<Vec<ModuleInstanceId>, MicrodeError>)
        requires
            graph_wf(self@),
            graph_closed(self@),
        ensures
            match dfs_order(adjacency(self@)) {
                Ok(order) => result matches Ok(ordered) && id_texts(ordered@) == names(self@, order),
                Err(cycle) => result matches Err(e) && e@ == cycle_message(names(self@, cycle)),
            },
            result is Ok <==> !has_cycle(adjacency(self@)),
            result matches Ok(ordered) ==> {
                &&& id_texts(ordered@).no_duplicates()
                &&& id_texts(ordered@).to_set() == self@.ids.to_set()
                &&& forall|p: int|
                    0 <= p < ordered@.len() ==> dependencies_of(self@, #[trigger] ordered@[p]@).subset_of(
                        id_texts(ordered@).take(p).to_set(),
                    )
            },
    {
        let ghost g = self@;
        let adj = self.positions();
        proof {
            lemma_adjacency_closed(g);
            lemma_order_is_dependency_first(g);
            lemma_dfs_order(adjacency(g));
        }
        match dependency_first(&adj) {
            Ok(order) => {
                let n = order.len();
                let mut ordered: Vec<ModuleInstanceId> = Vec::new();
                let mut t: usize = 0;
                while t < n
                    invariant
                        g == self@,
                        graph_wf(g),
                        n == order@.len(),
                        in_range(ints(order@), g.ids.len() as int),
                        t <= n,
                        id_texts(ordered@) == names(g, ints(order@)).take(t as int),
                    decreases n - t,
                {
                    proof {
                        assert(0 <= ints(order@)[t as int] < g.ids.len());
                    }
                    let id = self.ids[order[t]].duplicate();
                    proof {
                        assert(id_texts(ordered@.push(id)) =~= id_texts(ordered@).push(id@));
                        assert(names(g, ints(order@)).take(t + 1) =~= names(g, ints(order@)).take(
                            t as int,
                        ).push(g.ids[order@[t as int] as int]));
                    }
                    ordered.push(id);
                    t = t + 1;
                }
                proof {
                    assert(names(g, ints(order@)).take(n as int) =~= names(g, ints(order@)));
                    assert forall|p: int| 0 <= p < ordered@.len() implies #[trigger] ordered@[p]@ == names(g, ints(order@))[p] by {
                        assert(id_texts(ordered@)[p] == ordered@[p]@);
                    }
                }
                Ok(ordered)
            },
            Err(cycle) => {
                let mut message = String::from_str("dependency cycle detected: ");
                let ghost prefix = message@;
                let ghost parts = names(g, ints(cycle@));
                let n = cycle.len();
                let mut t: usize = 0;
                while t < n
                    invariant
                        g == self@,
                        graph_wf(g),
                        n == cycle@.len(),
                        is_cycle(adjacency(g), ints(cycle@)),
                        adjacency(g).len() == g.ids.len(),
                        parts == names(g, ints(cycle@)),
                        t <= n,
                        prefix == "dependency cycle detected: "@,
                        message@ == prefix + join_arrows(parts.take(t as int)),
                    decreases n - t,
                {
                    proof {
                        assert(0 <= ints(cycle@)[t as int] < g.ids.len());
                    }
                    let name = self.ids[cycle[t]].as_str();
                    proof {
                        assert(parts.take(t + 1).drop_last() =~= parts.take(t as int));
                        assert(parts.take(t + 1).last() == name@);
                    }
                    if t > 0 {
                        message.append(" -> ");
                    } else {
                        assert(parts.take(1) =~= seq![name@]);
                        assert(join_arrows(parts.take(0)) =~= Seq::<char>::empty());
                    }
                    message.append(name);
                    proof {
                        if t > 0 {
                            assert(message@ =~= prefix + (join_arrows(parts.take(t as int)) + " -> "@
                                + name@));
                        } else {
                            assert(message@ =~= prefix + join_arrows(parts.take(1)));
                        }
                    }
                    t = t + 1;
                }
                proof {
                    assert(parts.take(n as int) =~= parts);
                }
                Err(MicrodeError::from_message(message))
            },
        }
    }

    /// Records that `consumer` depends on `dependency`, adding `consumer` as
    /// a node when it is not one yet.
    pub fn add_validated_dependency(
        &mut self,
        consumer: &ModuleInstanceId,
        dependency: &ModuleInstanceId,
    )
        requires
            graph_wf(old(self)@),
        ensures
            graph_wf(final(self)@),
            graph_closed(old(self)@) && (old(self)@.ids.contains(dependency@) || dependency@
                == consumer@) ==> graph_closed(final(self)@),
            final(self)@.ids.to_set() == old(self)@.ids.to_set().insert(consumer@),
            forall|a: Seq<char>|
                #![trigger dependencies_of(final(self)@, a)]
                dependencies_of(final(self)@, a) == if a == consumer@ {
                    dependencies_of(old(self)@, a).insert(dependency@)
                } else {
                    dependencies_of(old(self)@, a)
                },
    {
        let ghost g0 = self@;
        let (position, found) = locate(&self.ids, consumer.as_str());
        if !found {
            self.ids.insert(position, consumer.duplicate());
            let empty: Vec<ModuleInstanceId> = Vec::new();
            assert(id_texts(empty@) =~= Seq::<Seq<char>>::empty());
            let ghost d0 = self.dependencies@;
            self.dependencies.insert(position, empty);
            assert(self.dependencies@ == d0.insert(position as int, empty));
            proof {
                let g1 = self@;
                assert(g1.ids =~= g0.ids.insert(position as int, consumer@));
                assert(g1.deps =~= g0.deps.insert(position as int, Seq::empty()));
                assert(strictly_sorted(g1.ids)) by {
                    assert forall|a: int, b: int| 0 <= a < b < g1.ids.len() implies text_less(#[trigger] g1.ids[a], #[trigger] g1.ids[b]) by {
                        if a < position && b == position {
                        } else if a == position && b > position {
                            if b - 1 > position {
                                assert(text_less(g0.ids[position as int], g0.ids[b - 1]));
                                lemma_text_less_transitive(consumer@, g0.ids[position as int], g0.ids[b - 1]);
                            }
                        } else if a < position && b > position {
                            assert(text_less(g0.ids[a], g0.ids[b - 1]));
                        } else if a > position {
                            assert(text_less(g0.ids[a - 1], g0.ids[b - 1]));
                        }
                    }
                }
                assert forall|j: int| 0 <= j < g1.deps.len() implies strictly_sorted(#[trigger] g1.deps[j]) by {
                    if j < position {
                        assert(g1.deps[j] == g0.deps[j]);
                    } else if j > position {
                        assert(g1.deps[j] == g0.deps[j - 1]);
                    }
                }
            }
        }
        let ghost g1 = self@;
        proof {
            assert(g1.ids[position as int] == consumer@);
        }
        self.insert_dependency_at(position, dependency.duplicate());
        proof {
            let g2 = self@;
            lemma_sorted_no_duplicates(g0.ids);
            lemma_sorted_no_duplicates(g2.ids);
            lemma_index_of_sorted(g2.ids, position as int);
            // Node sets.
            if found {
                assert(g2.ids.to_set() =~= g0.ids.to_set().insert(consumer@)) by {
                    assert(g0.ids[position as int] == consumer@);
                }
            } else {
                assert(g2.ids.to_set() =~= g0.ids.to_set().insert(consumer@)) by {
                    assert forall|x: Seq<char>| g2.ids.to_set().contains(x) implies g0.ids.to_set().insert(consumer@).contains(x) by {
                        let k = choose|k: int| 0 <= k < g2.ids.len() && g2.ids[k] == x;
                        if k < position {
                            assert(g0.ids[k] == x);
                        } else if k > position {
                            assert(g0.ids[k - 1] == x);
                        }
                    }
                    assert forall|x: Seq<char>| g0.ids.to_set().insert(consumer@).contains(x) implies g2.ids.to_set().contains(x) by {
                        if x == consumer@ {
                            assert(g2.ids[position as int] == x);
                        } else {
                            let k = choose|k: int| 0 <= k < g0.ids.len() && g0.ids[k] == x;
                            if k < position {
                                assert(g2.ids[k] == x);
                            } else {
                                assert(g2.ids[k + 1] == x);
                            }
                        }
                    }
                }
            }
            // Dependency sets.
            assert forall|a: Seq<char>| #![trigger dependencies_of(g2, a)]
                dependencies_of(g2, a) == if a == consumer@ {
                    dependencies_of(g0, a).insert(dependency@)
                } else {
                    dependencies_of(g0, a)
                } by {
                if a == consumer@ {
                    assert(g2.ids.contains(a));
                    if found {
                        lemma_index_of_sorted(g0.ids, position as int);
                        assert(g0.ids.contains(a));
                    } else {
                        assert(!g0.ids.contains(a));
                        assert(g1.deps[position as int] =~= Seq::<Seq<char>>::empty());
                        assert(dependencies_of(g0, a) =~= Set::<Seq<char>>::empty());
                        assert(g1.deps[position as int].to_set() =~= Set::<Seq<char>>::empty());
                    }
                } else if g0.ids.contains(a) {
                    let k0 = g0.ids.index_of(a);
                    g0.ids.index_of_first_ensures(a);
                    let k2 = if found || k0 < position {
                        k0
                    } else {
                        k0 + 1
                    };
                    assert(g2.ids[k2] == a);
                    lemma_index_of_sorted(g2.ids, k2);
                    assert(g2.deps[k2] == g0.deps[k0]);
                } else {
                    assert(!g2.ids.contains(a)) by {
                        if g2.ids.contains(a) {
                            let k = choose|k: int| 0 <= k < g2.ids.len() && g2.ids[k] == a;
                            if found {
                                assert(g0.ids[k] == a);
                            } else if k < position {
                                assert(g0.ids[k] == a);
                            } else if k > position {
                                assert(g0.ids[k - 1] == a);
                            }
                        }
                    }
                }
            }
            if graph_closed(g0) && (g0.ids.contains(dependency@) || dependency@ == consumer@) {
                lemma_closed_by_sets(g0);
                lemma_closed_by_sets(g2);
                assert forall|a: Seq<char>| #![trigger dependencies_of(g2, a)] g2.ids.contains(a) implies dependencies_of(g2, a).subset_of(g2.ids.to_set()) by {
                    assert(g2.ids.to_set().contains(a));
                    if a != consumer@ {
                        assert(g0.ids.to_set().contains(a));
                    }
                }
            }
        }
    }
}

} // verus!
