use vstd::prelude::*;

verus! {

/// Every node named in an index graph is one of its nodes `0..adj.len()`.
pub open spec fn index_graph_closed(adj: Seq<Seq<int>>) -> bool {
    forall|i: int, k: int|
        0 <= i < adj.len() && 0 <= k < adj[i].len() ==> 0 <= #[trigger] adj[i][k] < adj.len()
}

/// All entries lie in `0..n`.
pub open spec fn in_range(nodes: Seq<int>, n: int) -> bool {
    forall|t: int| 0 <= t < nodes.len() ==> 0 <= #[trigger] nodes[t] < n
}

/// Each listed node comes after every node it depends on.
pub open spec fn topological(adj: Seq<Seq<int>>, order: Seq<int>) -> bool {
    forall|p: int, k: int|
        0 <= p < order.len() && 0 <= k < adj[order[p]].len() ==> order.take(p).contains(
            #[trigger] adj[order[p]][k],
        )
}

/// Consecutive nodes are joined by dependencies.
pub open spec fn is_path(adj: Seq<Seq<int>>, path: Seq<int>) -> bool {
    forall|t: int| 0 <= t < path.len() - 1 ==> adj[path[t]].contains(#[trigger] path[t + 1])
}

/// A walk along dependencies that returns to where it started.
pub open spec fn is_cycle(adj: Seq<Seq<int>>, cycle: Seq<int>) -> bool {
    &&& cycle.len() >= 2
    &&& cycle[0] == cycle.last()
    &&& in_range(cycle, adj.len() as int)
    &&& is_path(adj, cycle)
}

/// Whether some nodes depend on each other in a circle.
pub open spec fn has_cycle(adj: Seq<Seq<int>>) -> bool {
    exists|cycle: Seq<int>| is_cycle(adj, cycle)
}

/// Depth-first visit of node `i` while the nodes of `active` are being
/// visited and the nodes of `done` are finished: either every node reachable
/// from `i` is appended to `done` after the nodes it depends on, or the
/// cycle through the active path that was found.
pub open spec fn visit(adj: Seq<Seq<int>>, active: Seq<int>, done: Seq<int>, i: int) -> Result<
    Seq<int>,
    Seq<int>,
>
    decreases adj.len() - active.len(), 1int, 0int,
{
    if done.contains(i) {
        Ok(done)
    } else if active.contains(i) {
        Err(active.subrange(active.index_of(i), active.len() as int).push(i))
    } else {
        visit_children(adj, active, done, i, 0)
    }
}

/// Visits the dependencies `adj[i][k..]` of node `i` in order, then finishes
/// `i` itself.
pub open spec fn visit_children(
    adj: Seq<Seq<int>>,
    active: Seq<int>,
    done: Seq<int>,
    i: int,
    k: int,
) -> Result<Seq<int>, Seq<int>>
    decreases adj.len() - active.len(), 0int, if 0 <= i < adj.len() {
        adj[i].len() - k
    } else {
        0
    },
{
    if !(0 <= i < adj.len()) || k < 0 || k >= adj[i].len() {
        Ok(done.push(i))
    } else if active.len() + 1 > adj.len() {
        Ok(done)
    } else {
        match visit(adj, active.push(i), done, adj[i][k]) {
            Ok(visited) => visit_children(adj, active, visited, i, k + 1),
            Err(cycle) => Err(cycle),
        }
    }
}

/// Visits the nodes `r..` in increasing order, each from an empty path.
pub open spec fn order_from(adj: Seq<Seq<int>>, done: Seq<int>, r: int) -> Result<
    Seq<int>,
    Seq<int>,
>
    decreases adj.len() - r,
{
    if r >= adj.len() {
        Ok(done)
    } else {
        match visit(adj, Seq::empty(), done, r) {
            Ok(visited) => order_from(adj, visited, r + 1),
            Err(cycle) => Err(cycle),
        }
    }
}

/// The dependency-first order of an index graph: the depth-first
/// post-order that starts from the nodes in increasing order and follows
/// each node's dependencies in their listed order, or the first cycle that
/// this search meets.
pub open spec fn dfs_order(adj: Seq<Seq<int>>) -> Result<Seq<int>, Seq<int>> {
    order_from(adj, Seq::empty(), 0)
}

/// A sequence without repetitions of nodes `0..n` has at most `n` entries.
pub proof fn lemma_distinct_nodes_bound(nodes: Seq<int>, n: int)
    requires
        nodes.no_duplicates(),
        in_range(nodes, n),
        0 <= n,
    ensures
        nodes.len() <= n,
        nodes.len() == n ==> forall|x: int| 0 <= x < n ==> nodes.contains(x),
{
    nodes.unique_seq_to_set();
    vstd::set_lib::lemma_int_range(0, n);
    assert(nodes.to_set().subset_of(vstd::set_lib::set_int_range(0, n)));
    vstd::set_lib::lemma_len_subset(nodes.to_set(), vstd::set_lib::set_int_range(0, n));
    if nodes.len() == n {
        assert forall|x: int| 0 <= x < n implies nodes.contains(x) by {
            if !nodes.contains(x) {
                let smaller = vstd::set_lib::set_int_range(0, n).remove(x);
                assert(nodes.to_set().subset_of(smaller));
                vstd::set_lib::lemma_len_subset(nodes.to_set(), smaller);
                assert(vstd::set_lib::set_int_range(0, n).contains(x));
            }
        }
    }
}

/// `done` stays a prefix, stays free of repetitions, and gains exactly the
/// finished nodes.
pub open spec fn extends(done: Seq<int>, more: Seq<int>) -> bool {
    more.len() >= done.len() && more.take(done.len() as int) == done
}

/// The invariant of a depth-first search state.
pub open spec fn search_state(adj: Seq<Seq<int>>, active: Seq<int>, done: Seq<int>) -> bool {
    &&& index_graph_closed(adj)
    &&& active.no_duplicates()
    &&& in_range(active, adj.len() as int)
    &&& done.no_duplicates()
    &&& in_range(done, adj.len() as int)
    &&& topological(adj, done)
    &&& forall|x: int| #[trigger] done.contains(x) ==> !active.contains(x)
    &&& is_path(adj, active)
}

proof fn lemma_extends_keeps(done: Seq<int>, more: Seq<int>, x: int)
    requires
        extends(done, more),
        done.contains(x),
    ensures
        more.contains(x),
{
    let t = choose|t: int| 0 <= t < done.len() && done[t] == x;
    assert(more.take(done.len() as int)[t] == x);
}

/// What a visit of node `i` finds.
pub proof fn lemma_visit(adj: Seq<Seq<int>>, active: Seq<int>, done: Seq<int>, i: int)
    requires
        search_state(adj, active, done),
        0 <= i < adj.len(),
        active.len() > 0 ==> adj[active.last()].contains(i),
    ensures
        match visit(adj, active, done, i) {
            Ok(visited) => {
                &&& search_state(adj, active, visited)
                &&& extends(done, visited)
                &&& visited.contains(i)
            },
            Err(cycle) => is_cycle(adj, cycle) && cycle.drop_last().no_duplicates(),
        },
    decreases adj.len() - active.len(), 1int, 0int,
{
    if done.contains(i) {
        assert(done.take(done.len() as int) =~= done);
    } else if active.contains(i) {
        let s = active.index_of(i);
        let cycle = active.subrange(s, active.len() as int).push(i);
        assert(active[s] == i);
        assert(cycle.drop_last() =~= active.subrange(s, active.len() as int));
        assert(cycle.drop_last().no_duplicates()) by {
            assert forall|a: int, b: int| 0 <= a < cycle.drop_last().len() && 0 <= b < cycle.drop_last().len() && a != b implies cycle.drop_last()[a] != cycle.drop_last()[b] by {
                assert(cycle.drop_last()[a] == active[s + a]);
                assert(cycle.drop_last()[b] == active[s + b]);
            }
        }
        assert forall|t: int| 0 <= t < cycle.len() - 1 implies adj[cycle[t]].contains(
            #[trigger] cycle[t + 1],
        ) by {
            if t < cycle.len() - 2 {
                assert(cycle[t] == active[s + t]);
                assert(cycle[t + 1] == active[s + t + 1]);
            } else {
                assert(cycle[t] == active.last());
            }
        }
    } else {
        lemma_visit_children(adj, active, done, i, 0);
    }
}

/// What visiting the dependencies `adj[i][k..]` and finishing `i` finds.
pub proof fn lemma_visit_children(
    adj: Seq<Seq<int>>,
    active: Seq<int>,
    done: Seq<int>,
    i: int,
    k: int,
)
    requires
        search_state(adj, active, done),
        0 <= i < adj.len(),
        !done.contains(i),
        !active.contains(i),
        active.len() > 0 ==> adj[active.last()].contains(i),
        0 <= k <= adj[i].len(),
        forall|j: int| 0 <= j < k ==> done.contains(#[trigger] adj[i][j]),
    ensures
        match visit_children(adj, active, done, i, k) {
            Ok(visited) => {
                &&& search_state(adj, active, visited)
                &&& extends(done, visited)
                &&& visited.contains(i)
            },
            Err(cycle) => is_cycle(adj, cycle) && cycle.drop_last().no_duplicates(),
        },
    decreases adj.len() - active.len(), 0int, adj[i].len() - k,
{
    let pushed = active.push(i);
    assert(pushed.no_duplicates());
    assert(in_range(pushed, adj.len() as int));
    assert(is_path(adj, pushed)) by {
        assert forall|t: int| 0 <= t < pushed.len() - 1 implies adj[pushed[t]].contains(
            #[trigger] pushed[t + 1],
        ) by {
            if t < active.len() - 1 {
                assert(pushed[t] == active[t] && pushed[t + 1] == active[t + 1]);
            } else {
                assert(pushed[t] == active.last());
            }
        }
    }
    if k >= adj[i].len() {
        let visited = done.push(i);
        assert(visited.take(done.len() as int) =~= done);
        assert(topological(adj, visited)) by {
            assert forall|p: int, q: int|
                0 <= p < visited.len() && 0 <= q < adj[visited[p]].len() implies visited.take(
                p,
            ).contains(#[trigger] adj[visited[p]][q]) by {
                if p < done.len() {
                    assert(visited.take(p) =~= done.take(p));
                } else {
                    assert(visited.take(p) =~= done);
                    assert(done.contains(adj[i][q]));
                }
            }
        }
        assert forall|x: int| #[trigger] visited.contains(x) implies !active.contains(x) by {
            let t = choose|t: int| 0 <= t < visited.len() && visited[t] == x;
            if t < done.len() {
                assert(done.contains(x));
            }
        }
        assert(visited[done.len() as int] == i);
    } else {
        lemma_distinct_nodes_bound(pushed, adj.len() as int);
        let child = adj[i][k];
        assert(search_state(adj, pushed, done)) by {
            assert forall|x: int| #[trigger] done.contains(x) implies !pushed.contains(x) by {
                if pushed.contains(x) {
                    let t = choose|t: int| 0 <= t < pushed.len() && pushed[t] == x;
                    if t < active.len() {
                        assert(active.contains(x));
                    }
                }
            }
        }
        assert(adj[pushed.last()].contains(child)) by {
            assert(adj[i][k] == child);
        }
        lemma_visit(adj, pushed, done, child);
        match visit(adj, pushed, done, child) {
            Ok(visited) => {
                assert(search_state(adj, active, visited)) by {
                    assert forall|x: int| #[trigger] visited.contains(x) implies !active.contains(
                        x,
                    ) by {
                        if active.contains(x) {
                            let t = choose|t: int| 0 <= t < active.len() && active[t] == x;
                            assert(pushed[t] == x);
                        }
                    }
                }
                assert(!visited.contains(i)) by {
                    assert(pushed[active.len() as int] == i);
                }
                assert forall|j: int| 0 <= j < k + 1 implies visited.contains(#[trigger] adj[i][j]) by {
                    if j < k {
                        lemma_extends_keeps(done, visited, adj[i][j]);
                    }
                }
                lemma_visit_children(adj, active, visited, i, k + 1);
                match visit_children(adj, active, visited, i, k + 1) {
                    Ok(more) => {
                        assert(more.take(done.len() as int) =~= more.take(visited.len() as int).take(
                            done.len() as int,
                        ));
                    },
                    Err(_) => {},
                }
            },
            Err(_) => {},
        }
    }
}

proof fn lemma_order_from(adj: Seq<Seq<int>>, done: Seq<int>, r: int)
    requires
        search_state(adj, Seq::empty(), done),
        0 <= r <= adj.len(),
        forall|x: int| 0 <= x < r ==> done.contains(x),
    ensures
        match order_from(adj, done, r) {
            Ok(order) => search_state(adj, Seq::empty(), order) && forall|x: int|
                0 <= x < adj.len() ==> order.contains(x),
            Err(cycle) => is_cycle(adj, cycle) && cycle.drop_last().no_duplicates(),
        },
    decreases adj.len() - r,
{
    if r < adj.len() {
        lemma_visit(adj, Seq::empty(), done, r);
        match visit(adj, Seq::empty(), done, r) {
            Ok(visited) => {
                assert forall|x: int| 0 <= x < r + 1 implies visited.contains(x) by {
                    if x < r {
                        lemma_extends_keeps(done, visited, x);
                    }
                }
                lemma_order_from(adj, visited, r + 1);
            },
            Err(_) => {},
        }
    }
}

/// In a topological order, a dependency stands before its dependent.
proof fn lemma_topological_position(adj: Seq<Seq<int>>, order: Seq<int>, x: int, y: int)
    requires
        topological(adj, order),
        order.no_duplicates(),
        order.contains(x),
        adj[x].contains(y),
    ensures
        order.contains(y),
        order.index_of(y) < order.index_of(x),
{
    let p = order.index_of(x);
    order.index_of_first_ensures(x);
    let k = choose|k: int| 0 <= k < adj[x].len() && adj[x][k] == y;
    assert(order[p] == x);
    assert(order.take(p).contains(adj[order[p]][k]));
    let q = choose|q: int| 0 <= q < order.take(p).len() && order.take(p)[q] == y;
    assert(order[q] == y);
    assert(order.index_of(y) == q) by {
        order.index_of_first_ensures(y);
    }
}

/// A graph that has a topological order of all its nodes has no cycle.
pub proof fn lemma_topological_means_acyclic(adj: Seq<Seq<int>>, order: Seq<int>)
    requires
        topological(adj, order),
        order.no_duplicates(),
        forall|x: int| 0 <= x < adj.len() ==> order.contains(x),
    ensures
        !has_cycle(adj),
{
    if has_cycle(adj) {
        let cycle = choose|cycle: Seq<int>| is_cycle(adj, cycle);
        let first = cycle[0];
        assert(order.contains(first));
        assert forall|t: int| 1 <= t < cycle.len() implies order.contains(#[trigger] cycle[t])
            && order.index_of(cycle[t]) < order.index_of(first) by {
            lemma_cycle_prefix(adj, order, cycle, t);
        }
        assert(order.index_of(cycle.last()) < order.index_of(first));
    }
}

proof fn lemma_cycle_prefix(adj: Seq<Seq<int>>, order: Seq<int>, cycle: Seq<int>, t: int)
    requires
        topological(adj, order),
        order.no_duplicates(),
        forall|x: int| 0 <= x < adj.len() ==> order.contains(x),
        is_cycle(adj, cycle),
        1 <= t < cycle.len(),
    ensures
        order.contains(cycle[t]),
        order.index_of(cycle[t]) < order.index_of(cycle[0]),
    decreases t,
{
    let s = t - 1;
    assert(adj[cycle[s]].contains(cycle[s + 1]));
    assert(s + 1 == t);
    assert(0 <= cycle[t - 1] < adj.len());
    lemma_topological_position(adj, order, cycle[t - 1], cycle[t]);
    if t > 1 {
        lemma_cycle_prefix(adj, order, cycle, t - 1);
    }
}

/// The dependency-first order lists every node exactly once, each after
/// the nodes it depends on, and exists exactly when the graph has no cycle;
/// otherwise the search reports a cycle of the graph.
pub proof fn lemma_dfs_order(adj: Seq<Seq<int>>)
    requires
        index_graph_closed(adj),
    ensures
        match dfs_order(adj) {
            Ok(order) => {
                &&& order.no_duplicates()
                &&& in_range(order, adj.len() as int)
                &&& order.len() == adj.len()
                &&& forall|x: int| 0 <= x < adj.len() ==> order.contains(x)
                &&& topological(adj, order)
            },
            Err(cycle) => is_cycle(adj, cycle) && cycle.drop_last().no_duplicates(),
        },
        dfs_order(adj) is Ok <==> !has_cycle(adj),
{
    let empty = Seq::<int>::empty();
    assert(search_state(adj, empty, empty));
    lemma_order_from(adj, empty, 0);
    match dfs_order(adj) {
        Ok(order) => {
            lemma_distinct_nodes_bound(order, adj.len() as int);
            assert(order.len() >= adj.len()) by {
                vstd::set_lib::lemma_int_range(0, adj.len() as int);
                assert(vstd::set_lib::set_int_range(0, adj.len() as int).subset_of(order.to_set()));
                order.unique_seq_to_set();
                vstd::set_lib::lemma_len_subset(
                    vstd::set_lib::set_int_range(0, adj.len() as int),
                    order.to_set(),
                );
            }
            lemma_topological_means_acyclic(adj, order);
        },
        Err(cycle) => {
            assert(is_cycle(adj, cycle));
        },
    }
}

/// The integers of a sequence of indices.
pub open spec fn ints(indices: Seq<usize>) -> Seq<int> {
    indices.map_values(|x: usize| x as int)
}

/// The index graph that adjacency lists of `usize` describe.
pub open spec fn int_graph(adj: Seq<Vec<usize>>) -> Seq<Seq<int>> {
    adj.map_values(|list: Vec<usize>| ints(list@))
}

/// Whether `completed` marks exactly the nodes of `ordered`.
pub open spec fn marks(completed: Seq<bool>, ordered: Seq<usize>) -> bool {
    forall|j: int| 0 <= j < completed.len() ==> (completed[j] <==> ints(ordered).contains(j))
}

proof fn lemma_ints_push(v: Seq<usize>, x: usize)
    ensures
        ints(v.push(x)) == ints(v).push(x as int),
{
    assert(ints(v.push(x)) =~= ints(v).push(x as int));
}

/// Depth-first visit of node `i`, as `visit` describes it.
fn visit_node(
    adj: &Vec<Vec<usize>>,
    active: &mut Vec<usize>,
    completed: &mut Vec<bool>,
    ordered: &mut Vec<usize>,
    i: usize,
) -> (result: Result<(), Vec<usize>>)
    requires
        index_graph_closed(int_graph(adj@)),
        i < adj@.len(),
        old(completed)@.len() == adj@.len(),
        marks(old(completed)@, old(ordered)@),
        ints(old(active)@).no_duplicates(),
        in_range(ints(old(active)@), adj@.len() as int),
    ensures
        match visit(int_graph(adj@), ints(old(active)@), ints(old(ordered)@), i as int) {
            Ok(visited) => {
                &&& result is Ok
                &&& ints(final(ordered)@) == visited
                &&& final(active)@ == old(active)@
                &&& final(completed)@.len() == adj@.len()
                &&& marks(final(completed)@, final(ordered)@)
            },
            Err(cycle) => result matches Err(found) && ints(found@) == cycle,
        },
    decreases adj@.len() - old(active)@.len(),
{
    let ghost g = int_graph(adj@);
    let ghost a0 = ints(active@);
    let ghost d0 = ints(ordered@);
    if completed[i] {
        return Ok(());
    }
    let n = active.len();
    let mut s: usize = 0;
    while s < n && active[s] != i
        invariant
            n == active@.len(),
            s <= n,
            forall|t: int| 0 <= t < s ==> active@[t] != i,
        decreases n - s,
    {
        s = s + 1;
    }
    if s < n {
        let mut cycle: Vec<usize> = Vec::new();
        let mut t: usize = s;
        while t < n
            invariant
                n == active@.len(),
                a0 == ints(active@),
                s <= t <= n,
                ints(cycle@) == a0.subrange(s as int, t as int),
            decreases n - t,
        {
            proof {
                lemma_ints_push(cycle@, active@[t as int]);
            }
            cycle.push(active[t]);
            assert(a0.subrange(s as int, t + 1) =~= a0.subrange(s as int, t as int).push(
                active@[t as int] as int,
            ));
            t = t + 1;
        }
        proof {
            lemma_ints_push(cycle@, i);
            assert(a0[s as int] == i as int);
            assert(a0.contains(i as int));
            a0.index_of_first_ensures(i as int);
            assert(a0.index_of(i as int) == s) by {
                let q = a0.index_of(i as int);
                if q != s {
                    assert(a0[q] == i as int);
                }
            }
        }
        cycle.push(i);
        return Err(cycle);
    }
    proof {
        assert(!a0.contains(i as int)) by {
            if a0.contains(i as int) {
                let q = choose|q: int| 0 <= q < a0.len() && a0[q] == i as int;
                assert(active@[q] == i);
            }
        }
        assert(!d0.contains(i as int));
    }
    proof {
        lemma_ints_push(active@, i);
    }
    active.push(i);
    let ghost pushed = ints(active@);
    proof {
        assert(pushed.no_duplicates());
        assert(in_range(pushed, adj@.len() as int));
        lemma_distinct_nodes_bound(pushed, adj@.len() as int);
        assert(g[i as int] == ints(adj@[i as int]@));
    }
    let deg = adj[i].len();
    let mut k: usize = 0;
    while k < deg
        invariant
            g == int_graph(adj@),
            index_graph_closed(g),
            i < adj@.len(),
            deg == adj@[i as int]@.len(),
            k <= deg,
            active@ == old(active)@.push(i),
            a0 == ints(old(active)@),
            d0 == ints(old(ordered)@),
            pushed == ints(active@),
            pushed == a0.push(i as int),
            pushed.no_duplicates(),
            in_range(pushed, adj@.len() as int),
            pushed.len() <= adj@.len(),
            completed@.len() == adj@.len(),
            marks(completed@, ordered@),
            visit(g, a0, d0, i as int) == visit_children(g, a0, ints(ordered@), i as int, k as int),
        decreases deg - k,
    {
        let child = adj[i][k];
        let ghost cur = ints(ordered@);
        proof {
            assert(g[i as int][k as int] == child as int);
            assert(g[i as int].len() == deg);
            assert(visit_children(g, a0, ints(ordered@), i as int, k as int) == match visit(
                g,
                pushed,
                ints(ordered@),
                child as int,
            ) {
                Ok(visited) => visit_children(g, a0, visited, i as int, k + 1),
                Err(cycle) => Err(cycle),
            });
        }
        match visit_node(adj, active, completed, ordered, child) {
            Ok(()) => {},
            Err(cycle) => {
                proof {
                    assert(visit(g, pushed, cur, child as int) is Err);
                    assert(visit(g, a0, d0, i as int) == visit(g, pushed, cur, child as int));
                }
                return Err(cycle);
            },
        }
        k = k + 1;
    }
    active.pop();
    proof {
        assert(active@ =~= old(active)@);
        lemma_ints_push(ordered@, i);
    }
    let ghost old_ordered = ints(ordered@);
    let ghost old_completed = completed@;
    ordered.push(i);
    completed.set(i, true);
    proof {
        let now = ints(ordered@);
        assert(now == old_ordered.push(i as int));
        assert(completed@ == old_completed.update(i as int, true));
        assert forall|j: int| 0 <= j < completed@.len() implies (completed@[j] <==> #[trigger] ints(
            ordered@,
        ).contains(j)) by {
            if j != i {
                assert(completed@[j] == old_completed[j]);
                if now.contains(j) {
                    let q = choose|q: int| 0 <= q < now.len() && now[q] == j;
                    assert(q < old_ordered.len());
                    assert(old_ordered[q] == j);
                }
                if old_ordered.contains(j) {
                    let q = choose|q: int| 0 <= q < old_ordered.len() && old_ordered[q] == j;
                    assert(now[q] == j);
                }
            } else {
                assert(now[now.len() - 1] == j);
            }
        }
    }
    Ok(())
}

/// The dependency-first order of an index graph, or the cycle found, as
/// `dfs_order` describes them.
pub fn dependency_first(adj: &Vec<Vec<usize>>) -> (result: Result<Vec<usize>, Vec<usize>>)
    requires
        index_graph_closed(int_graph(adj@)),
    ensures
        match dfs_order(int_graph(adj@)) {
            Ok(order) => result matches Ok(found) && ints(found@) == order,
            Err(cycle) => result matches Err(found) && ints(found@) == cycle,
        },
{
    let ghost g = int_graph(adj@);
    let n = adj.len();
    let mut active: Vec<usize> = Vec::new();
    let mut completed: Vec<bool> = Vec::new();
    let mut c: usize = 0;
    while c < n
        invariant
            n == adj@.len(),
            c <= n,
            completed@.len() == c,
            forall|j: int| 0 <= j < c ==> !completed@[j],
        decreases n - c,
    {
        completed.push(false);
        c = c + 1;
    }
    let mut ordered: Vec<usize> = Vec::new();
    assert(ints(ordered@) =~= Seq::<int>::empty());
    assert(ints(active@) =~= Seq::<int>::empty());
    let mut r: usize = 0;
    while r < n
        invariant
            g == int_graph(adj@),
            index_graph_closed(g),
            n == adj@.len(),
            r <= n,
            active@.len() == 0,
            completed@.len() == n,
            marks(completed@, ordered@),
            dfs_order(g) == order_from(g, ints(ordered@), r as int),
        decreases n - r,
    {
        assert(ints(active@) =~= Seq::<int>::empty());
        match visit_node(adj, &mut active, &mut completed, &mut ordered, r) {
            Ok(()) => {},
            Err(cycle) => {
                return Err(cycle);
            },
        }
        r = r + 1;
    }
    Ok(ordered)
}

} // verus!
