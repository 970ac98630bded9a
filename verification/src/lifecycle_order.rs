use vstd::prelude::*;

use crate::composition::{id_texts, ModuleInstanceId};

verus! {

/// The position of identifier `id` in the dependency-first order `order`.
pub open spec fn rank(order: Seq<Seq<char>>, id: Seq<char>) -> int {
    order.index_of(id)
}

/// Whether the module installed at position `p` goes through the lifecycle
/// before the one installed at `q`: its identifier comes earlier in the
/// dependency-first order, or both carry the same identifier and `p` was
/// installed first.
pub open spec fn lifecycle_before(ids: Seq<Seq<char>>, order: Seq<Seq<char>>, p: int, q: int) -> bool {
    ||| rank(order, ids[p]) < rank(order, ids[q])
    ||| (rank(order, ids[p]) == rank(order, ids[q]) && p < q)
}

/// Whether position `k` occurs in `positions`.
pub open spec fn lists(positions: Seq<usize>, k: int) -> bool {
    exists|i: int| 0 <= i < positions.len() && positions[i] == k
}

/// Whether `positions` lists every installed position exactly once, sorted
/// by the rank of the module's identifier in `order` and, among modules of
/// the same identifier, by installation.
pub open spec fn is_lifecycle_order(ids: Seq<Seq<char>>, order: Seq<Seq<char>>, positions: Seq<usize>) -> bool {
    &&& forall|i: int| 0 <= i < positions.len() ==> #[trigger] positions[i] < ids.len()
    &&& forall|k: int| 0 <= k < ids.len() ==> #[trigger] lists(positions, k)
    &&& forall|i: int, j: int|
        0 <= i < j < positions.len() ==> lifecycle_before(ids, order, #[trigger] positions[i] as int, #[trigger] positions[j] as int)
}

/// The items at the given positions, in the order of `positions`.
pub open spec fn permuted<A>(items: Seq<A>, positions: Seq<usize>) -> Seq<A> {
    Seq::new(positions.len(), |i: int| items[positions[i] as int])
}

/// Whether no position occurs twice.
pub open spec fn distinct_positions(positions: Seq<usize>) -> bool {
    forall|i: int, j: int| 0 <= i < positions.len() && 0 <= j < positions.len() && i != j ==> positions[i] != positions[j]
}

proof fn lemma_rank_of_entry(order: Seq<Seq<char>>, i: int)
    requires
        order.no_duplicates(),
        0 <= i < order.len(),
    ensures
        rank(order, order[i]) == i,
{
    let r = order.index_of(order[i]);
    assert(0 <= r < order.len() && order[r] == order[i]);
}

proof fn lemma_rank_in_range(order: Seq<Seq<char>>, id: Seq<char>)
    requires
        order.contains(id),
    ensures
        0 <= rank(order, id) < order.len(),
        order[rank(order, id)] == id,
{
}

/// A lifecycle order lists no position twice.
pub proof fn lemma_lifecycle_order_distinct(ids: Seq<Seq<char>>, order: Seq<Seq<char>>, positions: Seq<usize>)
    requires
        is_lifecycle_order(ids, order, positions),
    ensures
        distinct_positions(positions),
{
    assert forall|i: int, j: int| 0 <= i < positions.len() && 0 <= j < positions.len() && i != j implies positions[i] != positions[j] by {
        if i < j {
            assert(lifecycle_before(ids, order, positions[i] as int, positions[j] as int));
        } else {
            assert(lifecycle_before(ids, order, positions[j] as int, positions[i] as int));
        }
    }
}

/// A strictly increasing sequence of `n` values below `n` counts up from
/// zero.
proof fn lemma_increasing_ranks(r: Seq<int>, n: int)
    requires
        r.len() == n,
        forall|i: int| 0 <= i < n ==> 0 <= #[trigger] r[i] < n,
        forall|i: int, j: int| 0 <= i < j < n ==> #[trigger] r[i] < #[trigger] r[j],
    ensures
        forall|i: int| 0 <= i < n ==> #[trigger] r[i] == i,
{
    assert forall|i: int| 0 <= i < n implies #[trigger] r[i] == i by {
        lemma_increasing_from_start(r, n, i);
        lemma_increasing_to_end(r, n, i);
    }
}

proof fn lemma_increasing_from_start(r: Seq<int>, n: int, i: int)
    requires
        r.len() == n,
        0 <= i < n,
        forall|k: int| 0 <= k < n ==> 0 <= #[trigger] r[k] < n,
        forall|a: int, b: int| 0 <= a < b < n ==> #[trigger] r[a] < #[trigger] r[b],
    ensures
        r[i] >= i,
    decreases i,
{
    if i > 0 {
        lemma_increasing_from_start(r, n, i - 1);
        assert(r[i - 1] < r[i]);
    }
}

proof fn lemma_increasing_to_end(r: Seq<int>, n: int, i: int)
    requires
        r.len() == n,
        0 <= i < n,
        forall|k: int| 0 <= k < n ==> 0 <= #[trigger] r[k] < n,
        forall|a: int, b: int| 0 <= a < b < n ==> #[trigger] r[a] < #[trigger] r[b],
    ensures
        r[i] <= i,
    decreases n - i,
{
    if i < n - 1 {
        lemma_increasing_to_end(r, n, i + 1);
        assert(r[i] < r[i + 1]);
    }
}

/// When no two modules share an identifier, the lifecycle order lists the
/// modules exactly in the dependency-first order of their identifiers.
pub proof fn lemma_lifecycle_order_follows_order(ids: Seq<Seq<char>>, order: Seq<Seq<char>>, positions: Seq<usize>)
    requires
        is_lifecycle_order(ids, order, positions),
        ids.no_duplicates(),
        order.no_duplicates(),
        ids.to_set() == order.to_set(),
    ensures
        permuted(ids, positions) == order,
{
    let n = ids.len() as int;
    lemma_lifecycle_order_distinct(ids, order, positions);
    // Every position is listed once, so there are as many as modules.
    let listed = positions.map_values(|p: usize| p as int);
    assert(listed.no_duplicates()) by {
        assert forall|i: int, j: int| 0 <= i < listed.len() && 0 <= j < listed.len() && i != j implies listed[i] != listed[j] by {
            assert(positions[i] != positions[j]);
        }
    }
    listed.unique_seq_to_set();
    assert(listed.to_set() =~= vstd::set_lib::set_int_range(0, n)) by {
        assert forall|k: int| vstd::set_lib::set_int_range(0, n).contains(k) implies listed.to_set().contains(k) by {
            assert(lists(positions, k));
            let i = choose|i: int| 0 <= i < positions.len() && positions[i] == k;
            assert(listed[i] == k);
        }
        assert forall|k: int| listed.to_set().contains(k) implies vstd::set_lib::set_int_range(0, n).contains(k) by {
            let i = choose|i: int| 0 <= i < listed.len() && listed[i] == k;
            assert(positions[i] < n);
        }
    }
    vstd::set_lib::lemma_int_range(0, n);
    assert(positions.len() == n);
    // The identifiers and the order hold the same texts once each.
    ids.unique_seq_to_set();
    order.unique_seq_to_set();
    assert(order.len() == n);
    // The ranks of the listed identifiers strictly increase.
    let r = Seq::new(n as nat, |i: int| rank(order, ids[positions[i] as int]));
    assert forall|i: int| 0 <= i < n implies 0 <= #[trigger] r[i] < n && order[r[i]] == ids[positions[i] as int] by {
        let id = ids[positions[i] as int];
        assert(ids.to_set().contains(id));
        assert(order.to_set().contains(id));
        assert(order.contains(id));
    }
    assert forall|i: int, j: int| 0 <= i < j < n implies #[trigger] r[i] < #[trigger] r[j] by {
        assert(lifecycle_before(ids, order, positions[i] as int, positions[j] as int));
        if r[i] == r[j] {
            assert(order[r[i]] == ids[positions[i] as int]);
            assert(order[r[j]] == ids[positions[j] as int]);
            assert(positions[i] != positions[j]);
        }
    }
    lemma_increasing_ranks(r, n);
    assert forall|i: int| 0 <= i < n implies #[trigger] permuted(ids, positions)[i] == order[i] by {
        assert(r[i] == i);
    }
    assert(permuted(ids, positions) =~= order);
}

/// The positions of the modules in lifecycle order: for each identifier of
/// `order` in turn, the positions that carry it, in installation order.
pub fn lifecycle_positions(ids: &Vec<ModuleInstanceId>, order: &Vec<ModuleInstanceId>) -> (positions: Vec<usize>)
    requires
        id_texts(order@).no_duplicates(),
        forall|k: int| 0 <= k < ids@.len() ==> id_texts(order@).contains(#[trigger] ids@[k]@),
    ensures
        is_lifecycle_order(id_texts(ids@), id_texts(order@), positions@),
{
    let ghost texts = id_texts(ids@);
    let ghost names = id_texts(order@);
    let n = ids.len();
    let count = order.len();
    let mut positions: Vec<usize> = Vec::new();
    let mut i: usize = 0;
    while i < count
        invariant
            texts == id_texts(ids@),
            names == id_texts(order@),
            names.no_duplicates(),
            forall|k: int| 0 <= k < texts.len() ==> names.contains(#[trigger] texts[k]),
            n == ids@.len(),
            count == order@.len(),
            i <= count,
            forall|q: int| 0 <= q < positions@.len() ==> #[trigger] positions@[q] < n && rank(names, texts[positions@[q] as int]) < i,
            forall|k: int| 0 <= k < n && rank(names, texts[k]) < i ==> #[trigger] lists(positions@, k),
            forall|q1: int, q2: int|
                0 <= q1 < q2 < positions@.len() ==> lifecycle_before(texts, names, #[trigger] positions@[q1] as int, #[trigger] positions@[q2] as int),
        decreases count - i,
    {
        proof {
            lemma_rank_of_entry(names, i as int);
        }
        let mut k: usize = 0;
        while k < n
            invariant
                texts == id_texts(ids@),
                names == id_texts(order@),
                names.no_duplicates(),
                forall|k2: int| 0 <= k2 < texts.len() ==> names.contains(#[trigger] texts[k2]),
                n == ids@.len(),
                count == order@.len(),
                i < count,
                rank(names, names[i as int]) == i,
                k <= n,
                forall|q: int| 0 <= q < positions@.len() ==> #[trigger] positions@[q] < n && (rank(names, texts[positions@[q] as int]) < i || (rank(names, texts[positions@[q] as int]) == i && positions@[q] < k)),
                forall|k2: int| 0 <= k2 < n && (rank(names, texts[k2]) < i || (rank(names, texts[k2]) == i && k2 < k)) ==> #[trigger] lists(positions@, k2),
                forall|q1: int, q2: int|
                    0 <= q1 < q2 < positions@.len() ==> lifecycle_before(texts, names, #[trigger] positions@[q1] as int, #[trigger] positions@[q2] as int),
            decreases n - k,
        {
            let ghost before = positions@;
            proof {
                lemma_rank_in_range(names, texts[k as int]);
            }
            if ids[k].same_as(&order[i]) {
                positions.push(k);
                proof {
                    assert(texts[k as int] == names[i as int]);
                    assert forall|q1: int, q2: int| 0 <= q1 < q2 < positions@.len() implies lifecycle_before(texts, names, #[trigger] positions@[q1] as int, #[trigger] positions@[q2] as int) by {
                        if q2 < before.len() {
                            assert(positions@[q1] == before[q1] && positions@[q2] == before[q2]);
                        } else {
                            assert(positions@[q1] == before[q1]);
                        }
                    }
                    assert forall|k2: int| 0 <= k2 < n && (rank(names, texts[k2]) < i || (rank(names, texts[k2]) == i && k2 < k + 1)) implies #[trigger] lists(positions@, k2) by {
                        if k2 == k {
                            assert(positions@[before.len() as int] == k2);
                        } else {
                            assert(lists(before, k2));
                            let q = choose|q: int| 0 <= q < before.len() && before[q] == k2;
                            assert(positions@[q] == k2);
                        }
                    }
                }
            } else {
                proof {
                    assert(texts[k as int] != names[i as int]);
                    assert(rank(names, texts[k as int]) != i);
                }
            }
            k = k + 1;
        }
        i = i + 1;
    }
    proof {
        assert forall|k: int| 0 <= k < texts.len() implies #[trigger] lists(positions@, k) by {
            lemma_rank_in_range(names, texts[k]);
        }
    }
    positions
}

/// The items at the given positions, each taken once.
pub fn permute<T>(items: Vec<T>, positions: &Vec<usize>) -> (result: Vec<T>)
    requires
        forall|i: int| 0 <= i < positions@.len() ==> #[trigger] positions@[i] < items@.len(),
        distinct_positions(positions@),
    ensures
        result@ == permuted(items@, positions@),
{
    let ghost given = items@;
    let n = items.len();
    let mut rest = items;
    let mut slots: Vec<Option<T>> = Vec::new();
    while rest.len() > 0
        invariant
            n == given.len(),
            rest@.len() + slots@.len() == n,
            rest@ == given.take(rest@.len() as int),
            forall|j: int| 0 <= j < slots@.len() ==> #[trigger] slots@[j] == Some(given[n - 1 - j]),
        decreases rest@.len(),
    {
        let item = rest.pop().unwrap();
        slots.push(Some(item));
        proof {
            assert(rest@ =~= given.take(rest@.len() as int));
        }
    }
    let count = positions.len();
    let mut result: Vec<T> = Vec::new();
    let mut i: usize = 0;
    while i < count
        invariant
            n == given.len(),
            slots@.len() == n,
            count == positions@.len(),
            forall|q: int| 0 <= q < count ==> #[trigger] positions@[q] < n,
            distinct_positions(positions@),
            i <= count,
            result@ =~= permuted(given, positions@).take(i as int),
            forall|j: int| 0 <= j < n ==> (#[trigger] slots@[j] == Some(given[n - 1 - j]) || exists|q: int| 0 <= q < i && positions@[q] == n - 1 - j),
        decreases count - i,
    {
        let p = positions[i];
        let j = n - 1 - p;
        let ghost slots_before = slots@;
        proof {
            assert(slots_before[j as int] == Some(given[p as int])) by {
                if slots_before[j as int] != Some(given[n - 1 - j]) {
                    let q = choose|q: int| 0 <= q < i && positions@[q] == n - 1 - j;
                    assert(positions@[q] == positions@[i as int]);
                }
            }
        }
        let taken = slots.remove(j);
        slots.insert(j, None);
        let item = taken.unwrap();
        result.push(item);
        proof {
            assert forall|j2: int| 0 <= j2 < n implies (#[trigger] slots@[j2] == Some(given[n - 1 - j2]) || exists|q: int| 0 <= q < i + 1 && positions@[q] == n - 1 - j2) by {
                if j2 == j {
                    assert(positions@[i as int] == n - 1 - j2);
                } else {
                    assert(slots@[j2] == slots_before[j2]);
                    if slots_before[j2] != Some(given[n - 1 - j2]) {
                        let q = choose|q: int| 0 <= q < i && positions@[q] == n - 1 - j2;
                        assert(0 <= q < i + 1 && positions@[q] == n - 1 - j2);
                    }
                }
            }
        }
        i = i + 1;
    }
    proof {
        assert(permuted(given, positions@).take(count as int) =~= permuted(given, positions@));
    }
    result
}

} // verus!
