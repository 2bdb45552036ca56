//! The lowest id that is not in use.
use vstd::prelude::*;
use vstd::seq_lib::{to_multiset_contains, to_multiset_insert};

verus! {

/// The numbers of a sequence of ids.
pub open spec fn numbers(ids: Seq<u64>) -> Seq<nat> {
    ids.map_values(|id: u64| id as nat)
}

/// Whether `id` is the lowest number that is not among `ids`.
pub open spec fn is_lowest_available(ids: Seq<nat>, id: nat) -> bool {
    &&& !ids.contains(id)
    &&& forall|lower: nat| lower < id ==> ids.contains(lower)
}

/// The lowest number that is not among `ids`.
pub open spec fn lowest_available(ids: Seq<nat>) -> nat {
    choose|id: nat| is_lowest_available(ids, id)
}

/// Whether `s` ascends.
pub open spec fn is_sorted(s: Seq<u64>) -> bool {
    forall|i: int, j: int| 0 <= i <= j < s.len() ==> s[i] <= s[j]
}

/// There is one lowest available number at most.
pub proof fn lemma_lowest_available_unique(ids: Seq<nat>, a: nat, b: nat)
    requires
        is_lowest_available(ids, a),
        is_lowest_available(ids, b),
    ensures
        a == b,
{
}

/// Every number up to `n` is among `ids` only if `ids` holds more than `n`
/// numbers.
proof fn lemma_room_for_all(ids: Seq<nat>, n: nat)
    requires
        forall|m: nat| m <= n ==> ids.contains(m),
    ensures
        ids.len() > n,
    decreases n,
{
    assert(ids.contains(n));
    let at = choose|at: int| 0 <= at < ids.len() && ids[at] == n;
    if n > 0 {
        let rest = ids.remove(at);
        assert forall|m: nat| m <= n - 1 implies rest.contains(m) by {
            assert(ids.contains(m));
            let k = choose|k: int| 0 <= k < ids.len() && ids[k] == m;
            if k < at {
                assert(rest[k] == m);
            } else {
                assert(rest[k - 1] == m);
            }
        }
        lemma_room_for_all(rest, (n - 1) as nat);
    }
}

/// Below a number that is not among `ids` there is a lowest one.
proof fn lemma_lowest_below(ids: Seq<nat>, n: nat)
    requires
        !ids.contains(n),
    ensures
        exists|id: nat| id <= n && is_lowest_available(ids, id),
    decreases n,
{
    if forall|lower: nat| lower < n ==> ids.contains(lower) {
        assert(is_lowest_available(ids, n));
    } else {
        let lower = choose|lower: nat| lower < n && !ids.contains(lower);
        lemma_lowest_below(ids, lower);
    }
}

/// There is a lowest number that is not among `ids`, and it is at most
/// the number of ids.
pub proof fn lemma_lowest_available(ids: Seq<nat>)
    ensures
        is_lowest_available(ids, lowest_available(ids)),
        lowest_available(ids) <= ids.len(),
{
    if forall|m: nat| m <= ids.len() ==> ids.contains(m) {
        lemma_room_for_all(ids, ids.len());
    }
    let missing = choose|m: nat| m <= ids.len() && !ids.contains(m);
    lemma_lowest_below(ids, missing);
    let id = choose|id: nat| id <= missing && is_lowest_available(ids, id);
    lemma_lowest_available_unique(ids, id, lowest_available(ids));
}

/// The ids in ascending order, each as often as it was given.
pub fn sorted_ids(ids: &Vec<u64>) -> (sorted: Vec<u64>)
    ensures
        is_sorted(sorted@),
        sorted@.to_multiset() == ids@.to_multiset(),
{
    let mut sorted: Vec<u64> = Vec::new();
    let mut i: usize = 0;
    assert(ids@.take(0) =~= Seq::<u64>::empty());
    while i < ids.len()
        invariant
            i <= ids.len(),
            is_sorted(sorted@),
            sorted@.to_multiset() == ids@.take(i as int).to_multiset(),
        decreases ids.len() - i,
    {
        let id = ids[i];
        let mut at: usize = 0;
        while at < sorted.len() && sorted[at] <= id
            invariant
                at <= sorted.len(),
                is_sorted(sorted@),
                forall|k: int| 0 <= k < at ==> sorted@[k] <= id,
            decreases sorted.len() - at,
        {
            at += 1;
        }
        let ghost before = sorted@;
        sorted.insert(at, id);
        proof {
            to_multiset_insert(before, at as int, id);
            before.insert_ensures(at as int, id);
            assert(ids@.take(i + 1) =~= ids@.take(i as int).push(id));
            ids@.take(i as int).to_multiset_ensures();
            assert forall|a: int, b: int| 0 <= a <= b < sorted@.len() implies sorted@[a]
                <= sorted@[b] by {
                if a < at && b > at {
                    assert(sorted@[b] == before[b - 1]);
                } else if a > at {
                    assert(sorted@[a] == before[a - 1]);
                    assert(sorted@[b] == before[b - 1]);
                } else if a == at && b > at {
                    assert(sorted@[b] == before[b - 1]);
                    assert(before[at as int] <= before[b - 1]);
                }
            }
        }
        i += 1;
    }
    assert(ids@.take(ids.len() as int) == ids@);
    sorted
}

/// The lowest id that is not among `ids`: the ids are put in ascending
/// order and passed through from 0 upwards until one is missing. An id that
/// occurs more than once counts once.
pub fn lowest_available_id(ids: &Vec<u64>) -> (id: u64)
    ensures
        is_lowest_available(numbers(ids@), id as nat),
        id == lowest_available(numbers(ids@)),
{
    let sorted = sorted_ids(ids);
    let mut id: u64 = 0;
    let mut i: usize = 0;
    while i < sorted.len() && sorted[i] <= id
        invariant
            i <= sorted.len(),
            id <= i,
            is_sorted(sorted@),
            forall|lower: u64| lower < id ==> sorted@.contains(lower),
            forall|k: int| 0 <= k < i ==> sorted@[k] < id,
        decreases sorted.len() - i,
    {
        if sorted[i] == id {
            id += 1;
        }
        i += 1;
    }
    proof {
        assert(!sorted@.contains(id)) by {
            if sorted@.contains(id) {
                let k = choose|k: int| 0 <= k < sorted@.len() && sorted@[k] == id;
                if k >= i {
                    assert(sorted@[i as int] <= sorted@[k]);
                }
            }
        }
        let all = numbers(ids@);
        assert(!all.contains(id as nat)) by {
            if all.contains(id as nat) {
                let k = choose|k: int| 0 <= k < all.len() && all[k] == id as nat;
                assert(ids@[k] == id);
                assert(ids@.contains(id));
                to_multiset_contains(ids@, id);
                to_multiset_contains(sorted@, id);
            }
        }
        assert forall|lower: nat| lower < id implies all.contains(lower) by {
            let n = lower as u64;
            assert(sorted@.contains(n));
            to_multiset_contains(ids@, n);
            to_multiset_contains(sorted@, n);
            let k = choose|k: int| 0 <= k < ids@.len() && ids@[k] == n;
            assert(all[k] == lower);
        }
        assert(is_lowest_available(all, id as nat));
        let chosen = lowest_available(all);
        lemma_lowest_available_unique(all, id as nat, chosen);
    }
    id
}

} // verus!
