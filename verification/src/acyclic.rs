//! Telling whether a map from member to manager is a hierarchy, that is,
//! whether nobody in it is their own superior through a chain of managers.

use crate::employee_count::{employee_count, same_id};
use crate::hierarchy::{
    is_grounded, is_hierarchy, is_under, lemma_all_grounded_is_hierarchy,
    lemma_grounded_below, lemma_grounded_step, lemma_reaches_compose, reaches, tops_out,
    transitive_count,
};
use crate::id_map::IdMap;
use vstd::prelude::*;
use vstd::set_lib::{lemma_int_range, set_int_range};

verus! {

/// Whether `dict` is a hierarchy: whether no chain of managers leads from a
/// member back to that member. A member may be their own manager.
///
/// From each member not yet seen, the chain of managers is followed until it
/// ends, meets a member whose chain is known to end, or comes back to a
/// member of the chain itself.
pub fn forms_hierarchy<'a>(dict: &IdMap<'a, &'a str>) -> (ok: bool)
    requires
        dict.wf(),
    ensures
        ok == is_hierarchy(dict@),
{
    let n: usize = dict.len();
    let ghost m = dict@;
    let ghost order = dict.order();
    proof {
        dict.lemma_order();
    }
    let mut state: Vec<u8> = Vec::new();
    while state.len() < n
        invariant
            state@.len() <= n,
            forall|q: int| 0 <= q < state@.len() ==> state@[q] == 0,
        decreases n - state@.len(),
    {
        state.push(0);
    }
    let ghost mut unseen: Set<int> = set_int_range(0, n as int);
    proof {
        lemma_int_range(0, n as int);
    }
    let mut i: usize = 0;
    while i < n
        invariant
            dict.wf(),
            m == dict@,
            order == dict.order(),
            n == order.len(),
            m.dom().finite(),
            forall|j: int| 0 <= j < order.len() ==> m.contains_key(#[trigger] order[j]),
            forall|id: Seq<char>| #[trigger] m.contains_key(id) ==> order.contains(id),
            i <= n,
            state@.len() == n,
            unseen.finite(),
            forall|q: int| unseen.contains(q) <==> (0 <= q < n && state@[q] == 0),
            forall|q: int| 0 <= q < n ==> state@[q] == 0 || state@[q] == 2,
            forall|q: int| 0 <= q < n && state@[q] == 2 ==> is_grounded(m, #[trigger] order[q]),
            forall|q: int| 0 <= q < i ==> state@[q] == 2,
        decreases n - i,
    {
        if state[i] == 0 {
            let mut path: Vec<usize> = Vec::new();
            let mut cur: usize = i;
            state[cur] = 1;
            path.push(cur);
            proof {
                unseen = unseen.remove(cur as int);
                assert(reaches(m, order[cur as int], order[cur as int], 0));
                assert(path@[0] == i);
            }
            loop
                invariant
                    dict.wf(),
                    m == dict@,
                    order == dict.order(),
                    n == order.len(),
                    forall|j: int| 0 <= j < order.len() ==> m.contains_key(#[trigger] order[j]),
                    i < n,
                    cur < n,
                    state@.len() == n,
                    path@.len() >= 1,
                    path@[0] == i,
                    unseen.finite(),
                    forall|q: int| unseen.contains(q) <==> (0 <= q < n && state@[q] == 0),
                    forall|q: int|
                        0 <= q < n && state@[q] == 2 ==> is_grounded(m, #[trigger] order[q]),
                    forall|q: int| 0 <= q < n ==> state@[q] <= 2,
                    forall|q: int| 0 <= q < i ==> state@[q] == 2,
                    forall|j: int|
                        0 <= j < path@.len() ==> {
                            &&& (#[trigger] path@[j]) < n
                            &&& state@[path@[j] as int] == 1
                            &&& reaches(
                                m,
                                order[path@[j] as int],
                                order[cur as int],
                                (path@.len() - 1 - j) as nat,
                            )
                        },
                    forall|q: int|
                        0 <= q < n && #[trigger] state@[q] == 1 ==> exists|j: int|
                            0 <= j < path@.len() && #[trigger] path@[j] == q,
                ensures
                    is_grounded(m, order[cur as int]),
                decreases unseen.len(),
            {
                let id: &'a str = dict.id_at(cur);
                let manager: &'a str = *dict.value_at(cur);
                let ghost here = order[cur as int];
                assert(m.contains_key(here) && m[here] == manager@);
                if same_id(manager, id) {
                    proof {
                        assert(tops_out(m, here, 0));
                    }
                    break;
                }
                match dict.position(manager) {
                    None => {
                        proof {
                            assert(tops_out(m, manager@, 0));
                            lemma_grounded_step(m, here);
                        }
                        break;
                    },
                    Some(p) => {
                        assert(order[p as int] == m[here]);
                        if state[p] == 2 {
                            proof {
                                lemma_grounded_step(m, here);
                            }
                            break;
                        }
                        if state[p] == 1 {
                            proof {
                                let j = choose|j: int|
                                    0 <= j < path@.len() && #[trigger] path@[j] == p;
                                let x = order[p as int];
                                let k = (path@.len() - 1 - j) as nat;
                                assert(reaches(m, x, x, 0));
                                assert(reaches(m, here, x, 1));
                                lemma_reaches_compose(m, x, here, x, k, 1);
                                assert(reaches(m, x, x, k + 1));
                                assert(is_under(m, x, x));
                            }
                            return false;
                        }
                        let ghost before = path@;
                        state[p] = 1;
                        path.push(p);
                        proof {
                            unseen = unseen.remove(p as int);
                            let next = order[p as int];
                            assert(reaches(m, next, next, 0));
                            assert(reaches(m, here, next, 1));
                            assert forall|j: int| 0 <= j < path@.len() implies (#[trigger] path@[j])
                                < n && state@[path@[j] as int] == 1 && reaches(
                                m,
                                order[path@[j] as int],
                                next,
                                (path@.len() - 1 - j) as nat,
                            ) by {
                                if j < before.len() {
                                    assert(path@[j] == before[j]);
                                    lemma_reaches_compose(
                                        m,
                                        order[before[j] as int],
                                        here,
                                        next,
                                        (before.len() - 1 - j) as nat,
                                        1,
                                    );
                                }
                            }
                            assert forall|q: int|
                                0 <= q < n && #[trigger] state@[q] == 1 implies exists|j: int|
                                0 <= j < path@.len() && #[trigger] path@[j] == q by {
                                if q == p {
                                    assert(path@[before.len() as int] == q);
                                } else {
                                    let j = choose|j: int|
                                        0 <= j < before.len() && #[trigger] before[j] == q;
                                    assert(path@[j] == q);
                                }
                            }
                        }
                        cur = p;
                    },
                }
            }
            proof {
                assert forall|j: int| 0 <= j < path@.len() implies is_grounded(
                    m,
                    order[#[trigger] path@[j] as int],
                ) by {
                    lemma_grounded_below(
                        m,
                        order[path@[j] as int],
                        order[cur as int],
                        (path@.len() - 1 - j) as nat,
                    );
                }
            }
            let mut t: usize = 0;
            while t < path.len()
                invariant
                    n == order.len(),
                    i < n,
                    state@.len() == n,
                    t <= path@.len(),
                    unseen.finite(),
                    forall|q: int| unseen.contains(q) <==> (0 <= q < n && state@[q] == 0),
                    forall|q: int|
                        0 <= q < n && state@[q] == 2 ==> is_grounded(m, #[trigger] order[q]),
                    forall|q: int| 0 <= q < n ==> state@[q] <= 2,
                    forall|q: int| 0 <= q < i ==> state@[q] == 2,
                    forall|j: int|
                        0 <= j < path@.len() ==> {
                            &&& (#[trigger] path@[j]) < n
                            &&& state@[path@[j] as int] >= 1
                            &&& is_grounded(m, order[path@[j] as int])
                        },
                    forall|j: int| 0 <= j < t ==> state@[#[trigger] path@[j] as int] == 2,
                    forall|q: int|
                        0 <= q < n && #[trigger] state@[q] == 1 ==> exists|j: int|
                            t <= j < path@.len() && #[trigger] path@[j] == q,
                    path@.len() >= 1,
                    path@[0] == i,
                decreases path@.len() - t,
            {
                let q: usize = path[t];
                let ghost old_state = state@;
                state[q] = 2;
                proof {
                    assert forall|r: int|
                        0 <= r < n && #[trigger] state@[r] == 1 implies exists|j: int|
                        t + 1 <= j < path@.len() && #[trigger] path@[j] == r by {
                        assert(old_state[r] == 1);
                        let j = choose|j: int| t <= j < path@.len() && #[trigger] path@[j] == r;
                        assert(j != t);
                    }
                }
                t += 1;
            }
            proof {
                assert(state@[path@[0] as int] == 2);
            }
        }
        i += 1;
    }
    proof {
        assert forall|x: Seq<char>| #[trigger] m.contains_key(x) implies is_grounded(m, x) by {
            let q = choose|q: int| 0 <= q < order.len() && order[q] == x;
            assert(state@[q] == 2);
        }
        lemma_all_grounded_is_hierarchy(m);
    }
    true
}

/// For every member with an entry in `dict`, the number of members who report
/// to them, directly or through a chain of managers; `None` where `dict` is
/// no hierarchy, or has more entries than a `u32` can count.
pub fn checked_employee_count<'a>(dict: &IdMap<'a, &'a str>) -> (result: Option<IdMap<'a, u32>>)
    requires
        dict.wf(),
    ensures
        result is Some <==> is_hierarchy(dict@) && dict@.len() <= u32::MAX,
        result matches Some(counts) ==> counts.wf() && counts@.dom() == dict@.dom()
            && counts.order() == dict.order() && forall|id: Seq<char>| #[trigger]
            dict@.contains_key(id) ==> counts@[id] == transitive_count(dict@, id),
{
    if dict.len() > u32::MAX as usize {
        return None;
    }
    if !forms_hierarchy(dict) {
        return None;
    }
    Some(employee_count(dict))
}

} // verus!
