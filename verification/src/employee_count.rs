//! Counting, for every member of a reporting hierarchy, the members who
//! report to them directly or through a chain of managers.
//!
//! The work is done in three steps: [`RelationIndex::build`] turns the map
//! from member to manager around, [`count`] walks the index below one member
//! and remembers what it has computed, and [`employee_count`] asks for the
//! count of every member that has an entry.

use crate::hierarchy::{
    is_hierarchy, is_index_of, is_under, lemma_count_unfolds, lemma_count_without_reports,
    lemma_report_subtree, lemma_subordinates_bounded, lemma_tally_gathers,
    lemma_under_report_is_under, lists_reports, reports_to, tally, transitive_count,
};
use crate::id_map::IdMap;
use vstd::hash_map::StringHashMap;
use vstd::prelude::*;
use vstd::string::StringExecFns;
use vstd::string::StringSliceAdditionalSpecFns;
use vstd::utf8::*;

verus! {

/// The identifiers of a list, by their characters.
pub open spec fn names(list: Seq<&str>) -> Seq<Seq<char>> {
    Seq::new(list.len(), |j: int| list[j]@)
}

/// Whether two identifiers are the same, one character after the other.
pub fn same_id(a: &str, b: &str) -> (same: bool)
    ensures
        same == (a@ == b@),
{
    let x = a.as_bytes();
    let y = b.as_bytes();
    proof {
        encode_utf8_decode_utf8(a@);
        encode_utf8_decode_utf8(b@);
    }
    if x.len() != y.len() {
        return false;
    }
    let mut i: usize = 0;
    while i < x.len()
        invariant
            x@.len() == y@.len(),
            i <= x@.len(),
            forall|j: int| 0 <= j < i ==> x@[j] == y@[j],
            x@ == a.spec_bytes(),
            y@ == b.spec_bytes(),
        decreases x.len() - i,
    {
        if x[i] != y[i] {
            return false;
        }
        i += 1;
    }
    assert(x@ =~= y@);
    true
}

/// For each member who is somebody's recorded manager, the members recorded
/// with that manager.
pub struct RelationIndex<'a> {
    slots: StringHashMap<usize>,
    lists: Vec<Vec<&'a str>>,
    relation: Ghost<Map<Seq<char>, Seq<char>>>,
}

impl<'a> View for RelationIndex<'a> {
    type V = Map<Seq<char>, Seq<Seq<char>>>;

    closed spec fn view(&self) -> Map<Seq<char>, Seq<Seq<char>>> {
        Map::new(
            |x: Seq<char>| self.slots@.contains_key(x),
            |x: Seq<char>| names(self.lists@[self.slots@[x] as int]@),
        )
    }
}

impl<'a> RelationIndex<'a> {
    /// The map from member to manager that this index was built from.
    pub closed spec fn relation(&self) -> Map<Seq<char>, Seq<char>> {
        self.relation@
    }

    /// The index holds what its relation says, each list under its own manager.
    pub closed spec fn wf(&self) -> bool {
        &&& self.relation@.dom().finite()
        &&& forall|x: Seq<char>| #[trigger]
            self.slots@.contains_key(x) ==> self.slots@[x] < self.lists@.len()
        &&& is_index_of(self@, self.relation@)
    }

    /// What a well-formed index holds.
    pub proof fn lemma_wf(&self)
        requires
            self.wf(),
        ensures
            self.relation().dom().finite(),
            is_index_of(self@, self.relation()),
    {
    }

    /// Builds the index of `dict`: every member goes into the list of the
    /// manager it is recorded with, and no other list is made.
    pub fn build(dict: &IdMap<'a, &'a str>) -> (index: Self)
        requires
            dict.wf(),
        ensures
            index.wf(),
            index.relation() == dict@,
            is_index_of(index@, dict@),
    {
        let mut slots: StringHashMap<usize> = StringHashMap::new();
        let mut lists: Vec<Vec<&'a str>> = Vec::new();
        let n: usize = dict.len();
        let ghost m = dict@;
        let ghost order = dict.order();
        proof {
            dict.lemma_order();
        }
        let mut i: usize = 0;
        while i < n
            invariant
                dict.wf(),
                m == dict@,
                order == dict.order(),
                n == order.len(),
                i <= n,
                order.no_duplicates(),
                forall|j: int| 0 <= j < order.len() ==> m.contains_key(#[trigger] order[j]),
                forall|x: Seq<char>| #[trigger]
                    slots@.contains_key(x) ==> slots@[x] < lists@.len(),
                forall|x: Seq<char>, y: Seq<char>|
                    #![trigger slots@[x], slots@[y]]
                    slots@.contains_key(x) && slots@.contains_key(y) && slots@[x] == slots@[y]
                        ==> x == y,
                forall|j: int| 0 <= j < i ==> slots@.contains_key(#[trigger] m[order[j]]),
                forall|x: Seq<char>| #[trigger]
                    slots@.contains_key(x) ==> lists_first(
                        names(lists@[slots@[x] as int]@),
                        m,
                        order,
                        i as int,
                        x,
                    ),
            decreases n - i,
        {
            let e: &'a str = dict.id_at(i);
            let manager: &'a str = *dict.value_at(i);
            let ghost old_slots = slots@;
            let ghost old_lists = lists@;
            assert(m.contains_key(order[i as int]));
            match slots.get(manager) {
                Some(slot) => {
                    let s: usize = *slot;
                    lists[s].push(e);
                    proof {
                        assert(names(lists@[s as int]@) =~= names(old_lists[s as int]@).push(e@));
                        assert forall|x: Seq<char>| #[trigger]
                            slots@.contains_key(x) implies lists_first(
                            names(lists@[slots@[x] as int]@),
                            m,
                            order,
                            i + 1,
                            x,
                        ) by {
                            let before = names(old_lists[slots@[x] as int]@);
                            let after = names(lists@[slots@[x] as int]@);
                            lemma_list_step(m, order, i as int, x, before, after);
                        }
                    }
                },
                None => {
                    let s: usize = lists.len();
                    slots.insert(String::from_str(manager), s);
                    let mut list: Vec<&'a str> = Vec::new();
                    list.push(e);
                    lists.push(list);
                    proof {
                        let nothing = Seq::<Seq<char>>::empty();
                        assert(names(lists@[s as int]@) =~= nothing.push(e@));
                        assert forall|d: Seq<char>| !#[trigger] among_first(
                            m,
                            order,
                            i as int,
                            manager@,
                            d,
                        ) by {
                            if among_first(m, order, i as int, manager@, d) {
                                let j = choose|j: int|
                                    0 <= j < i && #[trigger] order[j] == d && m[d] == manager@;
                                assert(old_slots.contains_key(m[order[j]]));
                            }
                        }
                        assert forall|x: Seq<char>| #[trigger]
                            slots@.contains_key(x) implies lists_first(
                            names(lists@[slots@[x] as int]@),
                            m,
                            order,
                            i + 1,
                            x,
                        ) by {
                            let after = names(lists@[slots@[x] as int]@);
                            if x == manager@ {
                                lemma_list_step(m, order, i as int, x, nothing, after);
                            } else {
                                assert(old_slots.contains_key(x));
                                assert(lists@[slots@[x] as int] == old_lists[old_slots[x] as int]);
                                lemma_list_step(m, order, i as int, x, after, after);
                            }
                        }
                    }
                },
            }
            i += 1;
        }
        let index = RelationIndex { slots, lists, relation: Ghost(m) };
        proof {
            assert forall|e: Seq<char>| #[trigger] m.contains_key(e) implies index@.contains_key(
                m[e],
            ) by {
                let j = choose|j: int| 0 <= j < order.len() && order[j] == e;
                assert(slots@.contains_key(m[order[j]]));
            }
            assert forall|x: Seq<char>| #[trigger] index@.contains_key(x) implies index@[x].len()
                > 0 && lists_reports(m, x, index@[x]) by {
                let list = index@[x];
                assert(lists_first(list, m, order, n as int, x));
                assert forall|e: Seq<char>| #[trigger]
                    list.contains(e) <==> (m.contains_key(e) && m[e] == x) by {
                    if m.contains_key(e) && m[e] == x {
                        let j = choose|j: int| 0 <= j < order.len() && order[j] == e;
                        assert(0 <= j < n && order[j] == e && m[e] == x);
                    }
                    if list.contains(e) {
                        let j = choose|j: int| 0 <= j < n && #[trigger] order[j] == e && m[e] == x;
                        assert(m.contains_key(order[j]));
                    }
                }
            }
        }
        index
    }

    /// The members recorded with `manager`, if there is any.
    pub fn direct_reports(&self, manager: &str) -> (reports: Option<&Vec<&'a str>>)
        requires
            self.wf(),
        ensures
            match reports {
                Some(list) => self@.contains_key(manager@) && names(list@) == self@[manager@],
                None => !self@.contains_key(manager@),
            },
    {
        match self.slots.get(manager) {
            Some(slot) => Some(&self.lists[*slot]),
            None => None,
        }
    }
}

/// Every count that `memo` holds is the number of members under its key.
pub open spec fn holds_counts(memo: Map<Seq<char>, u32>, m: Map<Seq<char>, Seq<char>>) -> bool {
    forall|id: Seq<char>| #[trigger] memo.contains_key(id) ==> memo[id] == transitive_count(m, id)
}

/// The number of members who report to `manager`, directly or through a chain
/// of managers, in the relation that `index` was built from.
///
/// A member without an entry in the index has nobody under them. Otherwise
/// the count is taken from `memo` where it is known, and else summed up over
/// the direct reports and stored in `memo`. A member who is their own manager
/// is not counted among their own reports. What `memo` held before the call
/// it still holds afterwards, whatever is asked and however often; it gains
/// entries only for `manager` and for members under `manager`, and none where
/// it knew the count of `manager` already.
pub fn count<'a>(manager: &'a str, index: &RelationIndex<'a>, memo: &mut IdMap<'a, u32>) -> (total:
    u32)
    requires
        index.wf(),
        is_hierarchy(index.relation()),
        index.relation().len() <= u32::MAX,
        old(memo).wf(),
        holds_counts(old(memo)@, index.relation()),
    ensures
        total == transitive_count(index.relation(), manager@),
        !index@.contains_key(manager@) ==> total == 0 && final(memo)@ == old(memo)@,
        index@.contains_key(manager@) ==> final(memo)@.contains_key(manager@),
        final(memo).wf(),
        holds_counts(final(memo)@, index.relation()),
        old(memo)@.submap_of(final(memo)@),
        old(memo)@.contains_key(manager@) ==> final(memo)@ == old(memo)@,
        forall|id: Seq<char>| #[trigger]
            final(memo)@.contains_key(id) ==> old(memo)@.contains_key(id) || id == manager@
                || is_under(index.relation(), id, manager@),
    decreases transitive_count(index.relation(), manager@),
{
    let ghost m = index.relation();
    let ghost memo0 = memo@;
    proof {
        index.lemma_wf();
    }
    let list = match index.direct_reports(manager) {
        None => {
            proof {
                assert forall|e: Seq<char>| !reports_to(m, e, manager@) by {
                    if reports_to(m, e, manager@) {
                        assert(index@.contains_key(m[e]));
                    }
                }
                lemma_count_without_reports(m, manager@);
            }
            return 0;
        },
        Some(list) => list,
    };
    match memo.get(manager) {
        Some(known) => {
            return *known;
        },
        None => {},
    }
    let ghost reports = names(list@);
    let mut total: u32 = 0;
    let mut i: usize = 0;
    while i < list.len()
        invariant
            index.wf(),
            m == index.relation(),
            is_hierarchy(m),
            m.len() <= u32::MAX,
            reports == names(list@),
            lists_reports(m, manager@, reports),
            i <= list@.len(),
            total == tally(m, reports, manager@, i as nat),
            memo.wf(),
            holds_counts(memo@, m),
            memo0.submap_of(memo@),
            forall|id: Seq<char>| #[trigger]
                memo@.contains_key(id) ==> memo0.contains_key(id) || is_under(m, id, manager@),
        decreases list@.len() - i,
    {
        let e: &'a str = list[i];
        proof {
            lemma_tally_gathers(m, reports, manager@, (i + 1) as nat);
            lemma_subordinates_bounded(m, manager@);
            assert(reports[i as int] == e@);
            assert(reports.contains(reports[i as int]));
        }
        if !same_id(e, manager) {
            proof {
                lemma_report_subtree(m, e@, manager@);
            }
            let ghost before = memo@;
            let below: u32 = count(e, index, memo);
            assert(memo0.submap_of(memo@)) by {
                assert forall|id: Seq<char>| memo0.contains_key(id) implies #[trigger]
                    memo@.contains_key(id) && memo0[id] == memo@[id] by {
                    assert(before.contains_key(id));
                }
            }
            assert forall|id: Seq<char>| #[trigger]
                memo@.contains_key(id) implies memo0.contains_key(id) || is_under(
                m,
                id,
                manager@,
            ) by {
                if !before.contains_key(id) {
                    lemma_under_report_is_under(m, id, e@, manager@);
                }
            }
            total = total + 1 + below;
        }
        i += 1;
    }
    proof {
        lemma_count_unfolds(m, reports, manager@);
    }
    memo.insert(manager, total);
    total
}

/// For every member with an entry in `dict`, the number of members who report
/// to them, directly or through a chain of managers. The result has an entry
/// for each key of `dict`, in the same order, and for nothing else: a member
/// who appears only as somebody's manager gets none.
pub fn employee_count<'a>(dict: &IdMap<'a, &'a str>) -> (result: IdMap<'a, u32>)
    requires
        dict.wf(),
        is_hierarchy(dict@),
        dict@.len() <= u32::MAX,
    ensures
        result.wf(),
        result@.dom() == dict@.dom(),
        result.order() == dict.order(),
        forall|id: Seq<char>| #[trigger]
            dict@.contains_key(id) ==> result@[id] == transitive_count(dict@, id),
{
    let index = RelationIndex::build(dict);
    let mut memo: IdMap<'a, u32> = IdMap::new();
    let mut result: IdMap<'a, u32> = IdMap::new();
    let n: usize = dict.len();
    let ghost m = dict@;
    let ghost order = dict.order();
    proof {
        dict.lemma_order();
    }
    let mut i: usize = 0;
    while i < n
        invariant
            dict.wf(),
            m == dict@,
            order == dict.order(),
            n == order.len(),
            i <= n,
            order.no_duplicates(),
            index.wf(),
            index.relation() == m,
            is_hierarchy(m),
            m.len() <= u32::MAX,
            memo.wf(),
            holds_counts(memo@, m),
            result.wf(),
            result.order() == order.take(i as int),
            forall|j: int|
                0 <= j < i ==> result@[#[trigger] order[j]] == transitive_count(m, order[j]),
        decreases n - i,
    {
        let id: &'a str = dict.id_at(i);
        let under: u32 = count(id, &index, &mut memo);
        proof {
            result.lemma_order();
            if result@.contains_key(id@) {
                let j = choose|j: int| 0 <= j < i && order.take(i as int)[j] == id@;
                assert(order[j] == order[i as int]);
            }
            assert(order.take(i as int).push(id@) =~= order.take(i + 1));
        }
        result.insert(id, under);
        i += 1;
    }
    proof {
        result.lemma_order();
        assert(order.take(n as int) =~= order);
        assert forall|id: Seq<char>| dict@.contains_key(id) implies result@.contains_key(id) by {
            let j = choose|j: int| 0 <= j < order.len() && order[j] == id;
            assert(result.order()[j] == id);
        }
        assert forall|id: Seq<char>| result@.contains_key(id) implies dict@.contains_key(id) by {
            let j = choose|j: int| 0 <= j < order.len() && order[j] == id;
            assert(dict@.contains_key(order[j]));
        }
        assert(result@.dom() =~= dict@.dom());
        assert forall|id: Seq<char>| #[trigger] dict@.contains_key(id) implies result@[id]
            == transitive_count(dict@, id) by {
            let j = choose|j: int| 0 <= j < order.len() && order[j] == id;
            assert(result@[order[j]] == transitive_count(m, order[j]));
        }
    }
    result
}

/// `e` is among the first `i` members of `order` and is recorded with manager `x`.
spec fn among_first(
    m: Map<Seq<char>, Seq<char>>,
    order: Seq<Seq<char>>,
    i: int,
    x: Seq<char>,
    e: Seq<char>,
) -> bool {
    exists|j: int| 0 <= j < i && #[trigger] order[j] == e && m[e] == x
}

/// `list` holds, each once, those of the first `i` members of `order` that
/// are recorded with manager `x`; it holds nothing else, and is not empty.
spec fn lists_first(
    list: Seq<Seq<char>>,
    m: Map<Seq<char>, Seq<char>>,
    order: Seq<Seq<char>>,
    i: int,
    x: Seq<char>,
) -> bool {
    &&& list.len() > 0
    &&& list.no_duplicates()
    &&& forall|e: Seq<char>| #[trigger] list.contains(e) <==> among_first(m, order, i, x, e)
}

/// One more member of `order` is taken into account: the list of its manager
/// gains it, and every other list stays as it is.
proof fn lemma_list_step(
    m: Map<Seq<char>, Seq<char>>,
    order: Seq<Seq<char>>,
    i: int,
    x: Seq<char>,
    before: Seq<Seq<char>>,
    after: Seq<Seq<char>>,
)
    requires
        0 <= i < order.len(),
        order.no_duplicates(),
        before.no_duplicates(),
        forall|e: Seq<char>| #[trigger] before.contains(e) <==> among_first(m, order, i, x, e),
        m[order[i]] == x ==> after == before.push(order[i]),
        m[order[i]] != x ==> after == before && before.len() > 0,
    ensures
        lists_first(after, m, order, i + 1, x),
{
    let new = order[i];
    assert forall|e: Seq<char>| #[trigger]
        after.contains(e) <==> among_first(m, order, i + 1, x, e) by {
        if after.contains(e) {
            if before.contains(e) {
                let j = choose|j: int| 0 <= j < i && #[trigger] order[j] == e && m[e] == x;
                assert(0 <= j < i + 1 && order[j] == e && m[e] == x);
            } else {
                let p = choose|p: int| 0 <= p < after.len() && after[p] == e;
                assert(p == before.len());
                assert(0 <= i < i + 1 && order[i] == e && m[e] == x);
            }
        }
        if among_first(m, order, i + 1, x, e) {
            let j = choose|j: int| 0 <= j < i + 1 && #[trigger] order[j] == e && m[e] == x;
            if j < i {
                assert(before.contains(e));
                let p = choose|p: int| 0 <= p < before.len() && before[p] == e;
                assert(after[p] == e);
            } else {
                assert(after[before.len() as int] == e);
            }
        }
    }
    if m[new] == x {
        if before.contains(new) {
            let j = choose|j: int| 0 <= j < i && #[trigger] order[j] == new && m[new] == x;
            assert(order[j] == order[i]);
        }
        assert(after[before.len() as int] == new);
    }
}

} // verus!
