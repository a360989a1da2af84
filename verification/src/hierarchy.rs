//! The mathematics of a reporting hierarchy.
//!
//! A hierarchy is given as a map from each member to the member's manager. A
//! member who is recorded as their own manager stands at the top of a
//! hierarchy and reports to nobody. Everything here is stated over an
//! arbitrary identifier type `K`.

use vstd::prelude::*;
use vstd::set_lib::*;

verus! {

/// `e` is recorded with manager `x`, and is not `x` itself: `e` is one of the
/// direct reports of `x`.
pub open spec fn reports_to<K>(m: Map<K, K>, e: K, x: K) -> bool {
    m.contains_key(e) && m[e] == x && e != x
}

/// `r` is recorded as its own manager.
pub open spec fn is_root<K>(m: Map<K, K>, r: K) -> bool {
    m.contains_key(r) && m[r] == r
}

/// Exactly `k` reporting steps lead from `e` up to `x`. A member's entry for
/// itself is no reporting step.
pub open spec fn reaches<K>(m: Map<K, K>, e: K, x: K, k: nat) -> bool
    decreases k,
{
    if k == 0 {
        e == x
    } else {
        m.contains_key(e) && m[e] != e && reaches(m, m[e], x, (k - 1) as nat)
    }
}

/// The member found `k` entries above `e`.
pub open spec fn ancestor<K>(m: Map<K, K>, e: K, k: nat) -> K
    decreases k,
{
    if k == 0 {
        e
    } else {
        ancestor(m, m[e], (k - 1) as nat)
    }
}

/// `e` reports to `x`, directly or through a chain of managers.
pub open spec fn is_under<K>(m: Map<K, K>, e: K, x: K) -> bool {
    exists|k: nat| k >= 1 && #[trigger] reaches(m, e, x, k)
}

/// Everyone who reports to `x`, directly or through a chain of managers.
pub open spec fn subordinates<K>(m: Map<K, K>, x: K) -> Set<K> {
    Set::new(|e: K| is_under(m, e, x))
}

/// The number of members who report to `x`, directly or through a chain of
/// managers.
pub open spec fn transitive_count<K>(m: Map<K, K>, x: K) -> nat {
    subordinates(m, x).len()
}

/// `r` together with everyone under `r`.
pub open spec fn tree<K>(m: Map<K, K>, r: K) -> Set<K> {
    Set::new(|e: K| exists|k: nat| #[trigger] reaches(m, e, r, k))
}

/// The map has finitely many entries and nobody is, through a chain of
/// managers, their own superior. A member's entry for itself is the one loop
/// allowed.
pub open spec fn is_hierarchy<K>(m: Map<K, K>) -> bool {
    m.dom().finite() && forall|x: K| !#[trigger] is_under(m, x, x)
}

/// `x` stands at the top of a chain of managers: it has no entry, or is its
/// own manager.
pub open spec fn is_top<K>(m: Map<K, K>, x: K) -> bool {
    !m.contains_key(x) || m[x] == x
}

/// The chain of managers above `x` comes to an end after `k` steps.
pub open spec fn tops_out<K>(m: Map<K, K>, x: K, k: nat) -> bool {
    reaches(m, x, ancestor(m, x, k), k) && is_top(m, ancestor(m, x, k))
}

/// The chain of managers above `x` comes to an end.
pub open spec fn is_grounded<K>(m: Map<K, K>, x: K) -> bool {
    exists|k: nat| #[trigger] tops_out(m, x, k)
}

/// `reports` lists, each once, the members recorded with manager `x`
/// (`x` itself among them where `x` is its own manager).
pub open spec fn lists_reports<K>(m: Map<K, K>, x: K, reports: Seq<K>) -> bool {
    &&& reports.no_duplicates()
    &&& forall|e: K| #[trigger] reports.contains(e) <==> (m.contains_key(e) && m[e] == x)
}

/// `index` holds, for every member who is somebody's recorded manager and for
/// nobody else, the list of the members recorded with that manager.
pub open spec fn is_index_of<K>(index: Map<K, Seq<K>>, m: Map<K, K>) -> bool {
    &&& forall|e: K| #[trigger] m.contains_key(e) ==> index.contains_key(m[e])
    &&& forall|x: K| #[trigger]
        index.contains_key(x) ==> index[x].len() > 0 && lists_reports(m, x, index[x])
}

/// The sum, over the first `n` members `c` of `reports` other than `x`, of one
/// for `c` plus the number of members under `c`.
pub open spec fn tally<K>(m: Map<K, K>, reports: Seq<K>, x: K, n: nat) -> nat
    decreases n,
{
    if n == 0 {
        0
    } else {
        let c = reports[n - 1];
        tally(m, reports, x, (n - 1) as nat) + if c == x {
            0nat
        } else {
            1 + transitive_count(m, c)
        }
    }
}

/// The members of the trees of the first `n` members of `reports` other than `x`.
pub open spec fn gathered<K>(m: Map<K, K>, reports: Seq<K>, x: K, n: nat) -> Set<K> {
    Set::new(
        |e: K|
            exists|j: int|
                0 <= j < n && reports[j] != x && #[trigger] tree(m, reports[j]).contains(e),
    )
}

/// A chain of `k` steps from `e` ends at the member `k` entries above `e`.
pub proof fn lemma_reaches_ancestor<K>(m: Map<K, K>, e: K, x: K, k: nat)
    requires
        reaches(m, e, x, k),
    ensures
        ancestor(m, e, k) == x,
    decreases k,
{
    if k > 0 {
        lemma_reaches_ancestor(m, m[e], x, (k - 1) as nat);
    }
}

/// Chains compose: `j` steps to `y` and `k` more to `x` are `j + k` steps to `x`.
pub proof fn lemma_reaches_compose<K>(m: Map<K, K>, e: K, y: K, x: K, j: nat, k: nat)
    requires
        reaches(m, e, y, j),
        reaches(m, y, x, k),
    ensures
        reaches(m, e, x, j + k),
    decreases j,
{
    if j > 0 {
        lemma_reaches_compose(m, m[e], y, x, (j - 1) as nat, k);
        assert((j + k - 1) as nat == (j - 1) as nat + k);
    }
}

/// A chain of `j + k` steps passes, after `j` steps, through the member `j`
/// entries above its start.
pub proof fn lemma_reaches_split<K>(m: Map<K, K>, e: K, x: K, j: nat, k: nat)
    requires
        reaches(m, e, x, j + k),
    ensures
        reaches(m, e, ancestor(m, e, j), j),
        reaches(m, ancestor(m, e, j), x, k),
    decreases j,
{
    if j > 0 {
        assert((j + k - 1) as nat == (j - 1) as nat + k);
        lemma_reaches_split(m, m[e], x, (j - 1) as nat, k);
    }
}

/// Whoever is under somebody has an entry of their own.
pub proof fn lemma_under_has_entry<K>(m: Map<K, K>, e: K, x: K)
    requires
        is_under(m, e, x),
    ensures
        m.contains_key(e),
{
    let k = choose|k: nat| k >= 1 && #[trigger] reaches(m, e, x, k);
    assert(reaches(m, e, x, k));
}

/// The members under `x` all have entries, so there are finitely many of
/// them, and no more than the map has entries.
pub proof fn lemma_subordinates_bounded<K>(m: Map<K, K>, x: K)
    requires
        m.dom().finite(),
    ensures
        subordinates(m, x).finite(),
        subordinates(m, x).subset_of(m.dom()),
        transitive_count(m, x) <= m.len(),
{
    assert forall|e: K| subordinates(m, x).contains(e) implies m.dom().contains(e) by {
        lemma_under_has_entry(m, e, x);
    }
    lemma_len_subset(subordinates(m, x), m.dom());
}

/// The tree of `c` is `c` together with the members under `c`.
pub proof fn lemma_tree_members<K>(m: Map<K, K>, c: K)
    ensures
        tree(m, c) == subordinates(m, c).insert(c),
{
    assert forall|e: K| tree(m, c).contains(e) implies subordinates(m, c).insert(c).contains(
        e,
    ) by {
        let k = choose|k: nat| #[trigger] reaches(m, e, c, k);
        if k >= 1 {
            assert(is_under(m, e, c));
        }
    }
    assert forall|e: K| subordinates(m, c).insert(c).contains(e) implies tree(m, c).contains(
        e,
    ) by {
        if e == c {
            assert(reaches(m, e, c, 0));
        } else {
            let k = choose|k: nat| k >= 1 && #[trigger] reaches(m, e, c, k);
            assert(reaches(m, e, c, k));
        }
    }
    assert(tree(m, c) =~= subordinates(m, c).insert(c));
}

/// Below a direct report `c` of `x` lies a part of what lies below `x`, and a
/// strictly smaller one: `c` is under `x` but not under itself.
pub proof fn lemma_report_subtree<K>(m: Map<K, K>, c: K, x: K)
    requires
        is_hierarchy(m),
        reports_to(m, c, x),
    ensures
        tree(m, c).finite(),
        tree(m, c).subset_of(subordinates(m, x)),
        tree(m, c).len() == transitive_count(m, c) + 1,
        transitive_count(m, c) < transitive_count(m, x),
{
    lemma_subordinates_bounded(m, c);
    lemma_subordinates_bounded(m, x);
    lemma_tree_members(m, c);
    assert(!subordinates(m, c).contains(c));
    assert(reaches(m, x, x, 0));
    assert(reaches(m, c, x, 1));
    assert forall|e: K| tree(m, c).contains(e) implies subordinates(m, x).contains(e) by {
        let k = choose|k: nat| #[trigger] reaches(m, e, c, k);
        lemma_reaches_compose(m, e, c, x, k, 1);
        assert(reaches(m, e, x, k + 1));
    }
    lemma_len_subset(tree(m, c), subordinates(m, x));
}

/// A direct report of `x`, and whoever is under that report, is under `x`.
pub proof fn lemma_under_report_is_under<K>(m: Map<K, K>, e: K, c: K, x: K)
    requires
        reports_to(m, c, x),
        e == c || is_under(m, e, c),
    ensures
        is_under(m, e, x),
{
    assert(reaches(m, x, x, 0));
    assert(reaches(m, c, x, 1));
    if e != c {
        let k = choose|k: nat| k >= 1 && #[trigger] reaches(m, e, c, k);
        lemma_reaches_compose(m, e, c, x, k, 1);
        assert(reaches(m, e, x, k + 1));
    }
}

/// In an index, a member stands in the list of one manager only.
pub proof fn lemma_one_list_per_member<K>(index: Map<K, Seq<K>>, m: Map<K, K>, e: K, x: K, y: K)
    requires
        is_index_of(index, m),
        index.contains_key(x),
        index.contains_key(y),
        index[x].contains(e),
        index[y].contains(e),
    ensures
        x == y,
{
}

/// Nobody stands below two different direct reports of the same manager.
pub proof fn lemma_subtrees_disjoint<K>(m: Map<K, K>, c1: K, c2: K, x: K, e: K)
    requires
        is_hierarchy(m),
        reports_to(m, c1, x),
        reports_to(m, c2, x),
        c1 != c2,
        tree(m, c1).contains(e),
    ensures
        !tree(m, c2).contains(e),
{
    if tree(m, c2).contains(e) {
        let k1 = choose|k: nat| #[trigger] reaches(m, e, c1, k);
        let k2 = choose|k: nat| #[trigger] reaches(m, e, c2, k);
        lemma_reaches_ancestor(m, e, c1, k1);
        lemma_reaches_ancestor(m, e, c2, k2);
        if k1 < k2 {
            lemma_chain_through_sibling(m, c1, c2, x, e, k1, k2);
        } else if k2 < k1 {
            lemma_chain_through_sibling(m, c2, c1, x, e, k2, k1);
        }
    }
}

/// A chain that passes through one direct report of `x` and goes on to
/// another leads from `x` back to `x`.
proof fn lemma_chain_through_sibling<K>(m: Map<K, K>, c1: K, c2: K, x: K, e: K, k1: nat, k2: nat)
    requires
        reports_to(m, c1, x),
        reports_to(m, c2, x),
        reaches(m, e, c1, k1),
        reaches(m, e, c2, k2),
        k1 < k2,
    ensures
        is_under(m, x, x),
{
    let d = (k2 - k1) as nat;
    lemma_reaches_ancestor(m, e, c1, k1);
    lemma_reaches_split(m, e, c2, k1, d);
    assert(reaches(m, c1, c2, d));
    assert(reaches(m, x, c2, (d - 1) as nat));
    assert(reaches(m, x, x, 0));
    assert(reaches(m, c2, x, 1));
    lemma_reaches_compose(m, x, c2, x, (d - 1) as nat, 1);
    assert(reaches(m, x, x, d));
}

/// Whoever is under `x` is a direct report of `x` or stands below one.
pub proof fn lemma_under_has_report<K>(m: Map<K, K>, e: K, x: K) -> (c: K)
    requires
        is_under(m, e, x),
    ensures
        reports_to(m, c, x),
        tree(m, c).contains(e),
{
    let k = choose|k: nat| k >= 1 && #[trigger] reaches(m, e, x, k);
    let j = (k - 1) as nat;
    lemma_reaches_split(m, e, x, j, 1);
    let c = ancestor(m, e, j);
    assert(reaches(m, c, x, 1));
    assert(reaches(m, m[c], x, 0));
    assert(reaches(m, e, c, j));
    c
}

/// The trees gathered from a list of direct reports are finite, lie below the
/// manager, and hold as many members as the tally says.
pub proof fn lemma_tally_gathers<K>(m: Map<K, K>, reports: Seq<K>, x: K, n: nat)
    requires
        is_hierarchy(m),
        lists_reports(m, x, reports),
        n <= reports.len(),
    ensures
        gathered(m, reports, x, n).finite(),
        gathered(m, reports, x, n).subset_of(subordinates(m, x)),
        tally(m, reports, x, n) == gathered(m, reports, x, n).len(),
        tally(m, reports, x, n) <= transitive_count(m, x),
    decreases n,
{
    lemma_subordinates_bounded(m, x);
    if n == 0 {
        assert(gathered(m, reports, x, n) =~= Set::<K>::empty());
    } else {
        let p = (n - 1) as nat;
        let c = reports[n - 1];
        let before = gathered(m, reports, x, p);
        let now = gathered(m, reports, x, n);
        lemma_tally_gathers(m, reports, x, p);
        assert(reports.contains(c));
        if c == x {
            assert(now =~= before);
        } else {
            lemma_report_subtree(m, c, x);
            assert forall|e: K| now.contains(e) implies (before + tree(m, c)).contains(e) by {
                let j = choose|j: int|
                    0 <= j < n && reports[j] != x && #[trigger] tree(m, reports[j]).contains(e);
                if j < p {
                    assert(before.contains(e));
                }
            }
            assert forall|e: K| (before + tree(m, c)).contains(e) implies now.contains(e) by {
                if before.contains(e) {
                    let j = choose|j: int|
                        0 <= j < p && reports[j] != x && #[trigger] tree(m, reports[j]).contains(
                            e,
                        );
                    assert(0 <= j < n && reports[j] != x && tree(m, reports[j]).contains(e));
                } else {
                    assert(tree(m, reports[n - 1]).contains(e));
                }
            }
            assert(now =~= before + tree(m, c));
            assert forall|e: K| before.contains(e) implies !tree(m, c).contains(e) by {
                let j = choose|j: int|
                    0 <= j < p && reports[j] != x && #[trigger] tree(m, reports[j]).contains(e);
                assert(reports.contains(reports[j]));
                lemma_subtrees_disjoint(m, reports[j], c, x, e);
            }
            assert(before.disjoint(tree(m, c)));
            lemma_set_disjoint_lens(before, tree(m, c));
        }
        lemma_len_subset(now, subordinates(m, x));
    }
}

/// The number of members under `x` is the sum, over the direct reports `c` of
/// `x`, of one for `c` plus the number of members under `c`.
pub proof fn lemma_count_unfolds<K>(m: Map<K, K>, reports: Seq<K>, x: K)
    requires
        is_hierarchy(m),
        lists_reports(m, x, reports),
    ensures
        transitive_count(m, x) == tally(m, reports, x, reports.len()),
{
    let n = reports.len();
    lemma_tally_gathers(m, reports, x, n);
    assert forall|e: K| subordinates(m, x).contains(e) implies gathered(
        m,
        reports,
        x,
        n,
    ).contains(e) by {
        let c = lemma_under_has_report(m, e, x);
        assert(reports.contains(c));
        let j = choose|j: int| 0 <= j < reports.len() && reports[j] == c;
        assert(0 <= j < n && reports[j] != x && tree(m, reports[j]).contains(e));
    }
    assert(gathered(m, reports, x, n) =~= subordinates(m, x));
}

/// A member with no direct report has nobody under them.
pub proof fn lemma_count_without_reports<K>(m: Map<K, K>, x: K)
    requires
        forall|e: K| !reports_to(m, e, x),
    ensures
        transitive_count(m, x) == 0,
{
    assert forall|e: K| !subordinates(m, x).contains(e) by {
        if is_under(m, e, x) {
            let c = lemma_under_has_report(m, e, x);
        }
    }
    assert(subordinates(m, x) =~= Set::<K>::empty());
}

/// A member who is their own manager is not among those who report to them:
/// the entry for oneself is no reporting step.
pub proof fn lemma_root_not_under_itself<K>(m: Map<K, K>, r: K)
    requires
        is_root(m, r),
    ensures
        !subordinates(m, r).contains(r),
{
    assert forall|k: nat| k >= 1 implies !#[trigger] reaches(m, r, r, k) by {}
}

/// In a hierarchy, a member who is their own manager has under them everyone
/// in their tree but themselves: the count and one more is the size of the tree.
pub proof fn lemma_root_count<K>(m: Map<K, K>, r: K)
    requires
        is_hierarchy(m),
        is_root(m, r),
    ensures
        tree(m, r).finite(),
        transitive_count(m, r) + 1 == tree(m, r).len(),
{
    lemma_subordinates_bounded(m, r);
    lemma_tree_members(m, r);
    lemma_root_not_under_itself(m, r);
}

/// Whoever reports to somebody whose chain of managers comes to an end has
/// a chain that comes to an end.
pub proof fn lemma_grounded_step<K>(m: Map<K, K>, x: K)
    requires
        m.contains_key(x),
        m[x] != x,
        is_grounded(m, m[x]),
    ensures
        is_grounded(m, x),
{
    let k = choose|k: nat| #[trigger] tops_out(m, m[x], k);
    assert(tops_out(m, x, k + 1));
}

/// Whoever stands below somebody whose chain of managers comes to an end
/// has a chain that comes to an end.
pub proof fn lemma_grounded_below<K>(m: Map<K, K>, e: K, x: K, k: nat)
    requires
        reaches(m, e, x, k),
        is_grounded(m, x),
    ensures
        is_grounded(m, e),
    decreases k,
{
    if k > 0 {
        lemma_grounded_below(m, m[e], x, (k - 1) as nat);
        lemma_grounded_step(m, e);
    }
}

/// Nobody whose chain of managers ends after `k` steps is under themselves.
proof fn lemma_chain_that_ends_has_no_loop<K>(m: Map<K, K>, x: K, k: nat, c: nat)
    requires
        tops_out(m, x, k),
        c >= 1,
    ensures
        !reaches(m, x, x, c),
    decreases k,
{
    if reaches(m, x, x, c) {
        if k > 0 {
            let up = m[x];
            assert(reaches(m, up, up, 0));
            assert(reaches(m, x, up, 1));
            lemma_reaches_compose(m, up, x, up, (c - 1) as nat, 1);
            assert((c - 1) as nat + 1 == c);
            lemma_chain_that_ends_has_no_loop(m, up, (k - 1) as nat, c);
        }
    }
}

/// Nobody whose chain of managers comes to an end is under themselves.
pub proof fn lemma_grounded_not_under_itself<K>(m: Map<K, K>, x: K)
    requires
        is_grounded(m, x),
    ensures
        !is_under(m, x, x),
{
    let k = choose|k: nat| #[trigger] tops_out(m, x, k);
    assert forall|c: nat| c >= 1 implies !#[trigger] reaches(m, x, x, c) by {
        lemma_chain_that_ends_has_no_loop(m, x, k, c);
    }
}

/// A finite map in which every chain of managers comes to an end is a
/// hierarchy.
pub proof fn lemma_all_grounded_is_hierarchy<K>(m: Map<K, K>)
    requires
        m.dom().finite(),
        forall|x: K| #[trigger] m.contains_key(x) ==> is_grounded(m, x),
    ensures
        is_hierarchy(m),
{
    assert forall|x: K| !#[trigger] is_under(m, x, x) by {
        if is_under(m, x, x) {
            lemma_under_has_entry(m, x, x);
            lemma_grounded_not_under_itself(m, x);
        }
    }
}

} // verus!
