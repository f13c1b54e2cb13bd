//! Why the `byName` tree shows every key once: each group hangs under one
//! parent, the chains of parents end once cycles are broken, and a group
//! shows only under the group its chain passes through.

use vstd::prelude::*;

use crate::groups::{
    best_parent, best_upto, broken_upto, chain_ends, final_parents, group_index, group_name, groups_upto, has_group,
    has_vote, lemma_broken_len, lemma_named_kids_facts, name_forest, name_list, name_node, named_kids, parent_name,
    parents_present, row_added, shape_groups, vote_added, vote_weight, GroupV,
};
use crate::model::NodeV;
use crate::tree::{collapsed_id, collapses, eff_parent, eff_up, has_id, position_of, rows_ok, RowV};

verus! {

/// One step up from a group: the group its parent names, if the parent is
/// a group.
pub open spec fn step_up(gs: Seq<GroupV>, ps: Seq<Seq<char>>, o: Option<int>) -> Option<int> {
    match o {
        Some(c) => if ps[c].len() > 0 && has_group(gs, ps[c]) {
            Some(group_index(gs, ps[c]))
        } else {
            None
        },
        None => None,
    }
}

/// The group reached from group `j` after `s` steps up (`None` once the
/// chain has reached the top).
pub open spec fn up(gs: Seq<GroupV>, ps: Seq<Seq<char>>, j: int, s: nat) -> Option<int>
    decreases s,
{
    if s == 0 {
        Some(j)
    } else {
        step_up(gs, ps, up(gs, ps, j, (s - 1) as nat))
    }
}

pub open spec fn up_from(gs: Seq<GroupV>, ps: Seq<Seq<char>>, o: Option<int>, s: nat) -> Option<int> {
    match o {
        Some(c) => up(gs, ps, c, s),
        None => None,
    }
}

/// Group `k` lies on the chain of parents of group `j` (`j` itself counts).
pub open spec fn on_chain(gs: Seq<GroupV>, ps: Seq<Seq<char>>, k: int, j: int) -> bool {
    exists|s: nat| #[trigger] up(gs, ps, j, s) == Some(k)
}

/// No chain of parents returns to where it started.
pub open spec fn acyclic(gs: Seq<GroupV>, ps: Seq<Seq<char>>) -> bool {
    forall|j: int, s: nat| 0 <= j < gs.len() && s >= 1 ==> #[trigger] up(gs, ps, j, s) != Some(j)
}

/// No two groups share a name.
pub open spec fn names_distinct(gs: Seq<GroupV>) -> bool {
    forall|a: int, b: int| 0 <= a < gs.len() && 0 <= b < gs.len() && #[trigger] gs[a].name == #[trigger] gs[b].name ==> a == b
}

proof fn lemma_up_compose(gs: Seq<GroupV>, ps: Seq<Seq<char>>, j: int, a: nat, b: nat)
    ensures
        up(gs, ps, j, a + b) == up_from(gs, ps, up(gs, ps, j, a), b),
    decreases b,
{
    if b > 0 {
        lemma_up_compose(gs, ps, j, a, (b - 1) as nat);
        assert((a + b - 1) as nat == a + (b - 1) as nat);
    }
}

proof fn lemma_chain_ends_up(gs: Seq<GroupV>, ps: Seq<Seq<char>>, k: int, fuel: nat)
    requires
        chain_ends(gs, ps, k, fuel),
        ps.len() == gs.len(),
        0 <= k < gs.len(),
    ensures
        up(gs, ps, k, fuel) is None,
    decreases fuel,
{
    lemma_up_compose(gs, ps, k, 1, (fuel - 1) as nat);
    assert(1 + (fuel - 1) as nat == fuel);
    assert(up(gs, ps, k, 0) == Some(k));
    if ps[k].len() == 0 || !has_group(gs, ps[k]) {
        assert(up(gs, ps, k, 1) is None);
    } else {
        assert(up(gs, ps, k, 1) == Some(group_index(gs, ps[k])));
        lemma_chain_ends_up(gs, ps, group_index(gs, ps[k]), (fuel - 1) as nat);
    }
}

proof fn lemma_cycle_repeats(gs: Seq<GroupV>, ps: Seq<Seq<char>>, j: int, s0: nat, m: nat)
    requires
        up(gs, ps, j, s0) == Some(j),
    ensures
        up(gs, ps, j, m * s0) == Some(j),
    decreases m,
{
    if m > 0 {
        lemma_cycle_repeats(gs, ps, j, s0, (m - 1) as nat);
        lemma_up_compose(gs, ps, j, ((m - 1) * s0) as nat, s0);
        assert(((m - 1) * s0) as nat + s0 == m * s0) by (nonlinear_arith)
            requires
                m > 0,
        ;
    } else {
        assert(m * s0 == 0) by (nonlinear_arith)
            requires
                m == 0,
        ;
    }
}

/// When every chain ends within `gs.len()` steps, no chain runs in a cycle.
proof fn lemma_ends_acyclic(gs: Seq<GroupV>, ps: Seq<Seq<char>>)
    requires
        ps.len() == gs.len(),
        forall|j: int| 0 <= j < gs.len() ==> #[trigger] chain_ends(gs, ps, j, gs.len() as nat),
    ensures
        acyclic(gs, ps),
{
    assert forall|j: int, s: nat| 0 <= j < gs.len() && s >= 1 implies #[trigger] up(gs, ps, j, s) != Some(j) by {
        if up(gs, ps, j, s) == Some(j) {
            let n = gs.len() as nat;
            assert(chain_ends(gs, ps, j, n));
            lemma_chain_ends_up(gs, ps, j, n);
            lemma_cycle_repeats(gs, ps, j, s, n);
            assert(n * s >= n) by (nonlinear_arith)
                requires
                    s >= 1,
            ;
            lemma_up_compose(gs, ps, j, n, (n * s - n) as nat);
            assert(n + (n * s - n) as nat == n * s);
        }
    }
}

/// Clearing a parent only ends chains sooner.
proof fn lemma_chain_ends_cleared(gs: Seq<GroupV>, ps: Seq<Seq<char>>, q: int, k: int, fuel: nat)
    requires
        chain_ends(gs, ps, k, fuel),
        ps.len() == gs.len(),
        0 <= q < ps.len(),
        0 <= k < ps.len(),
    ensures
        chain_ends(gs, ps.update(q, Seq::empty()), k, fuel),
    decreases fuel,
{
    let ps2 = ps.update(q, Seq::empty());
    if k != q {
        assert(ps2[k] == ps[k]);
        if !(ps[k].len() == 0 || !has_group(gs, ps[k])) {
            let g = group_index(gs, ps[k]);
            assert(0 <= g < gs.len());
            lemma_chain_ends_cleared(gs, ps, q, g, (fuel - 1) as nat);
        }
    } else {
        assert(ps2[k].len() == 0);
    }
}

/// After cycles are broken, every chain of parents ends.
proof fn lemma_broken_ends(gs: Seq<GroupV>, m: nat)
    requires
        m <= gs.len(),
    ensures
        forall|j: int| 0 <= j < m ==> #[trigger] chain_ends(gs, broken_upto(gs, m), j, gs.len() as nat),
    decreases m,
{
    if m > 0 {
        lemma_broken_ends(gs, (m - 1) as nat);
        lemma_broken_len(gs, (m - 1) as nat);
        let ps = broken_upto(gs, (m - 1) as nat);
        if !chain_ends(gs, ps, m - 1, gs.len() as nat) {
            let ps2 = ps.update(m - 1, Seq::empty());
            assert forall|j: int| 0 <= j < m implies #[trigger] chain_ends(gs, ps2, j, gs.len() as nat) by {
                if j < m - 1 {
                    lemma_chain_ends_cleared(gs, ps, m - 1, j, gs.len() as nat);
                } else {
                    assert(ps2[j].len() == 0);
                }
            }
        }
    }
}

/// The final parents of the groups run in no cycle.
pub proof fn lemma_final_acyclic(gs: Seq<GroupV>)
    ensures
        acyclic(gs, final_parents(gs)),
        final_parents(gs).len() == gs.len(),
{
    lemma_broken_ends(gs, gs.len());
    lemma_broken_len(gs, gs.len());
    lemma_ends_acyclic(gs, final_parents(gs));
}

/// Group names are distinct: a row joins the group of its name when there
/// is one.
proof fn lemma_names_distinct(rs: Seq<RowV>, n: nat)
    ensures
        names_distinct(groups_upto(rs, n)),
    decreases n,
{
    if n > 0 {
        lemma_names_distinct(rs, (n - 1) as nat);
        let gs = groups_upto(rs, (n - 1) as nat);
        if !collapses(rs, n - 1) {
            let next = row_added(gs, rs, n - 1);
            let name = group_name(rs, n - 1);
            if has_group(gs, name) {
                let c = group_index(gs, name);
                assert forall|a: int, b: int|
                    0 <= a < next.len() && 0 <= b < next.len() && #[trigger] next[a].name == #[trigger] next[b].name implies a == b by {
                    assert(next[a].name == gs[a].name);
                    assert(next[b].name == gs[b].name);
                }
            } else {
                assert forall|a: int, b: int|
                    0 <= a < next.len() && 0 <= b < next.len() && #[trigger] next[a].name == #[trigger] next[b].name implies a == b by {
                    if a < gs.len() {
                        assert(next[a] == gs[a]);
                    }
                    if b < gs.len() {
                        assert(next[b] == gs[b]);
                    }
                    if a < gs.len() && b == gs.len() {
                        assert(gs[a].name == name);
                    }
                    if b < gs.len() && a == gs.len() {
                        assert(gs[b].name == name);
                    }
                }
            }
        }
    }
}

/// With no empty key among the rows, no group has an empty name.
proof fn lemma_names_nonempty(rs: Seq<RowV>, n: nat)
    requires
        n <= rs.len(),
        forall|i: int| 0 <= i < rs.len() ==> (#[trigger] rs[i]).key.len() > 0,
    ensures
        forall|c: int| 0 <= c < groups_upto(rs, n).len() ==> (#[trigger] groups_upto(rs, n)[c]).name.len() > 0,
    decreases n,
{
    if n > 0 {
        lemma_names_nonempty(rs, (n - 1) as nat);
        let gs = groups_upto(rs, (n - 1) as nat);
        if !collapses(rs, n - 1) {
            let next = row_added(gs, rs, n - 1);
            let name = group_name(rs, n - 1);
            assert(rs[n - 1].key.len() > 0);
            assert(name.len() > 0);
            if has_group(gs, name) {
                let k = group_index(gs, name);
                assert forall|c: int| 0 <= c < next.len() implies (#[trigger] next[c]).name.len() > 0 by {
                    if c != k {
                        assert(next[c] == gs[c]);
                    }
                }
            } else {
                assert forall|c: int| 0 <= c < next.len() implies (#[trigger] next[c]).name.len() > 0 by {
                    if c < gs.len() {
                        assert(next[c] == gs[c]);
                    }
                }
            }
        }
    }
}

/// What the tree of groups rests on: one parent per group, distinct and
/// non-empty names, no cycle.
pub open spec fn tree_ctx(gs: Seq<GroupV>, ps: Seq<Seq<char>>) -> bool {
    &&& ps.len() == gs.len()
    &&& names_distinct(gs)
    &&& forall|c: int| 0 <= c < gs.len() ==> (#[trigger] gs[c]).name.len() > 0
    &&& acyclic(gs, ps)
}

/// A group whose parent is the name of group `k` is one step below `k`.
proof fn lemma_kid_up(gs: Seq<GroupV>, ps: Seq<Seq<char>>, k: int, c: int)
    requires
        tree_ctx(gs, ps),
        0 <= k < gs.len(),
        0 <= c < gs.len(),
        ps[c] == gs[k].name,
    ensures
        up(gs, ps, c, 1) == Some(k),
{
    assert(up(gs, ps, c, 0) == Some(c));
    assert(gs[k].name.len() > 0);
    assert(has_group(gs, ps[c]));
    let g = group_index(gs, ps[c]);
    assert(gs[g].name == gs[k].name);
}

/// Two groups below the same group cannot both lie on one chain.
proof fn lemma_siblings_apart(gs: Seq<GroupV>, ps: Seq<Seq<char>>, j: int, s1: nat, s2: nat, c1: int, c2: int, k: int)
    requires
        tree_ctx(gs, ps),
        0 <= k < gs.len(),
        s1 <= s2,
        up(gs, ps, j, s1) == Some(c1),
        up(gs, ps, j, s2) == Some(c2),
        up(gs, ps, c1, 1) == Some(k),
        up(gs, ps, c2, 1) == Some(k),
    ensures
        s1 == s2,
{
    if s1 == s2 {
        return;
    }
    let d = (s2 - s1) as nat;
    lemma_up_compose(gs, ps, j, s1, d);
    assert(s1 + d == s2);
    lemma_up_compose(gs, ps, c1, 1, (d - 1) as nat);
    assert(1 + (d - 1) as nat == d);
    lemma_up_compose(gs, ps, k, (d - 1) as nat, 1);
    assert((d - 1) as nat + 1 == d);
    assert(up(gs, ps, k, d) == Some(k));
}

/// Two groups at the top cannot both lie on one chain.
proof fn lemma_tops_apart(gs: Seq<GroupV>, ps: Seq<Seq<char>>, j: int, s1: nat, s2: nat, t1: int, t2: int)
    requires
        s1 <= s2,
        up(gs, ps, j, s1) == Some(t1),
        up(gs, ps, j, s2) == Some(t2),
        up(gs, ps, t1, 1) is None,
    ensures
        s1 == s2,
{
    if s1 == s2 {
        return;
    }
    let d = (s2 - s1) as nat;
    lemma_up_compose(gs, ps, j, s1, d);
    assert(s1 + d == s2);
    lemma_up_compose(gs, ps, t1, 1, (d - 1) as nat);
    assert(1 + (d - 1) as nat == d);
}

/// How many of the first `m` groups of `list` lie on the chain of `j`.
pub open spec fn hits(gs: Seq<GroupV>, ps: Seq<Seq<char>>, list: Seq<int>, j: int, m: nat) -> nat
    decreases m,
{
    if m == 0 || m > list.len() {
        0
    } else {
        hits(gs, ps, list, j, (m - 1) as nat) + if on_chain(gs, ps, list[m - 1], j) {
            1nat
        } else {
            0nat
        }
    }
}

pub open spec fn increasing(list: Seq<int>) -> bool {
    forall|a: int, b: int| 0 <= a < b < list.len() ==> #[trigger] list[a] < #[trigger] list[b]
}

/// Among groups that all sit one step below `k` (or all at the top), at most
/// one lies on the chain of `j`; one below `k` does only when `k` does.
proof fn lemma_hits_once(
    gs: Seq<GroupV>,
    ps: Seq<Seq<char>>,
    list: Seq<int>,
    j: int,
    m: nat,
    below: Option<int>,
)
    requires
        tree_ctx(gs, ps),
        increasing(list),
        m <= list.len(),
        forall|i: int|
            0 <= i < list.len() ==> up(gs, ps, #[trigger] list[i], 1) == match below {
                Some(k) => Some(k),
                None => None::<int>,
            },
        below matches Some(k) ==> 0 <= k < gs.len(),
    ensures
        hits(gs, ps, list, j, m) <= 1,
        hits(gs, ps, list, j, m) == 1 ==> exists|i: int| 0 <= i < m && on_chain(gs, ps, #[trigger] list[i], j),
    decreases m,
{
    if m > 0 {
        lemma_hits_once(gs, ps, list, j, (m - 1) as nat, below);
        let c = list[m - 1];
        if on_chain(gs, ps, c, j) && hits(gs, ps, list, j, (m - 1) as nat) == 1 {
            let i = choose|i: int| 0 <= i < m - 1 && on_chain(gs, ps, #[trigger] list[i], j);
            let c0 = list[i];
            assert(c0 < c);
            let s0 = choose|s: nat| #[trigger] up(gs, ps, j, s) == Some(c0);
            let s1 = choose|s: nat| #[trigger] up(gs, ps, j, s) == Some(c);
            assert(up(gs, ps, c0, 1) == up(gs, ps, c, 1));
            match below {
                Some(k) => {
                    if s0 <= s1 {
                        lemma_siblings_apart(gs, ps, j, s0, s1, c0, c, k);
                    } else {
                        lemma_siblings_apart(gs, ps, j, s1, s0, c, c0, k);
                    }
                },
                None => {
                    if s0 <= s1 {
                        lemma_tops_apart(gs, ps, j, s0, s1, c0, c);
                    } else {
                        lemma_tops_apart(gs, ps, j, s1, s0, c, c0);
                    }
                },
            }
        }
    }
}

/// A group below `k` that lies on the chain of `j` puts `k` on that chain;
/// `k` itself never lies on the chain of a group below it.
proof fn lemma_hit_lifts(gs: Seq<GroupV>, ps: Seq<Seq<char>>, c: int, k: int, j: int)
    requires
        tree_ctx(gs, ps),
        0 <= k < gs.len(),
        up(gs, ps, c, 1) == Some(k),
        on_chain(gs, ps, c, j),
    ensures
        on_chain(gs, ps, k, j),
        j != k,
{
    let s = choose|s: nat| #[trigger] up(gs, ps, j, s) == Some(c);
    lemma_up_compose(gs, ps, j, s, 1);
    assert(up(gs, ps, j, s + 1) == Some(k));
    if j == k {
        assert(up(gs, ps, k, s + 1) == Some(k));
    }
}

/// How many nodes of the subtree of `n` have key `x`.
pub open spec fn key_count(n: NodeV, x: Seq<char>) -> nat
    decreases n, 0nat,
{
    (if n.key == x {
        1nat
    } else {
        0nat
    }) + keys_count(n.children, x, n.children.len())
}

/// How many nodes of the subtrees of the first `k` nodes have key `x`.
pub open spec fn keys_count(ns: Seq<NodeV>, x: Seq<char>, k: nat) -> nat
    decreases ns, k,
{
    if k == 0 || k > ns.len() {
        0
    } else {
        keys_count(ns, x, (k - 1) as nat) + key_count(ns[k - 1], x)
    }
}

proof fn lemma_keys_prefix(ns: Seq<NodeV>, y: NodeV, x: Seq<char>, k: nat)
    requires
        k <= ns.len(),
    ensures
        keys_count(ns.push(y), x, k) == keys_count(ns, x, k),
    decreases k,
{
    if k > 0 {
        lemma_keys_prefix(ns, y, x, (k - 1) as nat);
        assert(ns.push(y)[k - 1] == ns[k - 1]);
    }
}

proof fn lemma_name_list_len(gs: Seq<GroupV>, ps: Seq<Seq<char>>, list: Seq<int>, guard: Seq<int>, m: nat)
    requires
        m <= list.len(),
    ensures
        name_list(gs, ps, list, guard, m).len() == m,
    decreases m,
{
    if m > 0 {
        lemma_name_list_len(gs, ps, list, guard, (m - 1) as nat);
    }
}

proof fn lemma_named_kids_increasing(ps: Seq<Seq<char>>, parent: Seq<char>, n: nat)
    requires
        n <= ps.len(),
    ensures
        increasing(named_kids(ps, parent, n)),
    decreases n,
{
    if n > 0 {
        lemma_named_kids_increasing(ps, parent, (n - 1) as nat);
        lemma_named_kids_facts(ps, parent, (n - 1) as nat);
        let prev = named_kids(ps, parent, (n - 1) as nat);
        let cur = named_kids(ps, parent, n);
        assert forall|a: int, b: int| 0 <= a < b < cur.len() implies #[trigger] cur[a] < #[trigger] cur[b] by {
            assert(cur[a] == prev[a]);
            if b < prev.len() {
                assert(cur[b] == prev[b]);
            }
        }
    }
}

/// The most times key `x` can show in the subtree of group `k`: once if the
/// group named `x` lies below `k` (or is `k`), never otherwise.
pub open spec fn node_bound(gs: Seq<GroupV>, ps: Seq<Seq<char>>, k: int, x: Seq<char>) -> nat {
    if has_group(gs, x) && on_chain(gs, ps, k, group_index(gs, x)) {
        1
    } else {
        0
    }
}

pub open spec fn list_bound(gs: Seq<GroupV>, ps: Seq<Seq<char>>, list: Seq<int>, x: Seq<char>, m: nat) -> nat {
    if has_group(gs, x) {
        hits(gs, ps, list, group_index(gs, x), m)
    } else {
        0
    }
}

proof fn lemma_node_count(gs: Seq<GroupV>, ps: Seq<Seq<char>>, k: int, guard: Seq<int>, x: Seq<char>)
    requires
        tree_ctx(gs, ps),
        0 <= k < gs.len(),
    ensures
        key_count(name_node(gs, ps, k, guard), x) <= node_bound(gs, ps, k, x),
    decreases gs.len() - guard.len(), 0nat, 0nat,
{
    let list = named_kids(ps, gs[k].name, gs.len());
    let node = name_node(gs, ps, k, guard);
    let own: nat = if gs[k].name == x {
        1
    } else {
        0
    };
    if gs[k].name == x {
        assert(has_group(gs, x));
        let g = group_index(gs, x);
        assert(gs[g].name == gs[k].name);
        assert(g == k);
        assert(up(gs, ps, k, 0) == Some(k));
        assert(on_chain(gs, ps, k, k));
    }
    if guard.len() < gs.len() && !guard.contains(k) {
        lemma_named_kids_facts(ps, gs[k].name, gs.len());
        lemma_named_kids_increasing(ps, gs[k].name, gs.len());
        lemma_name_list_len(gs, ps, list, guard.push(k), list.len());
        lemma_list_count(gs, ps, list, guard.push(k), x, list.len());
        assert forall|i: int| 0 <= i < list.len() implies up(gs, ps, #[trigger] list[i], 1) == Some(k) by {
            lemma_kid_up(gs, ps, k, list[i]);
        }
        assert(node.children.len() == list.len());
        assert(key_count(node, x) == own + keys_count(node.children, x, list.len()));
        if has_group(gs, x) {
            let j = group_index(gs, x);
            lemma_hits_once(gs, ps, list, j, list.len(), Some(k));
            if hits(gs, ps, list, j, list.len()) == 1 {
                let i = choose|i: int| 0 <= i < list.len() && on_chain(gs, ps, #[trigger] list[i], j);
                lemma_hit_lifts(gs, ps, list[i], k, j);
                assert(gs[j].name == x);
                assert(gs[k].name != x);
            }
        }
    } else {
        assert(node.children.len() == 0);
    }
}

proof fn lemma_list_count(gs: Seq<GroupV>, ps: Seq<Seq<char>>, list: Seq<int>, guard: Seq<int>, x: Seq<char>, m: nat)
    requires
        tree_ctx(gs, ps),
        m <= list.len(),
        forall|i: int| 0 <= i < list.len() ==> 0 <= #[trigger] list[i] < gs.len(),
    ensures
        keys_count(name_list(gs, ps, list, guard, m), x, m) <= list_bound(gs, ps, list, x, m),
    decreases gs.len() - guard.len(), 1nat, m,
{
    if m > 0 {
        lemma_list_count(gs, ps, list, guard, x, (m - 1) as nat);
        lemma_name_list_len(gs, ps, list, guard, (m - 1) as nat);
        let prev = name_list(gs, ps, list, guard, (m - 1) as nat);
        let node = name_node(gs, ps, list[m - 1], guard);
        lemma_node_count(gs, ps, list[m - 1], guard, x);
        lemma_keys_prefix(prev, node, x, (m - 1) as nat);
        assert(name_list(gs, ps, list, guard, m) == prev.push(node));
        assert(prev.push(node)[m - 1] == node);
    }
}

/// In the `byName` tree every key shows at most once: all the paths of a
/// name merge into one node. This holds when no key is the empty text (a
/// group named "" would list the top groups a second time under it).
pub proof fn lemma_keys_once(rs: Seq<RowV>, x: Seq<char>)
    requires
        forall|i: int| 0 <= i < rs.len() ==> (#[trigger] rs[i]).key.len() > 0,
    ensures
        keys_count(name_forest(rs), x, name_forest(rs).len()) <= 1,
{
    let gs = shape_groups(rs);
    let ps = final_parents(gs);
    lemma_names_distinct(rs, rs.len());
    lemma_names_nonempty(rs, rs.len());
    lemma_final_acyclic(gs);
    assert(tree_ctx(gs, ps));
    let top = named_kids(ps, Seq::empty(), gs.len());
    lemma_named_kids_facts(ps, Seq::empty(), gs.len());
    lemma_named_kids_increasing(ps, Seq::empty(), gs.len());
    lemma_name_list_len(gs, ps, top, Seq::empty(), top.len());
    lemma_list_count(gs, ps, top, Seq::empty(), x, top.len());
    assert forall|i: int| 0 <= i < top.len() implies up(gs, ps, #[trigger] top[i], 1) == None::<int> by {
        assert(up(gs, ps, top[i], 0) == Some(top[i]));
        assert(ps[top[i]].len() == 0);
    }
    if has_group(gs, x) {
        lemma_hits_once(gs, ps, top, group_index(gs, x), top.len(), None);
    }
}

/// Up from `p` through folded rows, the parent reached is a row that is not
/// folded away.
pub proof fn lemma_eff_up_shown(rs: Seq<RowV>, p: Option<i64>)
    requires
        rows_ok(rs),
        parents_present(rs),
        p matches Some(q) ==> has_id(rs, q),
    ensures
        eff_up(rs, p) matches Some(e) ==> has_id(rs, e) && !collapses(rs, position_of(rs, e)),
    decreases (match p {
        Some(q) => q - i64::MIN,
        None => 0,
    }),
{
    match p {
        None => {},
        Some(q) => {
            if collapsed_id(rs, q) {
                let pq = position_of(rs, q);
                assert(rs[pq].id == q);
                match rs[pq].parent {
                    Some(r) => {
                        assert(r < rs[pq].id);
                        lemma_eff_up_shown(rs, Some(r));
                    },
                    None => {},
                }
            }
        },
    }
}

/// A name that some row not folded away has.
pub open spec fn names_a_row(rs: Seq<RowV>, name: Seq<char>) -> bool {
    exists|q: int| 0 <= q < rs.len() && !collapses(rs, q) && #[trigger] group_name(rs, q) == name
}

/// Every vote of every group is for the top or for the name of a row.
pub open spec fn votes_known(rs: Seq<RowV>, gs: Seq<GroupV>) -> bool {
    forall|k: int, v: int|
        #![trigger gs[k].votes[v]]
        0 <= k < gs.len() && 0 <= v < gs[k].votes.len() ==> gs[k].votes[v].0.len() == 0 || names_a_row(rs, gs[k].votes[v].0)
}

proof fn lemma_parent_name_known(rs: Seq<RowV>, i: int)
    requires
        rows_ok(rs),
        parents_present(rs),
        0 <= i < rs.len(),
    ensures
        parent_name(rs, i).len() == 0 || names_a_row(rs, parent_name(rs, i)),
{
    assert(rs[i].parent matches Some(q) ==> has_id(rs, q));
    lemma_eff_up_shown(rs, rs[i].parent);
    match eff_parent(rs, i) {
        Some(e) => {
            let q = position_of(rs, e);
            assert(group_name(rs, q) == parent_name(rs, i));
        },
        None => {},
    }
}

proof fn lemma_votes_known(rs: Seq<RowV>, n: nat)
    requires
        rows_ok(rs),
        parents_present(rs),
        n <= rs.len(),
    ensures
        votes_known(rs, groups_upto(rs, n)),
    decreases n,
{
    if n > 0 {
        lemma_votes_known(rs, (n - 1) as nat);
        let gs = groups_upto(rs, (n - 1) as nat);
        let i = n - 1;
        if !collapses(rs, i) {
            lemma_parent_name_known(rs, i);
            let next = row_added(gs, rs, i);
            let name = group_name(rs, i);
            let p = parent_name(rs, i);
            let w = vote_weight(rs, i);
            if has_group(gs, name) {
                let c = group_index(gs, name);
                let old_votes = gs[c].votes;
                let new_votes = vote_added(old_votes, p, w);
                assert(next[c].votes == new_votes);
                assert forall|k: int, v: int|
                    0 <= k < next.len() && 0 <= v < next[k].votes.len() implies next[k].votes[v].0.len() == 0
                        || names_a_row(rs, next[k].votes[v].0) by {
                    if k != c {
                        assert(next[k] == gs[k]);
                    } else if has_vote(old_votes, p) {
                        assert(new_votes[v].0 == p || new_votes[v] == old_votes[v]);
                    } else {
                        if v < old_votes.len() {
                            assert(new_votes[v] == old_votes[v]);
                        }
                    }
                }
            } else {
                assert forall|k: int, v: int|
                    0 <= k < next.len() && 0 <= v < next[k].votes.len() implies next[k].votes[v].0.len() == 0
                        || names_a_row(rs, next[k].votes[v].0) by {
                    if k < gs.len() {
                        assert(next[k] == gs[k]);
                    }
                }
            }
        }
    }
}

/// Groups, once made, stay.
proof fn lemma_group_stays(gs: Seq<GroupV>, rs: Seq<RowV>, i: int, name: Seq<char>)
    requires
        has_group(gs, name),
    ensures
        has_group(row_added(gs, rs, i), name),
{
    let k = choose|k: int| 0 <= k < gs.len() && #[trigger] gs[k].name == name;
    let next = row_added(gs, rs, i);
    assert(next[k].name == gs[k].name);
}

/// The name of a row that is not folded away is the name of a group.
proof fn lemma_row_has_group(rs: Seq<RowV>, i: int, m: nat)
    requires
        0 <= i < m <= rs.len(),
        !collapses(rs, i),
    ensures
        has_group(groups_upto(rs, m), group_name(rs, i)),
    decreases m,
{
    let gs = groups_upto(rs, (m - 1) as nat);
    let name = group_name(rs, i);
    if i == m - 1 {
        let next = row_added(gs, rs, i);
        if has_group(gs, name) {
            let c = group_index(gs, name);
            assert(next[c].name == name);
        } else {
            assert(next[gs.len() as int].name == name);
        }
    } else {
        lemma_row_has_group(rs, i, (m - 1) as nat);
        if !collapses(rs, m - 1) {
            lemma_group_stays(gs, rs, m - 1, name);
        }
    }
}

proof fn lemma_best_is_a_vote(votes: Seq<(Seq<char>, int)>, k: nat)
    requires
        1 <= k <= votes.len(),
    ensures
        exists|v: int| 0 <= v < k && #[trigger] votes[v] == best_upto(votes, k),
    decreases k,
{
    if k > 1 {
        lemma_best_is_a_vote(votes, (k - 1) as nat);
        let b = best_upto(votes, (k - 1) as nat);
        let v0 = choose|v: int| 0 <= v < k - 1 && #[trigger] votes[v] == b;
        if best_upto(votes, k) == b {
            assert(votes[v0] == best_upto(votes, k));
        } else {
            assert(votes[k - 1] == best_upto(votes, k));
        }
    } else {
        assert(votes[0] == best_upto(votes, k));
    }
}

proof fn lemma_broken_from_votes(gs: Seq<GroupV>, m: nat, k: int)
    requires
        m <= gs.len(),
        0 <= k < gs.len(),
    ensures
        broken_upto(gs, m)[k].len() == 0 || broken_upto(gs, m)[k] == best_parent(gs[k].votes),
    decreases m,
{
    if m > 0 {
        lemma_broken_from_votes(gs, (m - 1) as nat, k);
        lemma_broken_len(gs, (m - 1) as nat);
    }
}

/// Every group's parent in the tree is the top or a group.
pub open spec fn parents_known(gs: Seq<GroupV>, ps: Seq<Seq<char>>) -> bool {
    forall|k: int| 0 <= k < gs.len() ==> (#[trigger] ps[k]).len() == 0 || has_group(gs, ps[k])
}

proof fn lemma_parents_known(rs: Seq<RowV>)
    requires
        rows_ok(rs),
        parents_present(rs),
    ensures
        parents_known(shape_groups(rs), final_parents(shape_groups(rs))),
{
    let gs = shape_groups(rs);
    let ps = final_parents(gs);
    lemma_votes_known(rs, rs.len());
    assert forall|k: int| 0 <= k < gs.len() implies (#[trigger] ps[k]).len() == 0 || has_group(gs, ps[k]) by {
        lemma_broken_from_votes(gs, gs.len(), k);
        let votes = gs[k].votes;
        if ps[k].len() > 0 {
            assert(votes.len() > 0);
            lemma_best_is_a_vote(votes, votes.len());
            let v = choose|v: int| 0 <= v < votes.len() && #[trigger] votes[v] == best_upto(votes, votes.len());
            assert(gs[k].votes[v].0 == ps[k]);
            assert(names_a_row(rs, ps[k]));
            let q = choose|q: int| 0 <= q < rs.len() && !collapses(rs, q) && #[trigger] group_name(rs, q) == ps[k];
            lemma_row_has_group(rs, q, rs.len());
        }
    }
}

proof fn lemma_none_stays(gs: Seq<GroupV>, ps: Seq<Seq<char>>, j: int, a: nat, b: nat)
    requires
        up(gs, ps, j, a) is None,
        a <= b,
    ensures
        up(gs, ps, j, b) is None,
{
    lemma_up_compose(gs, ps, j, a, (b - a) as nat);
    assert(a + (b - a) as nat == b);
}

proof fn lemma_up_range(gs: Seq<GroupV>, ps: Seq<Seq<char>>, j: int, s: nat)
    requires
        0 <= j < gs.len(),
    ensures
        up(gs, ps, j, s) matches Some(c) ==> 0 <= c < gs.len(),
    decreases s,
{
    if s > 0 {
        lemma_up_range(gs, ps, j, (s - 1) as nat);
    }
}

/// The group `s` steps up from `j` (when there is one).
pub open spec fn at(gs: Seq<GroupV>, ps: Seq<Seq<char>>, j: int, s: nat) -> int {
    match up(gs, ps, j, s) {
        Some(c) => c,
        None => 0,
    }
}

/// Following the parents from `j` reaches a group at the top.
proof fn lemma_find_top(gs: Seq<GroupV>, ps: Seq<Seq<char>>, j: int, s: nat) -> (t: nat)
    requires
        tree_ctx(gs, ps),
        parents_known(gs, ps),
        0 <= j < gs.len(),
        up(gs, ps, j, s) is Some,
        up(gs, ps, j, gs.len() as nat) is None,
    ensures
        s <= t < gs.len(),
        up(gs, ps, j, t) is Some,
        ps[at(gs, ps, j, t)].len() == 0,
    decreases gs.len() - s,
{
    let n = gs.len() as nat;
    if s >= n {
        lemma_none_stays(gs, ps, j, n, s);
    }
    lemma_up_range(gs, ps, j, s);
    let c = at(gs, ps, j, s);
    lemma_up_compose(gs, ps, j, s, 1);
    assert(up(gs, ps, c, 0) == Some(c));
    if up(gs, ps, j, s + 1) is None {
        assert(up(gs, ps, c, 1) is None);
        assert(ps[c].len() == 0 || has_group(gs, ps[c]));
        s
    } else {
        lemma_find_top(gs, ps, j, s + 1)
    }
}

proof fn lemma_in_named_kids(ps: Seq<Seq<char>>, parent: Seq<char>, n: nat, c: int)
    requires
        0 <= c < n <= ps.len(),
        ps[c] == parent,
    ensures
        exists|i: int| 0 <= i < named_kids(ps, parent, n).len() && #[trigger] named_kids(ps, parent, n)[i] == c,
    decreases n,
{
    let cur = named_kids(ps, parent, n);
    if c == n - 1 {
        assert(cur[cur.len() - 1] == c);
    } else {
        lemma_in_named_kids(ps, parent, (n - 1) as nat, c);
        let prev = named_kids(ps, parent, (n - 1) as nat);
        let i = choose|i: int| 0 <= i < prev.len() && #[trigger] prev[i] == c;
        assert(cur[i] == prev[i]);
    }
}

proof fn lemma_list_covers(
    gs: Seq<GroupV>,
    ps: Seq<Seq<char>>,
    list: Seq<int>,
    guard: Seq<int>,
    m: nat,
    i: int,
    x: Seq<char>,
)
    requires
        0 <= i < m <= list.len(),
    ensures
        keys_count(name_list(gs, ps, list, guard, m), x, m) >= key_count(name_node(gs, ps, list[i], guard), x),
    decreases m,
{
    lemma_name_list_len(gs, ps, list, guard, (m - 1) as nat);
    let prev = name_list(gs, ps, list, guard, (m - 1) as nat);
    let node = name_node(gs, ps, list[m - 1], guard);
    lemma_keys_prefix(prev, node, x, (m - 1) as nat);
    assert(name_list(gs, ps, list, guard, m) == prev.push(node));
    assert(prev.push(node)[m - 1] == node);
    if i < m - 1 {
        lemma_list_covers(gs, ps, list, guard, (m - 1) as nat, i, x);
    }
}

/// The groups above the one `d` steps up from `j`, from the top group `s`
/// steps up down to `d + 1` steps up: the guard while that group is built.
pub open spec fn guard_above(gs: Seq<GroupV>, ps: Seq<Seq<char>>, j: int, s: nat, d: nat) -> Seq<int> {
    Seq::new((s - d) as nat, |i: int| at(gs, ps, j, (s - i) as nat))
}

/// Built from the top down along its chain, the subtree of every group on
/// the chain of `j` holds the name of `j`.
proof fn lemma_descend(gs: Seq<GroupV>, ps: Seq<Seq<char>>, j: int, s: nat, d: nat)
    requires
        tree_ctx(gs, ps),
        0 <= j < gs.len(),
        d <= s < gs.len(),
        up(gs, ps, j, s) is Some,
    ensures
        key_count(name_node(gs, ps, at(gs, ps, j, d), guard_above(gs, ps, j, s, d)), gs[j].name) >= 1,
    decreases d,
{
    let n = gs.len() as nat;
    let x = gs[j].name;
    let g = guard_above(gs, ps, j, s, d);
    if up(gs, ps, j, d) is None {
        lemma_none_stays(gs, ps, j, d, s);
    }
    if d == 0 {
        assert(up(gs, ps, j, 0) == Some(j));
    } else {
        let k = at(gs, ps, j, d);
        if up(gs, ps, j, (d - 1) as nat) is None {
            lemma_none_stays(gs, ps, j, (d - 1) as nat, s);
        }
        let c = at(gs, ps, j, (d - 1) as nat);
        lemma_up_range(gs, ps, j, d);
        lemma_up_range(gs, ps, j, (d - 1) as nat);
        lemma_up_compose(gs, ps, j, (d - 1) as nat, 1);
        assert((d - 1) as nat + 1 == d);
        assert(up(gs, ps, c, 0) == Some(c));
        assert(up(gs, ps, c, 1) == Some(k));
        assert(ps[c].len() > 0 && has_group(gs, ps[c]));
        assert(gs[k].name == ps[c]);
        // `k` is not among the groups above it
        assert forall|i: int| 0 <= i < g.len() implies g[i] != k by {
            let e = (s - i) as nat;
            if g[i] == k {
                if up(gs, ps, j, e) is None {
                    lemma_none_stays(gs, ps, j, e, s);
                }
                lemma_up_compose(gs, ps, j, d, (e - d) as nat);
                assert(d + (e - d) as nat == e);
                assert(up(gs, ps, k, (e - d) as nat) == Some(k));
            }
        }
        assert(!g.contains(k));
        let list = named_kids(ps, gs[k].name, n);
        lemma_in_named_kids(ps, gs[k].name, n, c);
        let i = choose|i: int| 0 <= i < list.len() && #[trigger] list[i] == c;
        lemma_name_list_len(gs, ps, list, g.push(k), list.len());
        lemma_list_covers(gs, ps, list, g.push(k), list.len(), i, x);
        assert(g.push(k) =~= guard_above(gs, ps, j, s, (d - 1) as nat));
        lemma_descend(gs, ps, j, s, (d - 1) as nat);
    }
}

/// In the `byName` tree every name of the table shows exactly once: a row
/// that is not folded away has its name on one node, and on no other. This
/// holds of tables whose ids increase, whose parents are rows, and which
/// have no empty key.
pub proof fn lemma_every_name_once(rs: Seq<RowV>, i: int)
    requires
        rows_ok(rs),
        parents_present(rs),
        forall|r: int| 0 <= r < rs.len() ==> (#[trigger] rs[r]).key.len() > 0,
        0 <= i < rs.len(),
        !collapses(rs, i),
    ensures
        keys_count(name_forest(rs), group_name(rs, i), name_forest(rs).len()) == 1,
{
    let gs = shape_groups(rs);
    let ps = final_parents(gs);
    let n = gs.len() as nat;
    let x = group_name(rs, i);
    lemma_keys_once(rs, x);
    lemma_names_distinct(rs, rs.len());
    lemma_names_nonempty(rs, rs.len());
    lemma_final_acyclic(gs);
    lemma_parents_known(rs);
    lemma_row_has_group(rs, i, rs.len());
    let j = group_index(gs, x);
    assert(gs[j].name == x);
    lemma_broken_ends(gs, n);
    assert(chain_ends(gs, ps, j, n));
    lemma_chain_ends_up(gs, ps, j, n);
    assert(up(gs, ps, j, 0) == Some(j));
    let s = lemma_find_top(gs, ps, j, 0);
    lemma_up_range(gs, ps, j, s);
    let t = at(gs, ps, j, s);
    let top = named_kids(ps, Seq::empty(), n);
    assert(ps[t] =~= Seq::<char>::empty());
    lemma_in_named_kids(ps, Seq::empty(), n, t);
    let pos = choose|p: int| 0 <= p < top.len() && #[trigger] top[p] == t;
    lemma_descend(gs, ps, j, s, s);
    assert(guard_above(gs, ps, j, s, s) =~= Seq::<int>::empty());
    lemma_name_list_len(gs, ps, top, Seq::empty(), top.len());
    lemma_list_covers(gs, ps, top, Seq::empty(), top.len(), pos, x);
}

} // verus!

