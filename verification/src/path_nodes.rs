//! Why the `byPath` tree shows every path once: each row hangs under the row
//! its parent folds to, and a parent always comes before its children.

use vstd::prelude::*;

use crate::groups::parents_present;
use crate::model::NodeV;
use crate::name_keys::lemma_eff_up_shown;
use crate::tree::{
    collapses, eff_parent, has_id, kid_seq, kids_of, lemma_eff_present, lemma_eff_up_below,
    lemma_kid_seq_facts, lemma_kids_in_order, lemma_position_unique, path_kids, path_node, position_of, rows_ok,
    shows_under, RowV,
};

verus! {

/// How many nodes of the subtree of `n` stand for the path with id `id`.
pub open spec fn id_count(n: NodeV, id: i64) -> nat
    decreases n, 0nat,
{
    (if n.path_ids == seq![id] {
        1nat
    } else {
        0nat
    }) + ids_count(n.children, id, n.children.len())
}

/// How many nodes of the subtrees of the first `k` nodes stand for `id`.
pub open spec fn ids_count(ns: Seq<NodeV>, id: i64, k: nat) -> nat
    decreases ns, k,
{
    if k == 0 || k > ns.len() {
        0
    } else {
        ids_count(ns, id, (k - 1) as nat) + id_count(ns[k - 1], id)
    }
}

/// One step up from the row at position `c`: the row it shows under.
pub open spec fn row_step(rs: Seq<RowV>, o: Option<int>) -> Option<int> {
    match o {
        Some(c) => match eff_parent(rs, c) {
            Some(p) => if has_id(rs, p) {
                Some(position_of(rs, p))
            } else {
                None
            },
            None => None,
        },
        None => None,
    }
}

/// The row reached from row `j` after `s` steps up.
pub open spec fn row_up(rs: Seq<RowV>, j: int, s: nat) -> Option<int>
    decreases s,
{
    if s == 0 {
        Some(j)
    } else {
        row_step(rs, row_up(rs, j, (s - 1) as nat))
    }
}

pub open spec fn row_up_from(rs: Seq<RowV>, o: Option<int>, s: nat) -> Option<int> {
    match o {
        Some(c) => row_up(rs, c, s),
        None => None,
    }
}

/// Row `k` is row `j` or a row that `j` shows under, directly or not.
pub open spec fn above(rs: Seq<RowV>, k: int, j: int) -> bool {
    exists|s: nat| #[trigger] row_up(rs, j, s) == Some(k)
}

/// The row `s` steps up from `j` (when there is one).
pub open spec fn row_at(rs: Seq<RowV>, j: int, s: nat) -> int {
    match row_up(rs, j, s) {
        Some(c) => c,
        None => 0,
    }
}

proof fn lemma_row_compose(rs: Seq<RowV>, j: int, a: nat, b: nat)
    ensures
        row_up(rs, j, a + b) == row_up_from(rs, row_up(rs, j, a), b),
    decreases b,
{
    if b > 0 {
        lemma_row_compose(rs, j, a, (b - 1) as nat);
        assert((a + b - 1) as nat == a + (b - 1) as nat);
    }
}

proof fn lemma_row_none_stays(rs: Seq<RowV>, j: int, a: nat, b: nat)
    requires
        row_up(rs, j, a) is None,
        a <= b,
    ensures
        row_up(rs, j, b) is None,
{
    lemma_row_compose(rs, j, a, (b - a) as nat);
    assert(a + (b - a) as nat == b);
}

/// One step up lands on an earlier row that is not folded away.
proof fn lemma_step_down(rs: Seq<RowV>, c: int)
    requires
        rows_ok(rs),
        parents_present(rs),
        0 <= c < rs.len(),
    ensures
        row_up(rs, c, 1) matches Some(q) ==> 0 <= q < c && !collapses(rs, q) && eff_parent(rs, c) == Some(
            rs[q].id,
        ),
{
    assert(row_up(rs, c, 0) == Some(c));
    match eff_parent(rs, c) {
        Some(p) => {
            if has_id(rs, p) {
                let q = position_of(rs, p);
                assert(rs[q].id == p);
                assert(rs[c].parent matches Some(pp) ==> has_id(rs, pp));
                lemma_eff_up_shown(rs, rs[c].parent);
                lemma_eff_up_below(rs, rs[c].parent);
                assert(p < rs[c].id);
                if q >= c {
                    if q > c {
                        assert(rs[c].id < rs[q].id);
                    }
                }
            }
        },
        None => {},
    }
}

/// Going up never leaves the table and never moves down.
proof fn lemma_row_up_below(rs: Seq<RowV>, j: int, s: nat)
    requires
        rows_ok(rs),
        parents_present(rs),
        0 <= j < rs.len(),
    ensures
        row_up(rs, j, s) matches Some(c) ==> 0 <= c <= j && (s >= 1 ==> c < j) && (s >= 1 ==> !collapses(rs, c)),
    decreases s,
{
    if s > 0 {
        lemma_row_up_below(rs, j, (s - 1) as nat);
        match row_up(rs, j, (s - 1) as nat) {
            Some(c) => {
                lemma_step_down(rs, c);
                lemma_row_compose(rs, c, 0, 1);
                assert(row_up(rs, c, 0) == Some(c));
            },
            None => {},
        }
    }
}

/// A row shown under row `k` is one step below it.
proof fn lemma_kid_step(rs: Seq<RowV>, k: int, c: int)
    requires
        rows_ok(rs),
        0 <= k < rs.len(),
        0 <= c < rs.len(),
        shows_under(rs, c, Some(rs[k].id)),
    ensures
        row_up(rs, c, 1) == Some(k),
{
    assert(row_up(rs, c, 0) == Some(c));
    lemma_position_unique(rs, k);
}

/// A row at the top has nothing above it.
proof fn lemma_top_step(rs: Seq<RowV>, t: int)
    requires
        shows_under(rs, t, None),
    ensures
        row_up(rs, t, 1) is None,
{
    assert(row_up(rs, t, 0) == Some(t));
}

proof fn lemma_in_kid_seq(rs: Seq<RowV>, parent: Option<i64>, n: nat, c: int)
    requires
        0 <= c < n <= rs.len(),
        shows_under(rs, c, parent),
    ensures
        exists|i: int| 0 <= i < kid_seq(rs, parent, n).len() && #[trigger] kid_seq(rs, parent, n)[i] == c,
    decreases n,
{
    let cur = kid_seq(rs, parent, n);
    if c == n - 1 {
        assert(cur[cur.len() - 1] == c);
    } else {
        lemma_in_kid_seq(rs, parent, (n - 1) as nat, c);
        let prev = kid_seq(rs, parent, (n - 1) as nat);
        let i = choose|i: int| 0 <= i < prev.len() && #[trigger] prev[i] == c;
        assert(cur[i] == prev[i]);
    }
}

proof fn lemma_path_kids_len(rs: Seq<RowV>, pi: int, k: nat)
    requires
        rows_ok(rs),
        -1 <= pi < rs.len(),
        k <= kids_of(rs, pi).len(),
    ensures
        path_kids(rs, pi, k).len() == k,
    decreases k,
{
    if k > 0 {
        lemma_path_kids_len(rs, pi, (k - 1) as nat);
        lemma_kids_in_order(rs, pi);
    }
}

proof fn lemma_ids_prefix(ns: Seq<NodeV>, y: NodeV, id: i64, k: nat)
    requires
        k <= ns.len(),
    ensures
        ids_count(ns.push(y), id, k) == ids_count(ns, id, k),
    decreases k,
{
    if k > 0 {
        lemma_ids_prefix(ns, y, id, (k - 1) as nat);
        assert(ns.push(y)[k - 1] == ns[k - 1]);
    }
}

/// How many of the first `m` rows of `list` are at or above row `j`.
pub open spec fn row_hits(rs: Seq<RowV>, list: Seq<int>, j: int, m: nat) -> nat
    decreases m,
{
    if m == 0 || m > list.len() {
        0
    } else {
        row_hits(rs, list, j, (m - 1) as nat) + if above(rs, list[m - 1], j) {
            1nat
        } else {
            0nat
        }
    }
}

/// Among rows that all show under the same row (or all at the top), at most
/// one is at or above row `j`; one under `k` is so only when `k` is too, and
/// never when `k` is `j`.
proof fn lemma_row_hits_once(rs: Seq<RowV>, list: Seq<int>, j: int, m: nat, below: Option<int>)
    requires
        rows_ok(rs),
        parents_present(rs),
        0 <= j < rs.len(),
        m <= list.len(),
        forall|a: int, b: int| 0 <= a < b < list.len() ==> #[trigger] list[a] < #[trigger] list[b],
        forall|i: int|
            0 <= i < list.len() ==> 0 <= #[trigger] list[i] < rs.len() && row_up(rs, list[i], 1) == match below {
                Some(k) => Some(k),
                None => None::<int>,
            } && (below matches Some(k) ==> k < list[i]),
        below matches Some(k) ==> 0 <= k < rs.len(),
    ensures
        row_hits(rs, list, j, m) <= 1,
        row_hits(rs, list, j, m) == 1 ==> (below matches Some(k) ==> above(rs, k, j) && k != j),
    decreases m,
{
    if m > 0 {
        lemma_row_hits_once(rs, list, j, (m - 1) as nat, below);
        let c = list[m - 1];
        if above(rs, c, j) {
            let s1 = choose|s: nat| #[trigger] row_up(rs, j, s) == Some(c);
            lemma_row_compose(rs, j, s1, 1);
            match below {
                Some(k) => {
                    // `k` is above `j` too, and is not `j`: rows only go up
                    assert(row_up(rs, j, s1 + 1) == Some(k));
                    lemma_row_up_below(rs, j, s1 + 1);
                },
                None => {},
            }
            if row_hits(rs, list, j, (m - 1) as nat) == 1 {
                lemma_row_hits_witness(rs, list, j, (m - 1) as nat);
                let i = choose|i: int| 0 <= i < m - 1 && above(rs, #[trigger] list[i], j);
                let c0 = list[i];
                assert(c0 < c);
                let s0 = choose|s: nat| #[trigger] row_up(rs, j, s) == Some(c0);
                if s0 < s1 {
                    // from `c0` one step leads to the common parent (or the top),
                    // and from there only earlier rows are reached
                    let d = (s1 - s0) as nat;
                    lemma_row_compose(rs, j, s0, d);
                    assert(s0 + d == s1);
                    lemma_row_compose(rs, c0, 1, (d - 1) as nat);
                    assert(1 + (d - 1) as nat == d);
                    match below {
                        Some(k) => {
                            lemma_row_up_below(rs, k, (d - 1) as nat);
                        },
                        None => {},
                    }
                } else if s1 < s0 {
                    let d = (s0 - s1) as nat;
                    lemma_row_compose(rs, j, s1, d);
                    assert(s1 + d == s0);
                    lemma_row_compose(rs, c, 1, (d - 1) as nat);
                    assert(1 + (d - 1) as nat == d);
                    match below {
                        Some(k) => {
                            lemma_row_up_below(rs, k, (d - 1) as nat);
                        },
                        None => {},
                    }
                }
            }
        }
    }
}

proof fn lemma_row_hits_witness(rs: Seq<RowV>, list: Seq<int>, j: int, m: nat)
    requires
        m <= list.len(),
        row_hits(rs, list, j, m) >= 1,
    ensures
        exists|i: int| 0 <= i < m && above(rs, #[trigger] list[i], j),
    decreases m,
{
    if !above(rs, list[m - 1], j) {
        lemma_row_hits_witness(rs, list, j, (m - 1) as nat);
        let i = choose|i: int| 0 <= i < m - 1 && above(rs, #[trigger] list[i], j);
        assert(0 <= i < m && above(rs, list[i], j));
    } else {
        assert(above(rs, list[m - 1], j));
    }
}

pub open spec fn row_bound(rs: Seq<RowV>, i: int, j: int) -> nat {
    if above(rs, i, j) {
        1
    } else {
        0
    }
}

proof fn lemma_node_ids(rs: Seq<RowV>, i: int, j: int)
    requires
        rows_ok(rs),
        parents_present(rs),
        0 <= i < rs.len(),
        0 <= j < rs.len(),
    ensures
        id_count(path_node(rs, i), rs[j].id) <= row_bound(rs, i, j),
    decreases rs.len() - i, 1nat, 0nat,
{
    let kids = kids_of(rs, i);
    let node = path_node(rs, i);
    if node.path_ids == seq![rs[j].id] {
        assert(seq![rs[i].id][0] == seq![rs[j].id][0]);
        if i < j {
            assert(rs[i].id < rs[j].id);
        } else if j < i {
            assert(rs[j].id < rs[i].id);
        }
        assert(row_up(rs, j, 0) == Some(j));
    }
    lemma_kids_in_order(rs, i);
    lemma_kid_seq_facts(rs, Some(rs[i].id), rs.len());
    lemma_path_kids_len(rs, i, kids.len());
    lemma_path_list_ids(rs, i, j, kids.len());
    assert forall|m: int| 0 <= m < kids.len() implies 0 <= #[trigger] kids[m] < rs.len() && row_up(rs, kids[m], 1)
        == Some(i) && i < kids[m] by {
        lemma_kid_step(rs, i, kids[m]);
    }
    lemma_row_hits_once(rs, kids, j, kids.len(), Some(i));
}

proof fn lemma_path_list_ids(rs: Seq<RowV>, pi: int, j: int, k: nat)
    requires
        rows_ok(rs),
        parents_present(rs),
        -1 <= pi < rs.len(),
        0 <= j < rs.len(),
        k <= kids_of(rs, pi).len(),
    ensures
        ids_count(path_kids(rs, pi, k), rs[j].id, k) <= row_hits(rs, kids_of(rs, pi), j, k),
    decreases rs.len() - pi, 0nat, k,
{
    if k > 0 {
        lemma_path_list_ids(rs, pi, j, (k - 1) as nat);
        lemma_kids_in_order(rs, pi);
        lemma_path_kids_len(rs, pi, (k - 1) as nat);
        let ks = kids_of(rs, pi);
        let prev = path_kids(rs, pi, (k - 1) as nat);
        let node = path_node(rs, ks[k - 1]);
        lemma_node_ids(rs, ks[k - 1], j);
        lemma_ids_prefix(prev, node, rs[j].id, (k - 1) as nat);
        assert(path_kids(rs, pi, k) == prev.push(node));
        assert(prev.push(node)[k - 1] == node);
    }
}

proof fn lemma_path_list_covers(rs: Seq<RowV>, pi: int, k: nat, i: int, id: i64)
    requires
        rows_ok(rs),
        -1 <= pi < rs.len(),
        0 <= i < k <= kids_of(rs, pi).len(),
    ensures
        ids_count(path_kids(rs, pi, k), id, k) >= id_count(path_node(rs, kids_of(rs, pi)[i]), id),
    decreases k,
{
    lemma_kids_in_order(rs, pi);
    lemma_path_kids_len(rs, pi, (k - 1) as nat);
    let ks = kids_of(rs, pi);
    let prev = path_kids(rs, pi, (k - 1) as nat);
    let node = path_node(rs, ks[k - 1]);
    lemma_ids_prefix(prev, node, id, (k - 1) as nat);
    assert(path_kids(rs, pi, k) == prev.push(node));
    assert(prev.push(node)[k - 1] == node);
    if i < k - 1 {
        lemma_path_list_covers(rs, pi, (k - 1) as nat, i, id);
    }
}

/// Going up from row `j` ends at a row at the top.
proof fn lemma_find_row_top(rs: Seq<RowV>, j: int, s: nat) -> (t: nat)
    requires
        rows_ok(rs),
        parents_present(rs),
        0 <= j < rs.len(),
        row_up(rs, j, s) is Some,
    ensures
        t >= s,
        row_up(rs, j, t) is Some,
        eff_parent(rs, row_at(rs, j, t)) is None,
    decreases row_at(rs, j, s),
{
    lemma_row_up_below(rs, j, s);
    let c = row_at(rs, j, s);
    lemma_row_compose(rs, j, s, 1);
    assert(row_up(rs, c, 0) == Some(c));
    lemma_step_down(rs, c);
    lemma_eff_present(rs, c);
    if row_up(rs, j, s + 1) is None {
        s
    } else {
        lemma_find_row_top(rs, j, s + 1)
    }
}

/// From the top down along the rows above `j`, the subtree of each holds
/// the node of `j`.
proof fn lemma_path_descend(rs: Seq<RowV>, j: int, s: nat, d: nat)
    requires
        rows_ok(rs),
        parents_present(rs),
        0 <= j < rs.len(),
        !collapses(rs, j),
        d <= s,
        row_up(rs, j, s) is Some,
    ensures
        id_count(path_node(rs, row_at(rs, j, d)), rs[j].id) >= 1,
    decreases d,
{
    if row_up(rs, j, d) is None {
        lemma_row_none_stays(rs, j, d, s);
    }
    if d == 0 {
        assert(row_up(rs, j, 0) == Some(j));
    } else {
        let k = row_at(rs, j, d);
        if row_up(rs, j, (d - 1) as nat) is None {
            lemma_row_none_stays(rs, j, (d - 1) as nat, s);
        }
        let c = row_at(rs, j, (d - 1) as nat);
        lemma_row_up_below(rs, j, d);
        lemma_row_up_below(rs, j, (d - 1) as nat);
        lemma_row_compose(rs, j, (d - 1) as nat, 1);
        assert((d - 1) as nat + 1 == d);
        lemma_step_down(rs, c);
        assert(row_up(rs, c, 1) == Some(k));
        if d == 1 {
            assert(row_up(rs, j, 0) == Some(j));
        }
        assert(!collapses(rs, c));
        assert(shows_under(rs, c, Some(rs[k].id)));
        lemma_in_kid_seq(rs, Some(rs[k].id), rs.len(), c);
        let ks = kids_of(rs, k);
        let i = choose|i: int| 0 <= i < ks.len() && #[trigger] ks[i] == c;
        lemma_path_kids_len(rs, k, ks.len());
        lemma_path_list_covers(rs, k, ks.len(), i, rs[j].id);
        lemma_path_descend(rs, j, s, (d - 1) as nat);
    }
}

/// In the `byPath` tree every path that is not folded away shows on exactly
/// one node, its own, however often its key's name repeats elsewhere. This
/// holds of tables whose ids increase and whose parents are rows.
pub proof fn lemma_every_path_once(rs: Seq<RowV>, j: int)
    requires
        rows_ok(rs),
        parents_present(rs),
        0 <= j < rs.len(),
        !collapses(rs, j),
    ensures
        ids_count(path_kids(rs, -1, kids_of(rs, -1).len()), rs[j].id, path_kids(rs, -1, kids_of(rs, -1).len()).len())
            == 1,
{
    let top = kids_of(rs, -1);
    lemma_path_kids_len(rs, -1, top.len());
    lemma_kid_seq_facts(rs, None, rs.len());
    // at most once
    lemma_path_list_ids(rs, -1, j, top.len());
    assert forall|m: int| 0 <= m < top.len() implies 0 <= #[trigger] top[m] < rs.len() && row_up(rs, top[m], 1)
        == None::<int> by {
        lemma_top_step(rs, top[m]);
    }
    lemma_row_hits_once(rs, top, j, top.len(), None);
    // at least once
    assert(row_up(rs, j, 0) == Some(j));
    let s = lemma_find_row_top(rs, j, 0);
    lemma_row_up_below(rs, j, s);
    let t = row_at(rs, j, s);
    assert(!collapses(rs, t));
    assert(shows_under(rs, t, None));
    lemma_in_kid_seq(rs, None, rs.len(), t);
    let pos = choose|p: int| 0 <= p < top.len() && #[trigger] top[p] == t;
    lemma_path_descend(rs, j, s, s);
    lemma_path_list_covers(rs, -1, top.len(), pos, rs[j].id);
}

} // verus!
