//! What the structure trees and their report promise, whatever the rows:
//! a row that holds scalar values is never folded away, a `byName` node
//! carries every type seen at any of its merged paths, and a node's report
//! line lists all of its types.

use vstd::prelude::*;

use crate::db::{mask_labels, type_bit, type_label, M_BOOL, M_NULL, M_NUM, M_STR};
use crate::groups::{
    final_parents, group_name, groups_upto, has_group, has_vote, lemma_vote_added_distinct, name_node, parent_name,
    row_added, shape_groups, vote_added, vote_weight, votes_distinct, GroupV,
};
use crate::model::NodeV;
use crate::tree::{
    collapses, eff_parent, has_child, has_id, joined, kid_seq, node_line, position_of, rows_ok, shows_under,
    usize_seq_view, RowV, Shape,
};

verus! {

/// The values of a row include a scalar: null, bool, number or string.
pub open spec fn holds_scalar(mask: i64) -> bool {
    mask & M_NULL != 0 || mask & M_BOOL != 0 || mask & M_NUM != 0 || mask & M_STR != 0
}

/// A row shown under `parent` is listed among the first `n` rows shown
/// there when it comes before `n`.
proof fn lemma_kid_seq_has(rs: Seq<RowV>, parent: Option<i64>, n: nat, j: int)
    requires
        0 <= j < n,
        shows_under(rs, j, parent),
    ensures
        kid_seq(rs, parent, n).contains(j),
    decreases n,
{
    let cur = kid_seq(rs, parent, n);
    if j == n - 1 {
        assert(cur[cur.len() - 1] == j);
    } else {
        lemma_kid_seq_has(rs, parent, (n - 1) as nat, j);
        let prev = kid_seq(rs, parent, (n - 1) as nat);
        let k = choose|k: int| 0 <= k < prev.len() && prev[k] == j;
        if shows_under(rs, n - 1, parent) {
            assert(cur[k] == prev[k]);
        }
    }
}

/// Law: a `[]` row is folded away exactly when it has children and none of
/// its values is a null, a boolean, a number or a string; no other row is
/// ever folded.
pub proof fn lemma_fold_rule(rs: Seq<RowV>, i: int)
    requires
        0 <= i < rs.len(),
    ensures
        collapses(rs, i) <==> (rs[i].key == "[]"@ && has_child(rs, rs[i].id) && rs[i].mask & M_NULL == 0
            && rs[i].mask & M_BOOL == 0 && rs[i].mask & M_NUM == 0 && rs[i].mask & M_STR == 0),
{
    let m = rs[i].mask;
    assert((m & (1i64 | 2i64 | 4i64 | 8i64) == 0) <==> (m & 1 == 0 && m & 2 == 0 && m & 4 == 0 && m & 8 == 0))
        by (bit_vector);
}

/// Law: a row whose values include a scalar is never folded away; it is
/// listed in the `byPath` tree under its parent after folding (or at the
/// top), so its null, boolean, number and string values stay reachable.
pub proof fn lemma_scalar_rows_kept(rs: Seq<RowV>, i: int)
    requires
        0 <= i < rs.len(),
        holds_scalar(rs[i].mask),
    ensures
        !collapses(rs, i),
        kid_seq(rs, eff_parent(rs, i), rs.len()).contains(i),
{
    lemma_fold_rule(rs, i);
    lemma_kid_seq_has(rs, eff_parent(rs, i), rs.len(), i);
}

/// Law: in the shape that `shape` builds, a row holding scalar values is
/// not folded and is listed among the children of its parent after folding,
/// or among the top rows when it has none.
pub proof fn lemma_shape_keeps_scalar_rows(sh: Shape, i: int)
    requires
        sh.wf(),
        crate::groups::parents_present(sh.rs()),
        0 <= i < sh.rs().len(),
        holds_scalar(sh.rs()[i].mask),
    ensures
        !sh.collapsed@[i],
        sh.eff@[i] is None ==> usize_seq_view(sh.roots@).contains(i),
        sh.eff@[i] matches Some(p) ==> exists|q: int|
            0 <= q < sh.rs().len() && sh.rs()[q].id == p && usize_seq_view(#[trigger] sh.kids@[q]@).contains(i),
{
    let rs = sh.rs();
    lemma_scalar_rows_kept(rs, i);
    match eff_parent(rs, i) {
        None => {},
        Some(p) => {
            crate::tree::lemma_eff_present(rs, i);
            let q = position_of(rs, p);
            crate::tree::lemma_position_unique(rs, q);
            assert(usize_seq_view(sh.kids@[q]@) == kid_seq(rs, Some(rs[q].id), rs.len()));
        },
    }
}

/// Law: folding moves the children of a folded `[]` row up to where that
/// row itself hangs after folding, and nothing else: a row whose parent is
/// not folded keeps it, a row with no parent stays at the top, and the
/// parent after folding is always a row that is not folded away.
pub proof fn lemma_fold_moves_up(rs: Seq<RowV>, i: int)
    requires
        rows_ok(rs),
        crate::groups::parents_present(rs),
        0 <= i < rs.len(),
    ensures
        rs[i].parent is None ==> eff_parent(rs, i) is None,
        rs[i].parent matches Some(q) ==> (!collapses(rs, position_of(rs, q)) ==> eff_parent(rs, i) == Some(q)),
        rs[i].parent matches Some(q) ==> (collapses(rs, position_of(rs, q)) ==> eff_parent(rs, i) == eff_parent(
            rs,
            position_of(rs, q),
        )),
        eff_parent(rs, i) matches Some(e) ==> has_id(rs, e) && !collapses(rs, position_of(rs, e)),
{
    crate::name_keys::lemma_eff_up_shown(rs, rs[i].parent);
    match rs[i].parent {
        None => {},
        Some(q) => {
            assert(has_id(rs, q));
            let pq = position_of(rs, q);
            assert(rs[pq].id == q);
            assert(crate::tree::collapsed_id(rs, q) == collapses(rs, pq));
            if collapses(rs, pq) {
                match rs[pq].parent {
                    Some(r) => {
                        assert(r < rs[pq].id);
                    },
                    None => {},
                }
            }
        },
    }
}

/// No two groups share a name.
pub open spec fn names_unique(gs: Seq<GroupV>) -> bool {
    forall|a: int, b: int|
        0 <= a < gs.len() && 0 <= b < gs.len() && #[trigger] gs[a].name == #[trigger] gs[b].name ==> a == b
}

/// Row `i`, among the first `n`, is merged into the group named `name`.
pub open spec fn merged_into(rs: Seq<RowV>, n: nat, i: int, name: Seq<char>) -> bool {
    0 <= i < n && !collapses(rs, i) && group_name(rs, i) == name
}

/// Mask `m` holds every type bit of every row, among the first `n`, merged
/// into the group named `name`.
pub open spec fn covers_rows(rs: Seq<RowV>, n: nat, name: Seq<char>, m: i64) -> bool {
    forall|i: int| #[trigger] merged_into(rs, n, i, name) ==> rs[i].mask & m == rs[i].mask
}

/// Law: the type mask of a `byName` group is the bitwise OR of the masks of
/// the rows merged into it. Every row that stays in the tree has a group of
/// its name; that group's mask holds every type bit of the row; and any
/// mask that holds the bits of all of the group's rows holds all of the
/// group's bits.
pub proof fn lemma_group_mask_union(rs: Seq<RowV>, n: nat)
    requires
        n <= rs.len(),
    ensures
        names_unique(groups_upto(rs, n)),
        forall|i: int| 0 <= i < n && !collapses(rs, i) ==> has_group(groups_upto(rs, n), #[trigger] group_name(rs, i)),
        forall|i: int, k: int|
            0 <= k < groups_upto(rs, n).len() && #[trigger] merged_into(rs, n, i, groups_upto(rs, n)[k].name)
                ==> groups_upto(rs, n)[k].mask & rs[i].mask == rs[i].mask,
        forall|k: int, m: i64|
            0 <= k < groups_upto(rs, n).len() && covers_rows(rs, n, groups_upto(rs, n)[k].name, m)
                ==> #[trigger] (groups_upto(rs, n)[k].mask & m) == groups_upto(rs, n)[k].mask,
    decreases n,
{
    if n > 0 {
        let p = (n - 1) as nat;
        lemma_group_mask_union(rs, p);
        let gs = groups_upto(rs, p);
        let next = groups_upto(rs, n);
        let j = n - 1;
        assert forall|i: int, name: Seq<char>| #[trigger] merged_into(rs, n, i, name) && i != j implies merged_into(
            rs,
            p,
            i,
            name,
        ) by {}
        if collapses(rs, j) {
            assert(next == gs);
            assert forall|i: int, name: Seq<char>| #[trigger] merged_into(rs, n, i, name) implies merged_into(
                rs,
                p,
                i,
                name,
            ) by {}
            assert forall|k: int, m: i64|
                0 <= k < next.len() && covers_rows(rs, n, next[k].name, m) implies #[trigger] (next[k].mask & m) == next[k].mask by {
                assert forall|i: int| #[trigger] merged_into(rs, p, i, gs[k].name) implies rs[i].mask & m == rs[i].mask by {
                    assert(merged_into(rs, n, i, next[k].name));
                }
            }
        } else {
            let name = group_name(rs, j);
            let r = rs[j].mask;
            assert(next == row_added(gs, rs, j));
            if has_group(gs, name) {
                let c = crate::groups::group_index(gs, name);
                assert(gs[c].name == name);
                let g = gs[c].mask;
                assert(next.len() == gs.len());
                assert(next[c].mask == g | r);
                assert(next[c].name == name);
                assert forall|k: int| 0 <= k < next.len() && k != c implies #[trigger] next[k] == gs[k] by {}
                assert forall|k: int| 0 <= k < next.len() implies (#[trigger] next[k]).name == gs[k].name by {
                    if k != c {
                        assert(next[k] == gs[k]);
                    }
                }
                assert forall|a: int, b: int|
                    0 <= a < next.len() && 0 <= b < next.len() && #[trigger] next[a].name == #[trigger] next[b].name implies a
                    == b by {
                    assert(gs[a].name == next[a].name);
                    assert(gs[b].name == next[b].name);
                }
                assert forall|i: int| 0 <= i < n && !collapses(rs, i) implies has_group(
                    next,
                    #[trigger] group_name(rs, i),
                ) by {
                    if i == j {
                        assert(next[c].name == name);
                    } else {
                        assert(has_group(gs, group_name(rs, i)));
                        let w = choose|w: int| 0 <= w < gs.len() && #[trigger] gs[w].name == group_name(rs, i);
                        assert(next[w].name == gs[w].name);
                    }
                }
                assert forall|i: int, k: int|
                    0 <= k < next.len() && #[trigger] merged_into(rs, n, i, next[k].name) implies next[k].mask
                    & rs[i].mask == rs[i].mask by {
                    let x = rs[i].mask;
                    if i == j {
                        assert(next[k].name == next[c].name);
                        assert(k == c);
                        assert((g | r) & r == r) by (bit_vector);
                    } else {
                        assert(next[k].name == gs[k].name);
                        assert(merged_into(rs, p, i, gs[k].name));
                        assert(gs[k].mask & x == x);
                        if k == c {
                            assert(g & x == x ==> (g | r) & x == x) by (bit_vector);
                        }
                    }
                }
                assert forall|k: int, m: i64|
                    0 <= k < next.len() && covers_rows(rs, n, next[k].name, m) implies #[trigger] (next[k].mask & m) == next[k].mask by {
                    assert(next[k].name == gs[k].name);
                    assert forall|i: int| #[trigger] merged_into(rs, p, i, gs[k].name) implies rs[i].mask & m
                        == rs[i].mask by {
                        assert(merged_into(rs, n, i, next[k].name));
                    }
                    assert(gs[k].mask & m == gs[k].mask);
                    if k == c {
                        assert(merged_into(rs, n, j, next[k].name));
                        assert(r & m == r);
                        assert((g & m == g && r & m == r) ==> (g | r) & m == g | r) by (bit_vector);
                    }
                }
            } else {
                let z = gs.len() as int;
                assert(next.len() == z + 1);
                assert(next[z].mask == 0 | r);
                assert(next[z].name == name);
                assert forall|k: int| 0 <= k < z implies #[trigger] next[k] == gs[k] by {}
                assert forall|a: int, b: int|
                    0 <= a < next.len() && 0 <= b < next.len() && #[trigger] next[a].name == #[trigger] next[b].name implies a
                    == b by {
                    if a < z && b < z {
                        assert(gs[a].name == next[a].name);
                        assert(gs[b].name == next[b].name);
                    } else if a < z {
                        assert(gs[a].name == name);
                    } else if b < z {
                        assert(gs[b].name == name);
                    }
                }
                assert forall|i: int| 0 <= i < n && !collapses(rs, i) implies has_group(
                    next,
                    #[trigger] group_name(rs, i),
                ) by {
                    if i == j {
                        assert(next[z].name == name);
                    } else {
                        assert(has_group(gs, group_name(rs, i)));
                        let w = choose|w: int| 0 <= w < gs.len() && #[trigger] gs[w].name == group_name(rs, i);
                        assert(next[w] == gs[w]);
                    }
                }
                assert forall|i: int, k: int|
                    0 <= k < next.len() && #[trigger] merged_into(rs, n, i, next[k].name) implies next[k].mask
                    & rs[i].mask == rs[i].mask by {
                    let x = rs[i].mask;
                    if k == z {
                        if i != j {
                            assert(has_group(gs, group_name(rs, i)));
                            let w = choose|w: int| 0 <= w < gs.len() && #[trigger] gs[w].name == group_name(rs, i);
                            assert(gs[w].name == name);
                            assert(has_group(gs, name));
                        }
                        assert((0 | r) & r == r) by (bit_vector);
                    } else {
                        assert(next[k] == gs[k]);
                        if i == j {
                            assert(gs[k].name == name);
                            assert(has_group(gs, name));
                        }
                        assert(merged_into(rs, p, i, gs[k].name));
                    }
                }
                assert forall|k: int, m: i64|
                    0 <= k < next.len() && covers_rows(rs, n, next[k].name, m) implies #[trigger] (next[k].mask & m) == next[k].mask by {
                    if k == z {
                        assert(merged_into(rs, n, j, next[k].name));
                        assert(r & m == r);
                        assert(r & m == r ==> (0 | r) & m == 0 | r) by (bit_vector);
                    } else {
                        assert(next[k] == gs[k]);
                        assert forall|i: int| #[trigger] merged_into(rs, p, i, gs[k].name) implies rs[i].mask & m
                            == rs[i].mask by {
                            assert(merged_into(rs, n, i, next[k].name));
                        }
                        assert(gs[k].mask & m == gs[k].mask);
                    }
                }
            }
        }
    }
}

/// A mask that has the bit of type `t` lists that type's label.
proof fn lemma_label_listed(a: i64, t: int)
    requires
        0 <= t <= 5,
        a & type_bit(t) != 0,
    ensures
        mask_labels(a).contains(type_label(t as i64)),
{
    let l0 = crate::db::bit_label(a, M_NULL, "null"@);
    let l1 = crate::db::bit_label(a, M_BOOL, "bool"@);
    let l2 = crate::db::bit_label(a, M_NUM, "number"@);
    let l3 = crate::db::bit_label(a, M_STR, "string"@);
    let l4 = crate::db::bit_label(a, crate::db::M_OBJ, "object"@);
    let l5 = crate::db::bit_label(a, crate::db::M_ARR, "array"@);
    let s = mask_labels(a);
    assert(s == l0 + l1 + l2 + l3 + l4 + l5);
    if t == 0 {
        assert(s[0] == l0[0]);
    } else if t == 1 {
        assert(s[l0.len() as int] == l1[0]);
    } else if t == 2 {
        assert(s[(l0.len() + l1.len()) as int] == l2[0]);
    } else if t == 3 {
        assert(s[(l0.len() + l1.len() + l2.len()) as int] == l3[0]);
    } else if t == 4 {
        assert(s[(l0.len() + l1.len() + l2.len() + l3.len()) as int] == l4[0]);
    } else {
        assert(s[(l0.len() + l1.len() + l2.len() + l3.len() + l4.len()) as int] == l5[0]);
    }
}

/// Law: the `byName` node of a group lists, among its types, every type of
/// every row merged into the group, wherever the node hangs: a key that is
/// a number at one path and a string at another shows both types.
pub proof fn lemma_name_node_types(rs: Seq<RowV>, i: int, k: int, guard: Seq<int>, t: int)
    requires
        0 <= i < rs.len(),
        !collapses(rs, i),
        0 <= k < shape_groups(rs).len(),
        shape_groups(rs)[k].name == group_name(rs, i),
        0 <= t <= 5,
        rs[i].mask & type_bit(t) != 0,
    ensures
        name_node(shape_groups(rs), final_parents(shape_groups(rs)), k, guard).types.contains(type_label(t as i64)),
{
    let gs = shape_groups(rs);
    lemma_group_mask_union(rs, rs.len());
    assert(merged_into(rs, rs.len(), i, gs[k].name));
    let g = gs[k].mask;
    let r = rs[i].mask;
    let b = type_bit(t);
    assert(g & r == r);
    assert((g & r == r && r & b != 0) ==> g & b != 0) by (bit_vector);
    lemma_label_listed(g, t);
}

/// `piece` is written somewhere in `text`.
pub open spec fn occurs_in(piece: Seq<char>, text: Seq<char>) -> bool {
    exists|o: int| 0 <= o && o + piece.len() <= text.len() && #[trigger] text.subrange(o, o + piece.len()) == piece
}

/// The types after the first, each preceded by ` | `.
pub open spec fn each_after_bar(ts: Seq<Seq<char>>) -> Seq<char>
    decreases ts.len(),
{
    if ts.len() == 0 {
        Seq::empty()
    } else {
        " | "@ + ts[0] + each_after_bar(ts.skip(1))
    }
}

/// The types written one after another, separated by ` | `.
pub open spec fn types_text(ts: Seq<Seq<char>>) -> Seq<char> {
    if ts.len() == 0 {
        Seq::empty()
    } else {
        ts[0] + each_after_bar(ts.skip(1))
    }
}

proof fn lemma_each_after_bar_push(ts: Seq<Seq<char>>, x: Seq<char>)
    ensures
        each_after_bar(ts.push(x)) == each_after_bar(ts) + " | "@ + x,
    decreases ts.len(),
{
    if ts.len() == 0 {
        assert(ts.push(x).skip(1) =~= Seq::<Seq<char>>::empty());
        assert(ts.push(x)[0] == x);
        assert(each_after_bar(ts.push(x).skip(1)) =~= Seq::<char>::empty());
        assert(each_after_bar(ts) =~= Seq::<char>::empty());
        assert(each_after_bar(ts.push(x)) =~= " | "@ + x);
    } else {
        assert(ts.push(x).skip(1) =~= ts.skip(1).push(x));
        lemma_each_after_bar_push(ts.skip(1), x);
        assert(ts.push(x)[0] == ts[0]);
        assert(each_after_bar(ts.push(x)) =~= each_after_bar(ts) + " | "@ + x);
    }
}

proof fn lemma_joined_is_types_text(ts: Seq<Seq<char>>)
    ensures
        joined(ts, " | "@) == types_text(ts),
    decreases ts.len(),
{
    if ts.len() == 1 {
        assert(ts.skip(1) =~= Seq::<Seq<char>>::empty());
        assert(types_text(ts) =~= ts[0]);
    } else if ts.len() > 1 {
        let d = ts.drop_last();
        lemma_joined_is_types_text(d);
        assert(ts.skip(1) =~= d.skip(1).push(ts.last()));
        lemma_each_after_bar_push(d.skip(1), ts.last());
        assert(d[0] == ts[0]);
        assert(types_text(ts) =~= types_text(d) + " | "@ + ts.last());
    }
}

/// Every type of the list is written in its text.
proof fn lemma_types_text_has(ts: Seq<Seq<char>>, i: int)
    requires
        0 <= i < ts.len(),
    ensures
        occurs_in(ts[i], types_text(ts)),
    decreases ts.len(),
{
    let tt = types_text(ts);
    if i == 0 {
        assert(ts.skip(1).len() >= 0);
        assert(tt == ts[0] + each_after_bar(ts.skip(1)));
        assert(ts[0].len() <= tt.len());
        assert(tt.subrange(0, ts[0].len() as int) =~= ts[0]);
        assert(tt.subrange(0int, 0int + ts[i].len()) == ts[i]);
    } else {
        let rest = ts.skip(1);
        lemma_types_text_has(rest, i - 1);
        assert(rest[i - 1] == ts[i]);
        let rt = types_text(rest);
        assert(occurs_in(rest[i - 1], rt));
        let o = choose|o: int|
            0 <= o && o + rest[i - 1].len() <= rt.len() && #[trigger] rt.subrange(o, o + rest[i - 1].len())
                == rest[i - 1];
        // each_after_bar(rest) is " | " followed by the text of `rest`
        assert(rest.skip(1) =~= ts.skip(1).skip(1));
        assert(each_after_bar(rest) =~= " | "@ + rt);
        assert(tt =~= ts[0] + (" | "@ + rt));
        let o2 = ts[0].len() + " | "@.len() + o;
        assert(tt.subrange(o2, o2 + ts[i].len()) =~= rt.subrange(o, o + ts[i].len()));
        assert(o2 + ts[i].len() <= tt.len());
        assert(tt.subrange(o2, o2 + ts[i].len()) == ts[i]);
    }
}

/// Law: the report line of a node that is not an array and has types
/// writes, right after the key, all of the node's types separated by
/// ` | ` and closed by a backquote; so each of the node's types appears in
/// its line.
pub proof fn lemma_line_lists_types(n: NodeV, pad: Seq<char>)
    requires
        !n.is_array,
        n.types.len() > 0,
    ensures
        ({
            let head = pad + "- **"@ + n.key + "** — `"@;
            let tt = types_text(n.types);
            &&& node_line(n, pad).subrange(head.len() as int, (head.len() + tt.len()) as int) == tt
            &&& node_line(n, pad)[(head.len() + tt.len()) as int] == '`'
        }),
        forall|i: int| 0 <= i < n.types.len() ==> occurs_in(#[trigger] n.types[i], node_line(n, pad)),
{
    let head = pad + "- **"@ + n.key + "** — `"@;
    let tt = types_text(n.types);
    lemma_joined_is_types_text(n.types);
    assert(crate::tree::kind_label(n) == tt);
    let line = node_line(n, pad);
    reveal_strlit("` · ");
    assert(line =~= head + tt + ("` · "@ + crate::text::grouped_int(n.count as int) + (if n.paths.len() > 1 {
        " · путей: "@ + crate::text::decimal(n.paths.len())
    } else {
        Seq::empty()
    }) + (if n.non_empty == 0 {
        " · пусто"@
    } else {
        Seq::empty()
    }) + "\n"@));
    assert(line.subrange(head.len() as int, (head.len() + tt.len()) as int) =~= tt);
    assert(line[(head.len() + tt.len()) as int] == '`');
    assert forall|i: int| 0 <= i < n.types.len() implies occurs_in(#[trigger] n.types[i], node_line(n, pad)) by {
        lemma_types_text_has(n.types, i);
        assert(occurs_in(n.types[i], tt));
        let o = choose|o: int|
            0 <= o && o + n.types[i].len() <= tt.len() && #[trigger] tt.subrange(o, o + n.types[i].len()) == n.types[i];
        let o2 = head.len() + o;
        assert(line.subrange(o2, o2 + n.types[i].len()) =~= tt.subrange(o, o + n.types[i].len()));
        assert(o2 + n.types[i].len() <= line.len());
        assert(node_line(n, pad).subrange(o2, o2 + n.types[i].len()) == n.types[i]);
    }
}

/// Law: the report line of a node starts with its indent, a list bullet
/// and its key in bold; an array reads `массив` and a node with no types
/// reads `объект` in the type part; and a node none of whose values is
/// non-empty ends its line with the empty mark.
pub proof fn lemma_line_shape(n: NodeV, pad: Seq<char>)
    ensures
        ({
            let head = pad + "- **"@ + n.key + "** — `"@;
            let line = node_line(n, pad);
            &&& line.take(head.len() as int) == head
            &&& n.is_array ==> line.subrange(head.len() as int, (head.len() + "массив"@.len()) as int) == "массив"@
            &&& !n.is_array && n.types.len() == 0 ==> line.subrange(head.len() as int, (head.len() + "объект"@.len()) as int)
                == "объект"@
            &&& line.len() > 0 && line.last() == '\n'
            &&& n.non_empty == 0 ==> line.len() >= " · пусто\n"@.len() && line.subrange(
                line.len() - " · пусто\n"@.len(),
                line.len() as int,
            ) == " · пусто\n"@
        }),
{
    let head = pad + "- **"@ + n.key + "** — `"@;
    let line = node_line(n, pad);
    let kind = crate::tree::kind_label(n);
    let mid = "` · "@ + crate::text::grouped_int(n.count as int) + (if n.paths.len() > 1 {
        " · путей: "@ + crate::text::decimal(n.paths.len())
    } else {
        Seq::empty()
    });
    let mark: Seq<char> = if n.non_empty == 0 {
        " · пусто"@
    } else {
        Seq::empty()
    };
    assert(line =~= head + kind + mid + mark + "\n"@);
    assert(line.take(head.len() as int) =~= head);
    if n.is_array {
        assert(line.subrange(head.len() as int, (head.len() + "массив"@.len()) as int) =~= kind);
    }
    if !n.is_array && n.types.len() == 0 {
        assert(line.subrange(head.len() as int, (head.len() + "объект"@.len()) as int) =~= kind);
    }
    reveal_strlit("\n");
    assert(line.last() == '\n');
    if n.non_empty == 0 {
        reveal_strlit(" · пусто\n");
        reveal_strlit(" · пусто");
        assert(" · пусто\n"@ =~= " · пусто"@ + "\n"@);
        assert(line.subrange(line.len() - " · пусто\n"@.len(), line.len() as int) =~= " · пусто\n"@);
    }
}

/// Law: after the type part, a node's report line gives its count with the
/// digits grouped, and that text reads back as the count once the group
/// separators are taken out; a node merged from several paths then gives
/// their number; a node from one path that holds some non-empty value
/// ends its line right after the count.
pub proof fn lemma_line_count(n: NodeV, pad: Seq<char>)
    ensures
        ({
            let line = node_line(n, pad);
            let o = (pad + "- **"@ + n.key + "** — `"@ + crate::tree::kind_label(n) + "` · "@).len() as int;
            let c = crate::text::grouped_int(n.count as int);
            let more = " · путей: "@ + crate::text::decimal(n.paths.len());
            &&& line.subrange(o, o + c.len()) == c
            &&& crate::text::without_spaces(c) == crate::text::signed_decimal(n.count as int)
            &&& n.paths.len() > 1 ==> line.subrange(o + c.len(), o + c.len() + more.len()) == more
            &&& n.paths.len() <= 1 && n.non_empty != 0 ==> line.len() == o + c.len() + 1
        }),
{
    let head = pad + "- **"@ + n.key + "** — `"@ + crate::tree::kind_label(n) + "` · "@;
    let line = node_line(n, pad);
    let o = head.len() as int;
    let c = crate::text::grouped_int(n.count as int);
    let more = " · путей: "@ + crate::text::decimal(n.paths.len());
    let p: Seq<char> = if n.paths.len() > 1 {
        more
    } else {
        Seq::empty()
    };
    let e: Seq<char> = if n.non_empty == 0 {
        " · пусто"@
    } else {
        Seq::empty()
    };
    assert(line =~= head + c + p + e + "\n"@);
    assert(line.subrange(o, o + c.len()) =~= c);
    if n.paths.len() > 1 {
        assert(line.subrange(o + c.len(), o + c.len() + more.len()) =~= more);
    }
    reveal_strlit("\n");
    crate::text::lemma_grouped_round_trip(n.count as int);
}

/// Row `i` stays in the tree and is merged into the group named `name`.
pub open spec fn joins(rs: Seq<RowV>, i: int, name: Seq<char>) -> bool {
    !collapses(rs, i) && group_name(rs, i) == name
}

/// The positions, below `n`, of the rows merged into the group named
/// `name`, in increasing order.
pub open spec fn merged_rows(rs: Seq<RowV>, n: nat, name: Seq<char>) -> Seq<int>
    decreases n,
{
    if n == 0 {
        Seq::empty()
    } else {
        let prev = merged_rows(rs, (n - 1) as nat, name);
        if joins(rs, n - 1, name) {
            prev.push(n - 1)
        } else {
            prev
        }
    }
}

/// The sum of the counts of the rows at positions `ps`.
pub open spec fn cnt_sum(rs: Seq<RowV>, ps: Seq<int>) -> int
    decreases ps.len(),
{
    if ps.len() == 0 {
        0
    } else {
        cnt_sum(rs, ps.drop_last()) + rs[ps.last()].cnt
    }
}

/// The sum of the non-empty counts of the rows at positions `ps`.
pub open spec fn nonempty_sum(rs: Seq<RowV>, ps: Seq<int>) -> int
    decreases ps.len(),
{
    if ps.len() == 0 {
        0
    } else {
        nonempty_sum(rs, ps.drop_last()) + rs[ps.last()].nonempty
    }
}

/// Some row at positions `ps` is an array.
pub open spec fn any_array(rs: Seq<RowV>, ps: Seq<int>) -> bool {
    exists|k: int| 0 <= k < ps.len() && #[trigger] rs[ps[k]].is_array
}

proof fn lemma_merged_rows_facts(rs: Seq<RowV>, n: nat, name: Seq<char>)
    ensures
        forall|k: int|
            0 <= k < merged_rows(rs, n, name).len() ==> 0 <= #[trigger] merged_rows(rs, n, name)[k] < n && joins(
                rs,
                merged_rows(rs, n, name)[k],
                name,
            ),
    decreases n,
{
    if n > 0 {
        lemma_merged_rows_facts(rs, (n - 1) as nat, name);
        let prev = merged_rows(rs, (n - 1) as nat, name);
        let cur = merged_rows(rs, n, name);
        assert forall|k: int| 0 <= k < cur.len() implies 0 <= #[trigger] cur[k] < n && joins(rs, cur[k], name) by {
            if k < prev.len() {
                assert(cur[k] == prev[k]);
            }
        }
    }
}

/// Law: a `byName` group merges its rows field by field. Its ids and paths
/// are those of the rows merged into it, in increasing order of position;
/// its count and non-empty count are the sums of theirs; it is an array
/// when one of them is; and every name of a row that stays in the tree has
/// exactly one group.
pub proof fn lemma_group_is_merge(rs: Seq<RowV>, n: nat)
    requires
        n <= rs.len(),
    ensures
        names_unique(groups_upto(rs, n)),
        forall|i: int| 0 <= i < n && !collapses(rs, i) ==> has_group(groups_upto(rs, n), #[trigger] group_name(rs, i)),
        forall|k: int|
            0 <= k < groups_upto(rs, n).len() ==> {
                let g = #[trigger] groups_upto(rs, n)[k];
                let ps = merged_rows(rs, n, g.name);
                &&& g.ids == ps.map_values(|i: int| rs[i].id)
                &&& g.paths == ps.map_values(|i: int| rs[i].path)
                &&& g.cnt == cnt_sum(rs, ps)
                &&& g.nonempty == nonempty_sum(rs, ps)
                &&& g.is_array == any_array(rs, ps)
            },
    decreases n,
{
    lemma_group_mask_union(rs, n);
    if n > 0 {
        let p = (n - 1) as nat;
        lemma_group_is_merge(rs, p);
        lemma_group_mask_union(rs, p);
        let gs = groups_upto(rs, p);
        let next = groups_upto(rs, n);
        let j = n - 1;
        if collapses(rs, j) {
            assert(next == gs);
            assert forall|k: int| 0 <= k < next.len() implies #[trigger] merged_rows(rs, n, next[k].name) == merged_rows(
                rs,
                p,
                next[k].name,
            ) by {}
        } else {
            let name = group_name(rs, j);
            let r = rs[j];
            assert(next == row_added(gs, rs, j));
            assert forall|nm: Seq<char>| nm != name implies #[trigger] merged_rows(rs, n, nm) == merged_rows(rs, p, nm) by {}
            assert(merged_rows(rs, n, name) == merged_rows(rs, p, name).push(j));
            if has_group(gs, name) {
                let c = crate::groups::group_index(gs, name);
                assert(gs[c].name == name);
                assert forall|k: int| 0 <= k < next.len() implies ({
                    let g = #[trigger] next[k];
                    let ps = merged_rows(rs, n, g.name);
                    &&& g.ids == ps.map_values(|i: int| rs[i].id)
                    &&& g.paths == ps.map_values(|i: int| rs[i].path)
                    &&& g.cnt == cnt_sum(rs, ps)
                    &&& g.nonempty == nonempty_sum(rs, ps)
                    &&& g.is_array == any_array(rs, ps)
                }) by {
                    if k == c {
                        let q = merged_rows(rs, p, name);
                        let ps = q.push(j);
                        assert(ps.drop_last() == q);
                        assert(ps.map_values(|i: int| rs[i].id) =~= q.map_values(|i: int| rs[i].id).push(r.id));
                        assert(ps.map_values(|i: int| rs[i].path) =~= q.map_values(|i: int| rs[i].path).push(r.path));
                        assert(gs[c].is_array == any_array(rs, q));
                        if r.is_array {
                            assert(rs[ps[q.len() as int]].is_array);
                        }
                        if any_array(rs, ps) && !r.is_array {
                            let w = choose|w: int| 0 <= w < ps.len() && #[trigger] rs[ps[w]].is_array;
                            assert(w < q.len());
                            assert(ps[w] == q[w]);
                            assert(any_array(rs, q));
                        }
                        if any_array(rs, q) {
                            let w = choose|w: int| 0 <= w < q.len() && #[trigger] rs[q[w]].is_array;
                            assert(ps[w] == q[w]);
                        }
                    } else {
                        assert(next[k] == gs[k]);
                        assert(gs[k].name != name);
                    }
                }
            } else {
                let z = gs.len() as int;
                let q = merged_rows(rs, p, name);
                lemma_merged_rows_facts(rs, p, name);
                if q.len() > 0 {
                    assert(joins(rs, q[0], name));
                    assert(has_group(gs, group_name(rs, q[0])));
                }
                assert(q =~= Seq::<int>::empty());
                assert forall|k: int| 0 <= k < next.len() implies ({
                    let g = #[trigger] next[k];
                    let ps = merged_rows(rs, n, g.name);
                    &&& g.ids == ps.map_values(|i: int| rs[i].id)
                    &&& g.paths == ps.map_values(|i: int| rs[i].path)
                    &&& g.cnt == cnt_sum(rs, ps)
                    &&& g.nonempty == nonempty_sum(rs, ps)
                    &&& g.is_array == any_array(rs, ps)
                }) by {
                    if k == z {
                        let ps = q.push(j);
                        assert(ps =~= seq![j]);
                        assert(ps.drop_last() =~= Seq::<int>::empty());
                        assert(ps.map_values(|i: int| rs[i].id) =~= seq![r.id]);
                        assert(ps.map_values(|i: int| rs[i].path) =~= seq![r.path]);
                        assert(ps.last() == j);
                        assert(cnt_sum(rs, ps.drop_last()) == 0);
                        assert(nonempty_sum(rs, ps.drop_last()) == 0);
                        assert(cnt_sum(rs, ps) == rs[j].cnt);
                        assert(nonempty_sum(rs, ps) == rs[j].nonempty);
                        if r.is_array {
                            assert(rs[ps[0]].is_array);
                        }
                    } else {
                        assert(next[k] == gs[k]);
                        if gs[k].name == name {
                            assert(has_group(gs, name));
                        }
                    }
                }
            }
        }
    }
}

/// Law: the dominant parent of a group is one of the names it voted for,
/// and no other name got more weight.
pub proof fn lemma_best_parent_wins(votes: Seq<(Seq<char>, int)>)
    requires
        votes.len() > 0,
    ensures
        exists|k: int| 0 <= k < votes.len() && (#[trigger] votes[k]).0 == crate::groups::best_parent(votes) && forall|
            j: int,
        | 0 <= j < votes.len() ==> (#[trigger] votes[j]).1 <= votes[k].1,
{
    lemma_best_upto(votes, votes.len());
    let k = choose|k: int| 0 <= k < votes.len() && #[trigger] votes[k] == crate::groups::best_upto(votes, votes.len());
    assert(votes[k].0 == crate::groups::best_parent(votes));
}

proof fn lemma_best_upto(votes: Seq<(Seq<char>, int)>, m: nat)
    requires
        1 <= m <= votes.len(),
    ensures
        exists|k: int| 0 <= k < m && #[trigger] votes[k] == crate::groups::best_upto(votes, m),
        forall|j: int| 0 <= j < m ==> (#[trigger] votes[j]).1 <= crate::groups::best_upto(votes, m).1,
    decreases m,
{
    if m == 1 {
        assert(votes[0] == crate::groups::best_upto(votes, 1));
    } else {
        lemma_best_upto(votes, (m - 1) as nat);
        let b = crate::groups::best_upto(votes, (m - 1) as nat);
        let k = choose|k: int| 0 <= k < m - 1 && #[trigger] votes[k] == b;
        if crate::groups::beats(votes[m - 1], b) {
            assert(votes[m - 1] == crate::groups::best_upto(votes, m));
        } else {
            assert(votes[k] == crate::groups::best_upto(votes, m));
        }
    }
}

/// Every label that a mask lists is the label of a type whose bit the mask
/// has.
proof fn lemma_label_has_bit(a: i64, x: Seq<char>)
    requires
        mask_labels(a).contains(x),
    ensures
        exists|t: int| 0 <= t <= 5 && x == type_label(t as i64) && a & #[trigger] type_bit(t) != 0,
{
    let l0 = crate::db::bit_label(a, M_NULL, "null"@);
    let l1 = crate::db::bit_label(a, M_BOOL, "bool"@);
    let l2 = crate::db::bit_label(a, M_NUM, "number"@);
    let l3 = crate::db::bit_label(a, M_STR, "string"@);
    let l4 = crate::db::bit_label(a, crate::db::M_OBJ, "object"@);
    let l5 = crate::db::bit_label(a, crate::db::M_ARR, "array"@);
    let s = mask_labels(a);
    assert(s == l0 + l1 + l2 + l3 + l4 + l5);
    let k = choose|k: int| 0 <= k < s.len() && s[k] == x;
    let a0 = l0.len() as int;
    let a1 = a0 + l1.len();
    let a2 = a1 + l2.len();
    let a3 = a2 + l3.len();
    let a4 = a3 + l4.len();
    if k < a0 {
        assert(s[k] == l0[k]);
        assert(type_bit(0) == M_NULL);
    } else if k < a1 {
        assert(s[k] == l1[k - a0]);
        assert(type_bit(1) == M_BOOL);
    } else if k < a2 {
        assert(s[k] == l2[k - a1]);
        assert(type_bit(2) == M_NUM);
    } else if k < a3 {
        assert(s[k] == l3[k - a2]);
        assert(type_bit(3) == M_STR);
    } else if k < a4 {
        assert(s[k] == l4[k - a3]);
        assert(type_bit(4) == crate::db::M_OBJ);
    } else {
        assert(s[k] == l5[k - a4]);
        assert(type_bit(5) == crate::db::M_ARR);
    }
}

/// The six type labels are different texts.
proof fn lemma_labels_distinct(t: int, u: int)
    requires
        0 <= t <= 5,
        0 <= u <= 5,
        type_label(t as i64) == type_label(u as i64),
    ensures
        t == u,
{
    reveal_strlit("null");
    reveal_strlit("bool");
    reveal_strlit("number");
    reveal_strlit("string");
    reveal_strlit("object");
    reveal_strlit("array");
    let a = type_label(t as i64);
    let b = type_label(u as i64);
    assert(a.len() == b.len());
    assert(a[0] == b[0]);
}

/// Law: the `byPath` node of a row lists exactly the types of the row's
/// values: the label of a type appears among the node's types if and only
/// if the row's mask has that type's bit.
pub proof fn lemma_path_node_types(rs: Seq<RowV>, i: int, t: int)
    requires
        0 <= i < rs.len(),
        0 <= t <= 5,
    ensures
        crate::tree::path_node(rs, i).types.contains(type_label(t as i64)) <==> rs[i].mask & type_bit(t) != 0,
{
    let m = rs[i].mask;
    if m & type_bit(t) != 0 {
        lemma_label_listed(m, t);
    }
    if mask_labels(m).contains(type_label(t as i64)) {
        lemma_label_has_bit(m, type_label(t as i64));
        let u = choose|u: int| 0 <= u <= 5 && type_label(t as i64) == type_label(u as i64) && m & #[trigger] type_bit(u)
            != 0;
        lemma_labels_distinct(t, u);
    }
}

/// A mask that holds the bits of every row merged into a group holds the
/// group's bits.
proof fn lemma_group_mask_least(rs: Seq<RowV>, n: nat, k: int, m: i64)
    requires
        n <= rs.len(),
        0 <= k < groups_upto(rs, n).len(),
        covers_rows(rs, n, groups_upto(rs, n)[k].name, m),
    ensures
        groups_upto(rs, n)[k].mask & m == groups_upto(rs, n)[k].mask,
{
    lemma_group_mask_union(rs, n);
}

/// A type that no row merged into a group has is not in the group's mask.
proof fn lemma_group_bit_from_rows(rs: Seq<RowV>, k: int, t: int)
    requires
        0 <= k < shape_groups(rs).len(),
        0 <= t <= 5,
        shape_groups(rs)[k].mask & type_bit(t) != 0,
    ensures
        exists|i: int| #[trigger] merged_into(rs, rs.len(), i, shape_groups(rs)[k].name) && rs[i].mask & type_bit(t) != 0,
{
    let gs = shape_groups(rs);
    let g = gs[k].mask;
    let b = type_bit(t);
    let m: i64 = !b;
    lemma_group_mask_union(rs, rs.len());
    if !exists|i: int| #[trigger] merged_into(rs, rs.len(), i, gs[k].name) && rs[i].mask & type_bit(t) != 0 {
        assert forall|i: int| #[trigger] merged_into(rs, rs.len(), i, gs[k].name) implies rs[i].mask & m == rs[i].mask by {
            let x = rs[i].mask;
            assert(x & b == 0);
            assert(x & b == 0 ==> x & !b == x) by (bit_vector);
        }
        lemma_group_mask_least(rs, rs.len(), k, m);
        assert(g & m == g);
        assert(g & !b == g ==> g & b == 0) by (bit_vector);
    }
}

/// Law: the `byName` node of a group lists exactly the types seen at the
/// rows merged into it: a type is among its types if and only if some row
/// merged into the group has values of that type.
pub proof fn lemma_name_node_types_exact(rs: Seq<RowV>, k: int, guard: Seq<int>, t: int)
    requires
        0 <= k < shape_groups(rs).len(),
        0 <= t <= 5,
    ensures
        name_node(shape_groups(rs), final_parents(shape_groups(rs)), k, guard).types.contains(type_label(t as i64))
            <==> exists|i: int| #[trigger] merged_into(rs, rs.len(), i, shape_groups(rs)[k].name) && rs[i].mask & type_bit(t) != 0,
{
    let gs = shape_groups(rs);
    let g = gs[k].mask;
    if exists|i: int| #[trigger] merged_into(rs, rs.len(), i, gs[k].name) && rs[i].mask & type_bit(t) != 0 {
        let i = choose|i: int| #[trigger] merged_into(rs, rs.len(), i, gs[k].name) && rs[i].mask & type_bit(t) != 0;
        lemma_name_node_types(rs, i, k, guard, t);
    }
    if mask_labels(g).contains(type_label(t as i64)) {
        lemma_label_has_bit(g, type_label(t as i64));
        let u = choose|u: int| 0 <= u <= 5 && type_label(t as i64) == type_label(u as i64) && g & #[trigger] type_bit(u)
            != 0;
        lemma_labels_distinct(t, u);
        lemma_group_bit_from_rows(rs, k, t);
    }
}

/// The weight that `votes` gives to parent name `p`: none when it has no
/// vote for `p`.
pub open spec fn vote_of(votes: Seq<(Seq<char>, int)>, p: Seq<char>) -> int {
    if has_vote(votes, p) {
        votes[choose|k: int| 0 <= k < votes.len() && #[trigger] votes[k].0 == p].1
    } else {
        0
    }
}

/// The summed weight with which the rows at positions `ps` vote for parent
/// name `p`: each row votes for the name of its parent after folding, with
/// its count (at least one).
pub open spec fn votes_for(rs: Seq<RowV>, ps: Seq<int>, p: Seq<char>) -> int
    decreases ps.len(),
{
    if ps.len() == 0 {
        0
    } else {
        votes_for(rs, ps.drop_last(), p) + if parent_name(rs, ps.last()) == p {
            vote_weight(rs, ps.last())
        } else {
            0
        }
    }
}

/// Some row at positions `ps` hangs under a parent named `p`.
pub open spec fn some_parent_named(rs: Seq<RowV>, ps: Seq<int>, p: Seq<char>) -> bool {
    exists|k: int| 0 <= k < ps.len() && parent_name(rs, #[trigger] ps[k]) == p
}

proof fn lemma_vote_of_added(votes: Seq<(Seq<char>, int)>, p: Seq<char>, w: int, x: Seq<char>)
    requires
        votes_distinct(votes),
    ensures
        vote_of(vote_added(votes, p, w), x) == vote_of(votes, x) + if x == p {
            w
        } else {
            0
        },
        has_vote(vote_added(votes, p, w), x) <==> (has_vote(votes, x) || x == p),
{
    let nv = vote_added(votes, p, w);
    lemma_vote_added_distinct(votes, p, w);
    if has_vote(votes, p) {
        let c = choose|k: int| 0 <= k < votes.len() && #[trigger] votes[k].0 == p;
        assert(nv == votes.update(c, (p, votes[c].1 + w)));
        assert forall|k: int| 0 <= k < nv.len() implies (#[trigger] nv[k]).0 == votes[k].0 by {}
        if has_vote(votes, x) {
            let a = choose|k: int| 0 <= k < votes.len() && #[trigger] votes[k].0 == x;
            assert(nv[a].0 == x);
            assert(has_vote(nv, x));
            let b = choose|k: int| 0 <= k < nv.len() && #[trigger] nv[k].0 == x;
            assert(votes[b].0 == x);
            assert(a == b);
        }
        if has_vote(nv, x) {
            let b = choose|k: int| 0 <= k < nv.len() && #[trigger] nv[k].0 == x;
            assert(votes[b].0 == x);
        }
    } else {
        assert(nv == votes.push((p, w)));
        let z = votes.len() as int;
        assert(nv[z].0 == p);
        assert(has_vote(nv, p));
        if x == p {
            let b = choose|k: int| 0 <= k < nv.len() && #[trigger] nv[k].0 == x;
            assert(b == z);
        } else {
            if has_vote(votes, x) {
                let a = choose|k: int| 0 <= k < votes.len() && #[trigger] votes[k].0 == x;
                assert(nv[a].0 == x);
                assert(has_vote(nv, x));
                let b = choose|k: int| 0 <= k < nv.len() && #[trigger] nv[k].0 == x;
                assert(nv[b].0 == nv[a].0);
                assert(a == b);
            }
            if has_vote(nv, x) {
                let b = choose|k: int| 0 <= k < nv.len() && #[trigger] nv[k].0 == x;
                assert(b < z);
                assert(votes[b].0 == x);
            }
        }
    }
}

/// Law: a group's votes for its parent add up the votes of its rows. For
/// every name, the weight of the group's vote for it is the summed weight
/// (each row's count, at least one) of the merged rows that hang under a
/// parent of that name after folding; the group has a vote for a name
/// exactly when one of its rows hangs under it; and no name has two votes.
pub proof fn lemma_group_votes(rs: Seq<RowV>, n: nat)
    requires
        n <= rs.len(),
    ensures
        forall|k: int| 0 <= k < groups_upto(rs, n).len() ==> votes_distinct(#[trigger] groups_upto(rs, n)[k].votes),
        forall|k: int, x: Seq<char>|
            0 <= k < groups_upto(rs, n).len() ==> #[trigger] vote_of(groups_upto(rs, n)[k].votes, x) == votes_for(
                rs,
                merged_rows(rs, n, groups_upto(rs, n)[k].name),
                x,
            ) && (has_vote(groups_upto(rs, n)[k].votes, x) <==> some_parent_named(
                rs,
                merged_rows(rs, n, groups_upto(rs, n)[k].name),
                x,
            )),
    decreases n,
{
    if n > 0 {
        let p = (n - 1) as nat;
        lemma_group_votes(rs, p);
        lemma_group_mask_union(rs, p);
        let gs = groups_upto(rs, p);
        let next = groups_upto(rs, n);
        let j = n - 1;
        if collapses(rs, j) {
            assert(next == gs);
            assert forall|k: int| 0 <= k < next.len() implies #[trigger] merged_rows(rs, n, next[k].name) == merged_rows(
                rs,
                p,
                next[k].name,
            ) by {}
        } else {
            let name = group_name(rs, j);
            let pn = parent_name(rs, j);
            let wt = vote_weight(rs, j);
            assert(next == row_added(gs, rs, j));
            assert forall|nm: Seq<char>| nm != name implies #[trigger] merged_rows(rs, n, nm) == merged_rows(rs, p, nm) by {}
            let q = merged_rows(rs, p, name);
            let ps = q.push(j);
            assert(merged_rows(rs, n, name) == ps);
            assert(ps.drop_last() == q);
            assert forall|x: Seq<char>| #[trigger] votes_for(rs, ps, x) == votes_for(rs, q, x) + if pn == x {
                wt
            } else {
                0
            } by {}
            assert forall|x: Seq<char>| #[trigger] some_parent_named(rs, ps, x) <==> (some_parent_named(rs, q, x) || pn == x) by {
                if some_parent_named(rs, ps, x) && pn != x {
                    let a = choose|a: int| 0 <= a < ps.len() && parent_name(rs, #[trigger] ps[a]) == x;
                    assert(a < q.len());
                    assert(ps[a] == q[a]);
                }
                if some_parent_named(rs, q, x) {
                    let a = choose|a: int| 0 <= a < q.len() && parent_name(rs, #[trigger] q[a]) == x;
                    assert(ps[a] == q[a]);
                }
                if pn == x {
                    assert(ps[q.len() as int] == j);
                }
            }
            if has_group(gs, name) {
                let c = crate::groups::group_index(gs, name);
                assert(gs[c].name == name);
                assert(next[c].votes == vote_added(gs[c].votes, pn, wt));
                assert forall|x: Seq<char>| #[trigger] vote_of(next[c].votes, x) == vote_of(gs[c].votes, x) + if x == pn {
                    wt
                } else {
                    0
                } && (has_vote(next[c].votes, x) <==> (has_vote(gs[c].votes, x) || x == pn)) by {
                    lemma_vote_of_added(gs[c].votes, pn, wt, x);
                }
                lemma_vote_added_distinct(gs[c].votes, pn, wt);
                assert forall|k: int| 0 <= k < next.len() implies votes_distinct(#[trigger] next[k].votes) by {
                    if k != c {
                        assert(next[k] == gs[k]);
                    }
                }
                assert forall|k: int, x: Seq<char>| 0 <= k < next.len() implies #[trigger] vote_of(next[k].votes, x)
                    == votes_for(rs, merged_rows(rs, n, next[k].name), x) && (has_vote(next[k].votes, x)
                    <==> some_parent_named(rs, merged_rows(rs, n, next[k].name), x)) by {
                    if k == c {
                        assert(vote_of(gs[c].votes, x) == votes_for(rs, q, x));
                        assert(has_vote(gs[c].votes, x) <==> some_parent_named(rs, q, x));
                        assert(votes_for(rs, ps, x) == votes_for(rs, q, x) + if pn == x {
                            wt
                        } else {
                            0
                        });
                        assert(some_parent_named(rs, ps, x) <==> (some_parent_named(rs, q, x) || pn == x));
                    } else {
                        assert(next[k] == gs[k]);
                        assert(gs[k].name != name);
                        assert(vote_of(gs[k].votes, x) == votes_for(rs, merged_rows(rs, p, gs[k].name), x));
                    }
                }
            } else {
                let z = gs.len() as int;
                lemma_merged_rows_facts(rs, p, name);
                if q.len() > 0 {
                    assert(joins(rs, q[0], name));
                    assert(has_group(gs, group_name(rs, q[0])));
                }
                assert(q =~= Seq::<int>::empty());
                let nv = next[z].votes;
                assert(nv == seq![(pn, wt)]);
                assert(votes_distinct(nv));
                assert forall|k: int| 0 <= k < next.len() implies votes_distinct(#[trigger] next[k].votes) by {
                    if k < z {
                        assert(next[k] == gs[k]);
                    }
                }
                assert forall|k: int, x: Seq<char>| 0 <= k < next.len() implies #[trigger] vote_of(next[k].votes, x)
                    == votes_for(rs, merged_rows(rs, n, next[k].name), x) && (has_vote(next[k].votes, x)
                    <==> some_parent_named(rs, merged_rows(rs, n, next[k].name), x)) by {
                    if k == z {
                        assert(votes_for(rs, q, x) == 0);
                        assert(!some_parent_named(rs, q, x));
                        assert(votes_for(rs, ps, x) == if pn == x {
                            wt
                        } else {
                            0
                        });
                        assert(some_parent_named(rs, ps, x) <==> pn == x);
                        if x == pn {
                            assert(nv[0].0 == x);
                            assert(has_vote(nv, x));
                        } else {
                            if has_vote(nv, x) {
                                let b = choose|b: int| 0 <= b < nv.len() && #[trigger] nv[b].0 == x;
                                assert(b == 0);
                            }
                        }
                    } else {
                        assert(next[k] == gs[k]);
                        if gs[k].name == name {
                            assert(has_group(gs, name));
                        }
                        assert(vote_of(gs[k].votes, x) == votes_for(rs, merged_rows(rs, p, gs[k].name), x));
                    }
                }
            }
        }
    }
}

} // verus!
