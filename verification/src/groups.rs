//! The `byName` tree: one node per key name, hung under the name under which
//! it occurs most often.

use vstd::prelude::*;
use vstd::hash_map::StringHashMap;
use vstd::string::*;

use crate::tree::{collapses, eff_parent, find_row, has_id, position_of, RowV, Shape};
use crate::db::{mask_labels, mask_names};
use crate::model::{NodeV, TreeNode};
use crate::text::{lex_less, str_equal, str_less};
use crate::tree::{prefix_sums_fit, sum_non_empty};

verus! {

/// Every parent that a row names is a row of the table.
pub open spec fn parents_present(rs: Seq<RowV>) -> bool {
    forall|i: int|
        0 <= i < rs.len() ==> ((#[trigger] rs[i]).parent matches Some(p) ==> has_id(rs, p))
}

/// The name under which row `i` is grouped: elements of an array are named
/// after the array (`tags[]`), otherwise every scalar array in the data
/// would merge into one `[]` node.
pub open spec fn group_name(rs: Seq<RowV>, i: int) -> Seq<char> {
    if rs[i].key == "[]"@ {
        let parent_key = match rs[i].parent {
            Some(p) => if has_id(rs, p) {
                rs[position_of(rs, p)].key
            } else {
                "$"@
            },
            None => "$"@,
        };
        parent_key + "[]"@
    } else {
        rs[i].key
    }
}

/// The name of the group of the parent of row `i` after folding; empty at
/// the top.
pub open spec fn parent_name(rs: Seq<RowV>, i: int) -> Seq<char> {
    match eff_parent(rs, i) {
        Some(p) => group_name(rs, position_of(rs, p)),
        None => Seq::empty(),
    }
}

/// The weight of a row's vote for its parent: its count, at least one.
pub open spec fn vote_weight(rs: Seq<RowV>, i: int) -> int {
    if rs[i].cnt > 1 {
        rs[i].cnt as int
    } else {
        1
    }
}

/// The rows of one name, merged.
pub struct GroupV {
    pub name: Seq<char>,
    pub ids: Seq<i64>,
    pub paths: Seq<Seq<char>>,
    pub cnt: int,
    pub nonempty: int,
    pub mask: i64,
    pub is_array: bool,
    /// Votes for the parent: parent name and summed weight, in order of
    /// first vote.
    pub votes: Seq<(Seq<char>, int)>,
}

pub open spec fn has_vote(votes: Seq<(Seq<char>, int)>, p: Seq<char>) -> bool {
    exists|k: int| 0 <= k < votes.len() && #[trigger] votes[k].0 == p
}

pub open spec fn vote_added(votes: Seq<(Seq<char>, int)>, p: Seq<char>, w: int) -> Seq<(Seq<char>, int)> {
    if has_vote(votes, p) {
        let k = choose|k: int| 0 <= k < votes.len() && #[trigger] votes[k].0 == p;
        votes.update(k, (p, votes[k].1 + w))
    } else {
        votes.push((p, w))
    }
}

pub open spec fn has_group(gs: Seq<GroupV>, name: Seq<char>) -> bool {
    exists|k: int| 0 <= k < gs.len() && #[trigger] gs[k].name == name
}

pub open spec fn group_index(gs: Seq<GroupV>, name: Seq<char>) -> int {
    choose|k: int| 0 <= k < gs.len() && #[trigger] gs[k].name == name
}

/// Row `i` joins the group of its name (a new group when the name is new).
pub open spec fn row_added(gs: Seq<GroupV>, rs: Seq<RowV>, i: int) -> Seq<GroupV> {
    let name = group_name(rs, i);
    let r = rs[i];
    if has_group(gs, name) {
        let k = group_index(gs, name);
        let g = gs[k];
        gs.update(
            k,
            GroupV {
                name,
                ids: g.ids.push(r.id),
                paths: g.paths.push(r.path),
                cnt: g.cnt + r.cnt,
                nonempty: g.nonempty + r.nonempty,
                mask: g.mask | r.mask,
                is_array: g.is_array || r.is_array,
                votes: vote_added(g.votes, parent_name(rs, i), vote_weight(rs, i)),
            },
        )
    } else {
        gs.push(
            GroupV {
                name,
                ids: seq![r.id],
                paths: seq![r.path],
                cnt: r.cnt as int,
                nonempty: r.nonempty as int,
                mask: 0 | r.mask,
                is_array: r.is_array,
                votes: seq![(parent_name(rs, i), vote_weight(rs, i))],
            },
        )
    }
}

/// The groups of the rows before position `n` that are not folded away,
/// in order of first appearance.
pub open spec fn groups_upto(rs: Seq<RowV>, n: nat) -> Seq<GroupV>
    decreases n,
{
    if n == 0 {
        Seq::empty()
    } else {
        let gs = groups_upto(rs, (n - 1) as nat);
        if collapses(rs, n - 1) {
            gs
        } else {
            row_added(gs, rs, n - 1)
        }
    }
}

pub open spec fn in_i64(x: int) -> bool {
    i64::MIN <= x <= i64::MAX
}

/// Every counter of the groups fits in `i64`.
pub open spec fn groups_in_range(gs: Seq<GroupV>) -> bool {
    forall|k: int|
        0 <= k < gs.len() ==> in_i64((#[trigger] gs[k]).cnt) && in_i64(gs[k].nonempty)
            && forall|v: int| 0 <= v < gs[k].votes.len() ==> in_i64(#[trigger] gs[k].votes[v].1)
}

/// Every counter fits in `i64` at every step of the grouping.
pub open spec fn grouping_fits(rs: Seq<RowV>) -> bool {
    forall|n: nat| n <= rs.len() ==> groups_in_range(#[trigger] groups_upto(rs, n))
}

/// A group of rows under one name.
pub struct Group {
    pub name: String,
    pub ids: Vec<i64>,
    pub paths: Vec<String>,
    pub cnt: i64,
    pub nonempty: i64,
    pub mask: i64,
    pub is_array: bool,
    pub votes: Vec<(String, i64)>,
}

pub open spec fn votes_view(v: Seq<(String, i64)>) -> Seq<(Seq<char>, int)> {
    v.map_values(|x: (String, i64)| (x.0@, x.1 as int))
}

impl View for Group {
    type V = GroupV;

    open spec fn view(&self) -> GroupV {
        GroupV {
            name: self.name@,
            ids: self.ids@,
            paths: crate::db::string_views(self.paths@),
            cnt: self.cnt as int,
            nonempty: self.nonempty as int,
            mask: self.mask,
            is_array: self.is_array,
            votes: votes_view(self.votes@),
        }
    }
}

pub open spec fn groups_view(v: Seq<Group>) -> Seq<GroupV> {
    v.map_values(|g: Group| g@)
}

/// The name of the group of row `i`.
fn group_name_of(sh: &Shape, i: usize) -> (r: String)
    requires
        sh.wf(),
        i < sh.rows@.len(),
    ensures
        r@ == group_name(sh.rs(), i as int),
{
    let ghost rs = sh.rs();
    let row = &sh.rows[i];
    assert(rs[i as int] == row@);
    proof {
        reveal_strlit("[]");
        reveal_strlit("$");
    }
    if str_equal(row.key.as_str(), "[]") {
        let parent_key = match row.parent {
            Some(p) => match find_row(&sh.rows, p) {
                Some(pp) => {
                    proof {
                        assert(rs[pp as int] == sh.rows@[pp as int]@);
                        assert(has_id(rs, p));
                        crate::tree::lemma_position_unique(rs, pp as int);
                    }
                    sh.rows[pp].key.clone()
                },
                None => "$".to_owned(),
            },
            None => "$".to_owned(),
        };
        parent_key.concat("[]")
    } else {
        row.key.clone()
    }
}

pub open spec fn votes_in_range(votes: Seq<(Seq<char>, int)>) -> bool {
    forall|v: int| 0 <= v < votes.len() ==> in_i64(#[trigger] votes[v].1)
}

pub open spec fn votes_distinct(votes: Seq<(Seq<char>, int)>) -> bool {
    forall|a: int, b: int|
        0 <= a < votes.len() && 0 <= b < votes.len() && #[trigger] votes[a].0 == #[trigger] votes[b].0
            ==> a == b
}

pub open spec fn groups_distinct(gs: Seq<GroupV>) -> bool {
    &&& forall|a: int, b: int|
        0 <= a < gs.len() && 0 <= b < gs.len() && #[trigger] gs[a].name == #[trigger] gs[b].name ==> a
            == b
    &&& forall|k: int| 0 <= k < gs.len() ==> votes_distinct(#[trigger] gs[k].votes)
}

pub proof fn lemma_vote_added_distinct(votes: Seq<(Seq<char>, int)>, p: Seq<char>, w: int)
    requires
        votes_distinct(votes),
    ensures
        votes_distinct(vote_added(votes, p, w)),
        vote_added(votes, p, w).len() > 0,
{
    let r = vote_added(votes, p, w);
    if has_vote(votes, p) {
        let k = choose|k: int| 0 <= k < votes.len() && #[trigger] votes[k].0 == p;
        assert forall|a: int, b: int|
            0 <= a < r.len() && 0 <= b < r.len() && #[trigger] r[a].0 == #[trigger] r[b].0 implies a == b by {
            assert(r[a].0 == votes[a].0);
            assert(r[b].0 == votes[b].0);
        }
    } else {
        assert forall|a: int, b: int|
            0 <= a < r.len() && 0 <= b < r.len() && #[trigger] r[a].0 == #[trigger] r[b].0 implies a == b by {
            if a < votes.len() && b < votes.len() {
                assert(r[a] == votes[a]);
                assert(r[b] == votes[b]);
            } else if a < votes.len() {
                assert(r[a] == votes[a]);
                assert(has_vote(votes, p));
            } else if b < votes.len() {
                assert(r[b] == votes[b]);
                assert(has_vote(votes, p));
            }
        }
    }
}

fn add_vote(votes: &mut Vec<(String, i64)>, p: String, w: i64)
    requires
        votes_distinct(votes_view(old(votes)@)),
        votes_in_range(vote_added(votes_view(old(votes)@), p@, w as int)),
    ensures
        votes_view(final(votes)@) == vote_added(votes_view(old(votes)@), p@, w as int),
{
    let ghost vs = votes_view(votes@);
    let mut k: usize = 0;
    while k < votes.len()
        invariant
            vs == votes_view(votes@),
            votes@ == old(votes)@,
            votes_distinct(vs),
            votes_in_range(vote_added(vs, p@, w as int)),
            0 <= k <= votes@.len(),
            forall|m: int| 0 <= m < k ==> #[trigger] vs[m].0 != p@,
        decreases votes@.len() - k,
    {
        assert(vs[k as int].0 == votes@[k as int].0@);
        if str_equal(votes[k].0.as_str(), p.as_str()) {
            proof {
                assert(has_vote(vs, p@));
                let c = choose|c: int| 0 <= c < vs.len() && #[trigger] vs[c].0 == p@;
                assert(vs[c].0 == vs[k as int].0);
                assert(c == k);
                assert(vote_added(vs, p@, w as int)[c].1 == vs[c].1 + w);
            }
            let cur = votes[k].1;
            let name = votes[k].0.clone();
            votes.set(k, (name, cur + w));
            proof {
                assert(votes_view(votes@) =~= vote_added(vs, p@, w as int));
            }
            return;
        }
        k = k + 1;
    }
    proof {
        assert(!has_vote(vs, p@));
    }
    votes.push((p, w));
    proof {
        assert(votes_view(votes@) =~= vote_added(vs, p@, w as int));
    }
}

pub open spec fn index_ok(map: Map<Seq<char>, usize>, gs: Seq<GroupV>) -> bool {
    &&& forall|name: Seq<char>| #[trigger] map.contains_key(name) <==> has_group(gs, name)
    &&& forall|name: Seq<char>|
        #[trigger] map.contains_key(name) ==> map[name] < gs.len() && gs[map[name] as int].name == name
}

/// Groups the rows that stay in the tree by name, in increasing order of id.
fn collect_groups(sh: &Shape) -> (res: (Vec<Group>, StringHashMap<usize>))
    requires
        sh.wf(),
        parents_present(sh.rs()),
        grouping_fits(sh.rs()),
    ensures
        groups_view(res.0@) == groups_upto(sh.rs(), sh.rs().len()),
        groups_distinct(groups_view(res.0@)),
        index_ok(res.1@, groups_view(res.0@)),
{
    let ghost rs = sh.rs();
    let n = sh.rows.len();
    let mut groups: Vec<Group> = Vec::new();
    let mut index: StringHashMap<usize> = StringHashMap::new();
    let mut j: usize = 0;
    proof {
        assert(groups_view(groups@) =~= groups_upto(rs, 0));
    }
    while j < n
        invariant
            sh.wf(),
            rs == sh.rs(),
            n == rs.len(),
            parents_present(rs),
            grouping_fits(rs),
            0 <= j <= n,
            groups_view(groups@) == groups_upto(rs, j as nat),
            groups_distinct(groups_view(groups@)),
            index_ok(index@, groups_view(groups@)),
        decreases n - j,
    {
        let ghost gv = groups_view(groups@);
        proof {
            assert(groups_in_range(groups_upto(rs, (j + 1) as nat)));
        }
        if !sh.collapsed[j] {
            let row = &sh.rows[j];
            assert(rs[j as int] == row@);
            let name = group_name_of(sh, j);
            let pname = match sh.eff[j] {
                Some(p) => {
                    let pp = find_row(&sh.rows, p);
                    proof {
                        // the parent after folding is a row of the table
                        crate::tree::lemma_eff_present(rs, j as int);
                    }
                    match pp {
                        Some(pp) => {
                            proof {
                                assert(rs[pp as int].id == p);
                                crate::tree::lemma_position_unique(rs, pp as int);
                            }
                            group_name_of(sh, pp)
                        },
                        None => String::new(),
                    }
                },
                None => String::new(),
            };
            assert(pname@ == parent_name(rs, j as int));
            let w: i64 = if row.cnt > 1 {
                row.cnt
            } else {
                1
            };
            let ghost next = row_added(gv, rs, j as int);
            assert(next == groups_upto(rs, (j + 1) as nat));
            match index.get(name.as_str()) {
                Some(k) => {
                    let k = *k;
                    assert(gv[k as int].name == name@);
                    proof {
                        assert(has_group(gv, name@));
                        let c = group_index(gv, name@);
                        assert(gv[c].name == gv[k as int].name);
                        assert(c == k);
                        assert(groups_in_range(next));
                        assert(next[k as int] == row_added(gv, rs, j as int)[k as int]);
                        assert(in_i64(next[k as int].cnt));
                        assert(votes_distinct(gv[k as int].votes));
                        assert(votes_in_range(next[k as int].votes));
                    }
                    let ghost gk = groups@[k as int];
                    assert(gk@ == gv[k as int]);
                    let g = &mut groups[k];
                    g.ids.push(row.id);
                    g.paths.push(row.path.clone());
                    g.cnt = g.cnt + row.cnt;
                    g.nonempty = g.nonempty + row.nonempty;
                    g.mask = g.mask | row.mask;
                    g.is_array = g.is_array || row.is_array;
                    add_vote(&mut g.votes, pname, w);
                    proof {
                        assert(crate::db::string_views(groups@[k as int].paths@) =~= gv[k as int].paths.push(row.path@));
                        assert(groups@[k as int]@ =~= next[k as int]);
                        assert(groups_view(groups@) =~= next);
                        lemma_vote_added_distinct(gv[k as int].votes, pname@, w as int);
                        assert forall|a: int, b: int|
                            0 <= a < next.len() && 0 <= b < next.len() && #[trigger] next[a].name == #[trigger] next[b].name implies a == b by {
                            assert(next[a].name == gv[a].name);
                            assert(next[b].name == gv[b].name);
                        }
                        assert forall|m: int| 0 <= m < next.len() implies votes_distinct(#[trigger] next[m].votes) by {
                            if m != k {
                                assert(next[m] == gv[m]);
                            }
                        }
                        assert forall|nm: Seq<char>| #[trigger] index@.contains_key(nm) <==> has_group(next, nm) by {
                            if has_group(next, nm) {
                                let c = choose|c: int| 0 <= c < next.len() && #[trigger] next[c].name == nm;
                                assert(gv[c].name == nm);
                            }
                            if has_group(gv, nm) {
                                let c = choose|c: int| 0 <= c < gv.len() && #[trigger] gv[c].name == nm;
                                assert(next[c].name == nm);
                            }
                        }
                        assert forall|nm: Seq<char>| #[trigger] index@.contains_key(nm) implies index@[nm] < next.len()
                            && next[index@[nm] as int].name == nm by {
                            assert(next[index@[nm] as int].name == gv[index@[nm] as int].name);
                        }
                    }
                },
                None => {
                    proof {
                        assert(!has_group(gv, name@));
                        assert(groups_in_range(next));
                        assert(next[gv.len() as int].cnt == row.cnt);
                        assert((0i64 | row.mask) == row.mask) by (bit_vector);
                    }
                    let k = groups.len();
                    let mut votes: Vec<(String, i64)> = Vec::new();
                    votes.push((pname, w));
                    let mut ids: Vec<i64> = Vec::new();
                    ids.push(row.id);
                    let mut paths: Vec<String> = Vec::new();
                    paths.push(row.path.clone());
                    let g = Group {
                        name: name.clone(),
                        ids,
                        paths,
                        cnt: row.cnt,
                        nonempty: row.nonempty,
                        mask: row.mask,
                        is_array: row.is_array,
                        votes,
                    };
                    groups.push(g);
                    index.insert(name, k);
                    proof {
                        assert(votes_view(g.votes@) =~= seq![(parent_name(rs, j as int), w as int)]);
                        assert(crate::db::string_views(g.paths@) =~= seq![row.path@]);
                        assert(g.ids@ =~= seq![row.id]);
                        assert(g@ =~= next[k as int]);
                        assert(groups_view(groups@) =~= next);
                        assert forall|a: int, b: int|
                            0 <= a < next.len() && 0 <= b < next.len() && #[trigger] next[a].name == #[trigger] next[b].name implies a == b by {
                            if a < k && b == k {
                                assert(has_group(gv, name@));
                            }
                            if b < k && a == k {
                                assert(has_group(gv, name@));
                            }
                        }
                        assert forall|m: int| 0 <= m < next.len() implies votes_distinct(#[trigger] next[m].votes) by {
                            if m < k {
                                assert(next[m] == gv[m]);
                            }
                        }
                        assert forall|nm: Seq<char>| #[trigger] index@.contains_key(nm) <==> has_group(next, nm) by {
                            assert(next[k as int].name == name@);
                            if nm == name@ {
                                assert(has_group(next, nm));
                            }
                            if has_group(next, nm) {
                                let c = choose|c: int| 0 <= c < next.len() && #[trigger] next[c].name == nm;
                                if c < k {
                                    assert(gv[c].name == nm);
                                }
                            }
                            if has_group(gv, nm) {
                                let c = choose|c: int| 0 <= c < gv.len() && #[trigger] gv[c].name == nm;
                                assert(next[c].name == nm);
                            }
                        }
                        assert forall|nm: Seq<char>| #[trigger] index@.contains_key(nm) implies index@[nm] < next.len()
                            && next[index@[nm] as int].name == nm by {
                            if nm != name@ {
                                assert(next[index@[nm] as int].name == gv[index@[nm] as int].name);
                            }
                        }
                    }
                },
            }
        } else {
            assert(groups_upto(rs, (j + 1) as nat) == gv);
        }
        j = j + 1;
    }
    (groups, index)
}

/// Vote `a` wins over vote `b`: more weight, or equal weight and a parent
/// name that sorts first.
pub open spec fn beats(a: (Seq<char>, int), b: (Seq<char>, int)) -> bool {
    a.1 > b.1 || (a.1 == b.1 && lex_less(a.0, b.0))
}

/// The winner among the first `k` votes.
pub open spec fn best_upto(votes: Seq<(Seq<char>, int)>, k: nat) -> (Seq<char>, int)
    decreases k,
{
    if k <= 1 {
        votes[0]
    } else {
        let b = best_upto(votes, (k - 1) as nat);
        if beats(votes[k - 1], b) {
            votes[k - 1]
        } else {
            b
        }
    }
}

/// The dominant parent of a group: the one under which it occurs most often.
pub open spec fn best_parent(votes: Seq<(Seq<char>, int)>) -> Seq<char> {
    if votes.len() == 0 {
        Seq::empty()
    } else {
        best_upto(votes, votes.len()).0
    }
}

fn best_parent_of(votes: &Vec<(String, i64)>) -> (r: String)
    ensures
        r@ == best_parent(votes_view(votes@)),
{
    let ghost vs = votes_view(votes@);
    if votes.len() == 0 {
        return String::new();
    }
    let mut best: usize = 0;
    let mut k: usize = 1;
    assert(vs[0] == best_upto(vs, 1));
    while k < votes.len()
        invariant
            vs == votes_view(votes@),
            1 <= k <= votes@.len(),
            best < votes@.len(),
            vs[best as int] == best_upto(vs, k as nat),
        decreases votes@.len() - k,
    {
        assert(vs[k as int] == (votes@[k as int].0@, votes@[k as int].1 as int));
        assert(vs[best as int] == (votes@[best as int].0@, votes@[best as int].1 as int));
        let a = &votes[k];
        let b = &votes[best];
        if a.1 > b.1 || (a.1 == b.1 && str_less(a.0.as_str(), b.0.as_str())) {
            best = k;
        }
        k = k + 1;
    }
    votes[best].0.clone()
}

/// The dominant parent of every group, before cycles are broken.
pub open spec fn voted_parents(gs: Seq<GroupV>) -> Seq<Seq<char>> {
    Seq::new(gs.len(), |k: int| best_parent(gs[k].votes))
}

/// Following the parents from group `k` reaches the top (an empty parent,
/// or a parent that is no group) within `fuel` steps. With as many steps as
/// there are groups, a chain that does not reach the top runs in a cycle.
pub open spec fn chain_ends(gs: Seq<GroupV>, ps: Seq<Seq<char>>, k: int, fuel: nat) -> bool
    decreases fuel,
{
    if fuel == 0 {
        false
    } else if ps[k].len() == 0 || !has_group(gs, ps[k]) {
        true
    } else {
        chain_ends(gs, ps, group_index(gs, ps[k]), (fuel - 1) as nat)
    }
}

/// Cycles are broken group by group, in order: a group whose chain of
/// parents runs in a cycle moves to the top.
pub open spec fn broken_upto(gs: Seq<GroupV>, m: nat) -> Seq<Seq<char>>
    decreases m,
{
    if m == 0 {
        voted_parents(gs)
    } else {
        let ps = broken_upto(gs, (m - 1) as nat);
        if chain_ends(gs, ps, m - 1, gs.len()) {
            ps
        } else {
            ps.update(m - 1, Seq::empty())
        }
    }
}

/// The parent of every group in the tree.
pub open spec fn final_parents(gs: Seq<GroupV>) -> Seq<Seq<char>> {
    broken_upto(gs, gs.len())
}

pub open spec fn names_view(v: Seq<String>) -> Seq<Seq<char>> {
    v.map_values(|s: String| s@)
}

pub proof fn lemma_broken_len(gs: Seq<GroupV>, m: nat)
    requires
        m <= gs.len(),
    ensures
        broken_upto(gs, m).len() == gs.len(),
    decreases m,
{
    if m > 0 {
        lemma_broken_len(gs, (m - 1) as nat);

    } else {
        assert(voted_parents(gs).len() == gs.len());
        assert(broken_upto(gs, m) == voted_parents(gs));
    }
}

fn chain_ends_exec(groups: &Vec<Group>, index: &StringHashMap<usize>, ps: &Vec<String>, k: usize) -> (r: bool)
    requires
        index_ok(index@, groups_view(groups@)),
        groups_distinct(groups_view(groups@)),
        ps@.len() == groups@.len(),
        k < groups@.len(),
    ensures
        r == chain_ends(groups_view(groups@), names_view(ps@), k as int, groups@.len() as nat),
{
    let ghost gs = groups_view(groups@);
    let ghost pv = names_view(ps@);
    let mut cur = k;
    let mut fuel = groups.len();
    while fuel > 0
        invariant
            gs == groups_view(groups@),
            pv == names_view(ps@),
            index_ok(index@, gs),
            groups_distinct(gs),
            ps@.len() == gs.len(),
            cur < gs.len(),
            chain_ends(gs, pv, k as int, gs.len() as nat) == chain_ends(gs, pv, cur as int, fuel as nat),
        decreases fuel,
    {
        let p = &ps[cur];
        assert(pv[cur as int] == p@);
        if p.as_str().is_empty() {
            return true;
        }
        match index.get(p.as_str()) {
            None => {
                return true;
            },
            Some(j) => {
                proof {
                    let c = group_index(gs, p@);
                    assert(gs[*j as int].name == p@);
                    assert(has_group(gs, p@));
                    assert(gs[c].name == p@);
                    assert(c == *j);
                }
                cur = *j;
                fuel = fuel - 1;
            },
        }
    }
    false
}

/// The groups among the first `n` whose parent is `parent`, in order.
pub open spec fn named_kids(ps: Seq<Seq<char>>, parent: Seq<char>, n: nat) -> Seq<int>
    decreases n,
{
    if n == 0 {
        Seq::empty()
    } else {
        let prev = named_kids(ps, parent, (n - 1) as nat);
        if ps[n - 1] == parent {
            prev.push(n - 1)
        } else {
            prev
        }
    }
}

/// The `byName` node of group `k`, built while the groups in `guard` are
/// being built above it: a group already on that stack gets no children.
pub open spec fn name_node(gs: Seq<GroupV>, ps: Seq<Seq<char>>, k: int, guard: Seq<int>) -> NodeV
    decreases gs.len() - guard.len(), 0nat, 0nat,
{
    let g = gs[k];
    let list = named_kids(ps, g.name, gs.len());
    let kids = if guard.len() < gs.len() && !guard.contains(k) {
        name_list(gs, ps, list, guard.push(k), list.len())
    } else {
        Seq::empty()
    };
    NodeV {
        id: "n:"@ + g.name,
        key: g.name,
        path: if g.paths.len() > 0 {
            g.paths[0]
        } else {
            Seq::empty()
        },
        is_array: g.is_array,
        is_leaf: kids.len() == 0,
        count: g.cnt as i64,
        non_empty: g.nonempty + sum_non_empty(kids),
        types: mask_labels(g.mask),
        path_ids: g.ids,
        paths: g.paths,
        children: kids,
    }
}

/// The `byName` nodes of the first `m` groups of `list`.
pub open spec fn name_list(gs: Seq<GroupV>, ps: Seq<Seq<char>>, list: Seq<int>, guard: Seq<int>, m: nat) -> Seq<NodeV>
    decreases gs.len() - guard.len(), 1nat, m,
{
    if m == 0 {
        Seq::empty()
    } else {
        let prev = name_list(gs, ps, list, guard, (m - 1) as nat);
        if m <= list.len() {
            prev.push(name_node(gs, ps, list[m - 1], guard))
        } else {
            prev
        }
    }
}

/// Every sum that the `byName` node of group `k` computes fits in `i64`.
pub open spec fn name_fits(gs: Seq<GroupV>, ps: Seq<Seq<char>>, k: int, guard: Seq<int>) -> bool
    decreases gs.len() - guard.len(), 0nat, 0nat,
{
    let g = gs[k];
    let list = named_kids(ps, g.name, gs.len());
    let inner = guard.len() < gs.len() && !guard.contains(k);
    let kids = if inner {
        name_list(gs, ps, list, guard.push(k), list.len())
    } else {
        Seq::empty()
    };
    &&& inner ==> list_fits(gs, ps, list, guard.push(k), list.len())
    &&& prefix_sums_fit(kids)
    &&& crate::tree::in_i64(g.nonempty + sum_non_empty(kids))
}

pub open spec fn list_fits(gs: Seq<GroupV>, ps: Seq<Seq<char>>, list: Seq<int>, guard: Seq<int>, m: nat) -> bool
    decreases gs.len() - guard.len(), 1nat, m,
{
    if m == 0 {
        true
    } else {
        &&& list_fits(gs, ps, list, guard, (m - 1) as nat)
        &&& m <= list.len() ==> name_fits(gs, ps, list[m - 1], guard)
    }
}

proof fn lemma_list_fits_prefix(gs: Seq<GroupV>, ps: Seq<Seq<char>>, list: Seq<int>, guard: Seq<int>, m: nat, n: nat)
    requires
        list_fits(gs, ps, list, guard, m),
        n <= m,
    ensures
        list_fits(gs, ps, list, guard, n),
    decreases m,
{
    if n < m {
        lemma_list_fits_prefix(gs, ps, list, guard, (m - 1) as nat, n);
    }
}

pub proof fn lemma_named_kids_facts(ps: Seq<Seq<char>>, parent: Seq<char>, n: nat)
    requires
        n <= ps.len(),
    ensures
        forall|k: int|
            0 <= k < named_kids(ps, parent, n).len() ==> 0 <= #[trigger] named_kids(ps, parent, n)[k] < n
                && ps[named_kids(ps, parent, n)[k]] == parent,
    decreases n,
{
    if n > 0 {
        lemma_named_kids_facts(ps, parent, (n - 1) as nat);
        let prev = named_kids(ps, parent, (n - 1) as nat);
        let cur = named_kids(ps, parent, n);
        assert forall|k: int| 0 <= k < cur.len() implies 0 <= #[trigger] cur[k] < n && ps[cur[k]] == parent by {
            if k < prev.len() {
                assert(cur[k] == prev[k]);
            }
        }
    }
}

pub open spec fn guard_view(v: Seq<usize>) -> Seq<int> {
    v.map_values(|x: usize| x as int)
}

fn stack_holds(guard: &Vec<usize>, k: usize) -> (r: bool)
    ensures
        r == guard_view(guard@).contains(k as int),
{
    let mut i: usize = 0;
    while i < guard.len()
        invariant
            0 <= i <= guard@.len(),
            forall|m: int| 0 <= m < i ==> guard@[m] != k,
        decreases guard@.len() - i,
    {
        if guard[i] == k {
            assert(guard_view(guard@)[i as int] == k as int);
            return true;
        }
        i = i + 1;
    }
    proof {
        if guard_view(guard@).contains(k as int) {
            let m = choose|m: int| 0 <= m < guard_view(guard@).len() && guard_view(guard@)[m] == k as int;
            assert(guard@[m] == k);
        }
    }
    false
}

/// The context a `byName` tree is built in.
pub struct NameCtx {
    pub groups: Vec<Group>,
    /// The parent of each group.
    pub parents: Vec<String>,
    /// The children of each group with a non-empty name.
    pub kids: Vec<Vec<usize>>,
    /// The groups at the top.
    pub top: Vec<usize>,
}

impl NameCtx {
    pub open spec fn gs(&self) -> Seq<GroupV> {
        groups_view(self.groups@)
    }

    pub open spec fn ps(&self) -> Seq<Seq<char>> {
        names_view(self.parents@)
    }

    pub open spec fn wf(&self) -> bool {
        let gs = self.gs();
        let ps = self.ps();
        &&& ps.len() == gs.len()
        &&& self.kids@.len() == gs.len()
        &&& forall|j: int|
            0 <= j < gs.len() && gs[j].name.len() > 0 ==> crate::tree::usize_seq_view(#[trigger] self.kids@[j]@)
                == named_kids(ps, gs[j].name, gs.len())
        &&& crate::tree::usize_seq_view(self.top@) == named_kids(ps, Seq::empty(), gs.len())
    }
}

fn make(ctx: &NameCtx, k: usize, guard: &mut Vec<usize>) -> (t: TreeNode)
    requires
        ctx.wf(),
        k < ctx.groups@.len(),
        groups_in_range(ctx.gs()),
        name_fits(ctx.gs(), ctx.ps(), k as int, guard_view(old(guard)@)),
    ensures
        t@ == name_node(ctx.gs(), ctx.ps(), k as int, guard_view(old(guard)@)),
        final(guard)@ == old(guard)@,
    decreases ctx.groups@.len() - old(guard)@.len(), 0nat, 0nat,
{
    let ghost gs = ctx.gs();
    let ghost ps = ctx.ps();
    let ghost gd = guard_view(guard@);
    let g = &ctx.groups[k];
    assert(gs[k as int] == g@);
    let ghost list = named_kids(ps, g@.name, gs.len());
    let mut children: Vec<TreeNode> = Vec::new();
    if guard.len() < ctx.groups.len() && !stack_holds(guard, k) {
        guard.push(k);
        proof {
            assert(guard_view(guard@) =~= gd.push(k as int));
        }
        let empty_name = g.name.as_str().is_empty();
        let list_ref = if empty_name {
            &ctx.top
        } else {
            &ctx.kids[k]
        };
        proof {
            if empty_name {
                assert(g@.name =~= Seq::<char>::empty());
            }
            lemma_named_kids_facts(ps, g@.name, gs.len());
            assert forall|m: int| 0 <= m < list_ref@.len() implies #[trigger] list_ref@[m] < ctx.groups@.len() by {
                assert(crate::tree::usize_seq_view(list_ref@)[m] == list_ref@[m] as int);
            }
        }
        assert(crate::tree::usize_seq_view(list_ref@) == list);
        children = make_list(ctx, list_ref, guard);
        let _ = guard.pop();
        proof {
            assert(guard@ =~= old(guard)@);
        }
    } else {
        proof {
            assert(crate::model::forest_view(children@) =~= Seq::<NodeV>::empty());
        }
    }
    let sum = crate::tree::sum_counts(&children);
    let t = TreeNode {
        id: "n:".to_owned().concat(g.name.as_str()),
        key: g.name.clone(),
        path: if g.paths.len() > 0 {
            g.paths[0].clone()
        } else {
            String::new()
        },
        is_array: g.is_array,
        is_leaf: children.len() == 0,
        count: g.cnt,
        non_empty: g.nonempty + sum,
        types: mask_names(g.mask),
        path_ids: g.ids.clone(),
        paths: g.paths.clone(),
        children,
    };
    proof {
        crate::model::lemma_children_view(t, t.children@.len());
        assert(crate::model::forest_view(t.children@).take(t.children@.len() as int) =~= crate::model::forest_view(t.children@));
        assert(t@ =~~= name_node(gs, ps, k as int, gd));
    }
    t
}

fn make_list(ctx: &NameCtx, list: &Vec<usize>, guard: &mut Vec<usize>) -> (v: Vec<TreeNode>)
    requires
        ctx.wf(),
        groups_in_range(ctx.gs()),
        forall|m: int| 0 <= m < list@.len() ==> #[trigger] list@[m] < ctx.groups@.len(),
        list_fits(ctx.gs(), ctx.ps(), crate::tree::usize_seq_view(list@), guard_view(old(guard)@), list@.len()),
    ensures
        crate::model::forest_view(v@) == name_list(
            ctx.gs(),
            ctx.ps(),
            crate::tree::usize_seq_view(list@),
            guard_view(old(guard)@),
            list@.len(),
        ),
        final(guard)@ == old(guard)@,
    decreases ctx.groups@.len() - old(guard)@.len(), 1nat, list@.len(),
{
    let ghost gs = ctx.gs();
    let ghost ps = ctx.ps();
    let ghost gd = guard_view(guard@);
    let ghost lv = crate::tree::usize_seq_view(list@);
    let mut out: Vec<TreeNode> = Vec::new();
    let mut m: usize = 0;
    assert(crate::model::forest_view(out@) =~= name_list(gs, ps, lv, gd, 0));
    while m < list.len()
        invariant
            ctx.wf(),
            gs == ctx.gs(),
            ps == ctx.ps(),
            groups_in_range(gs),
            gd == guard_view(guard@),
            guard@ == old(guard)@,
            lv == crate::tree::usize_seq_view(list@),
            forall|i: int| 0 <= i < list@.len() ==> #[trigger] list@[i] < ctx.groups@.len(),
            list_fits(gs, ps, lv, gd, list@.len()),
            0 <= m <= list@.len(),
            crate::model::forest_view(out@) == name_list(gs, ps, lv, gd, m as nat),
        decreases list@.len() - m,
    {
        proof {
            lemma_list_fits_prefix(gs, ps, lv, gd, list@.len(), (m + 1) as nat);
        }
        let c = list[m];
        assert(lv[m as int] == c as int);
        let node = make(ctx, c, guard);
        let ghost before = out@;
        out.push(node);
        proof {
            assert(crate::model::forest_view(out@) =~= crate::model::forest_view(before).push(node@));
        }
        m = m + 1;
    }
    out
}

/// The groups of a shaped table.
pub open spec fn shape_groups(rs: Seq<RowV>) -> Seq<GroupV> {
    groups_upto(rs, rs.len())
}

/// The whole `byName` forest: the groups at the top, each with its subtree.
pub open spec fn name_forest(rs: Seq<RowV>) -> Seq<NodeV> {
    let gs = shape_groups(rs);
    let ps = final_parents(gs);
    let top = named_kids(ps, Seq::empty(), gs.len());
    name_list(gs, ps, top, Seq::empty(), top.len())
}

/// Every sum that the `byName` forest computes fits in `i64`.
pub open spec fn name_forest_fits(rs: Seq<RowV>) -> bool {
    let gs = shape_groups(rs);
    let ps = final_parents(gs);
    let top = named_kids(ps, Seq::empty(), gs.len());
    list_fits(gs, ps, top, Seq::empty(), top.len())
}

/// Every group lists one id and one path per row it merges: as many ids as
/// paths, and at least one.
pub proof fn lemma_group_lists(rs: Seq<RowV>, n: nat)
    ensures
        forall|k: int|
            0 <= k < groups_upto(rs, n).len() ==> (#[trigger] groups_upto(rs, n)[k]).ids.len()
                == groups_upto(rs, n)[k].paths.len() && groups_upto(rs, n)[k].ids.len() > 0,
    decreases n,
{
    if n > 0 {
        lemma_group_lists(rs, (n - 1) as nat);
        let gs = groups_upto(rs, (n - 1) as nat);
        if !collapses(rs, n - 1) {
            let next = row_added(gs, rs, n - 1);
            let name = group_name(rs, n - 1);
            if has_group(gs, name) {
                let c = group_index(gs, name);
                assert forall|k: int| 0 <= k < next.len() implies (#[trigger] next[k]).ids.len() == next[k].paths.len()
                    && next[k].ids.len() > 0 by {
                    if k != c {
                        assert(next[k] == gs[k]);
                    }
                }
            } else {
                assert forall|k: int| 0 <= k < next.len() implies (#[trigger] next[k]).ids.len() == next[k].paths.len()
                    && next[k].ids.len() > 0 by {
                    if k < gs.len() {
                        assert(next[k] == gs[k]);
                    }
                }
            }
        }
    }
}

/// In the `byName` tree every node lists as many path ids as paths, and at
/// least one of each, wherever it hangs.
pub proof fn lemma_name_node_lists(rs: Seq<RowV>, k: int, guard: Seq<int>)
    requires
        0 <= k < shape_groups(rs).len(),
    ensures
        name_node(shape_groups(rs), final_parents(shape_groups(rs)), k, guard).path_ids.len()
            == name_node(shape_groups(rs), final_parents(shape_groups(rs)), k, guard).paths.len(),
        name_node(shape_groups(rs), final_parents(shape_groups(rs)), k, guard).paths.len() > 0,
{
    lemma_group_lists(rs, rs.len());
    assert(shape_groups(rs)[k].ids.len() == shape_groups(rs)[k].paths.len());
}

proof fn lemma_group_nonneg(rs: Seq<RowV>, n: nat)
    requires
        crate::tree::nonempty_counts_ok(rs),
        n <= rs.len(),
    ensures
        forall|k: int| 0 <= k < groups_upto(rs, n).len() ==> (#[trigger] groups_upto(rs, n)[k]).nonempty >= 0,
    decreases n,
{
    if n > 0 {
        lemma_group_nonneg(rs, (n - 1) as nat);
        let gs = groups_upto(rs, (n - 1) as nat);
        if !collapses(rs, n - 1) {
            let next = row_added(gs, rs, n - 1);
            let name = group_name(rs, n - 1);
            assert(rs[n - 1].nonempty >= 0);
            if has_group(gs, name) {
                let c = group_index(gs, name);
                assert forall|k: int| 0 <= k < next.len() implies (#[trigger] next[k]).nonempty >= 0 by {
                    if k != c {
                        assert(next[k] == gs[k]);
                    }
                }
            } else {
                assert forall|k: int| 0 <= k < next.len() implies (#[trigger] next[k]).nonempty >= 0 by {
                    if k < gs.len() {
                        assert(next[k] == gs[k]);
                    }
                }
            }
        }
    }
}

#[verifier::spinoff_prover]
#[verifier::rlimit(30)]
proof fn lemma_name_node_nonneg(gs: Seq<GroupV>, ps: Seq<Seq<char>>, k: int, guard: Seq<int>)
    requires
        forall|j: int| 0 <= j < gs.len() ==> (#[trigger] gs[j]).nonempty >= 0,
        ps.len() == gs.len(),
        0 <= k < gs.len(),
    ensures
        name_node(gs, ps, k, guard).non_empty >= gs[k].nonempty,
        forall|c: int|
            0 <= c < name_node(gs, ps, k, guard).children.len() ==> (#[trigger] name_node(
                gs,
                ps,
                k,
                guard,
            ).children[c]).non_empty <= name_node(gs, ps, k, guard).non_empty,
    decreases gs.len() - guard.len(), 0nat, 0nat,
{
    let list = named_kids(ps, gs[k].name, gs.len());
    if guard.len() < gs.len() && !guard.contains(k) {
        lemma_named_kids_facts(ps, gs[k].name, gs.len());
        lemma_name_list_nonneg(gs, ps, list, guard.push(k), list.len());
        crate::tree::lemma_sum_covers(name_list(gs, ps, list, guard.push(k), list.len()));
    } else {
        crate::tree::lemma_sum_covers(Seq::empty());
    }
    assert(gs[k].nonempty >= 0);
}

#[verifier::spinoff_prover]
#[verifier::rlimit(30)]
proof fn lemma_name_list_nonneg(gs: Seq<GroupV>, ps: Seq<Seq<char>>, list: Seq<int>, guard: Seq<int>, m: nat)
    requires
        forall|j: int| 0 <= j < gs.len() ==> (#[trigger] gs[j]).nonempty >= 0,
        ps.len() == gs.len(),
        forall|i: int| 0 <= i < list.len() ==> 0 <= #[trigger] list[i] < gs.len(),
    ensures
        forall|x: int|
            0 <= x < name_list(gs, ps, list, guard, m).len() ==> (#[trigger] name_list(gs, ps, list, guard, m)[x]).non_empty
                >= 0,
    decreases gs.len() - guard.len(), 1nat, m,
{
    if m > 0 {
        lemma_name_list_nonneg(gs, ps, list, guard, (m - 1) as nat);
        if m <= list.len() {
            lemma_name_node_nonneg(gs, ps, list[m - 1], guard);
            assert(gs[list[m - 1]].nonempty >= 0);
            let prev = name_list(gs, ps, list, guard, (m - 1) as nat);
            let cur = name_list(gs, ps, list, guard, m);
            let node = name_node(gs, ps, list[m - 1], guard);
            assert(cur == prev.push(node));
            assert forall|x: int| 0 <= x < cur.len() implies (#[trigger] cur[x]).non_empty >= 0 by {
                if x < prev.len() {
                    assert(cur[x] == prev[x]);
                } else {
                    assert(cur[x] == node);
                }
            }
        } else {
            assert(name_list(gs, ps, list, guard, m) == name_list(gs, ps, list, guard, (m - 1) as nat));
        }
    }
}

/// In the `byName` tree a node counts at least the non-empty values of its
/// own group and at least as many as any of its children: a branch that
/// holds a value somewhere never reads as empty.
pub proof fn lemma_name_node_covers(rs: Seq<RowV>, k: int, guard: Seq<int>)
    requires
        crate::tree::nonempty_counts_ok(rs),
        0 <= k < shape_groups(rs).len(),
    ensures
        name_node(shape_groups(rs), final_parents(shape_groups(rs)), k, guard).non_empty >= shape_groups(rs)[k].nonempty,
        shape_groups(rs)[k].nonempty >= 0,
        forall|c: int|
            0 <= c < name_node(shape_groups(rs), final_parents(shape_groups(rs)), k, guard).children.len()
                ==> (#[trigger] name_node(shape_groups(rs), final_parents(shape_groups(rs)), k, guard).children[c]).non_empty
                <= name_node(shape_groups(rs), final_parents(shape_groups(rs)), k, guard).non_empty,
{
    let gs = shape_groups(rs);
    lemma_group_nonneg(rs, rs.len());
    lemma_broken_len(gs, gs.len());
    lemma_name_node_nonneg(gs, final_parents(gs), k, guard);
}

/// Builds the `byName` tree: groups rows by name, hangs every group under
/// its dominant parent, breaks cycles, then builds the nodes from the top.
pub fn build_by_name(sh: &Shape) -> (v: Vec<TreeNode>)
    requires
        sh.wf(),
        parents_present(sh.rs()),
        grouping_fits(sh.rs()),
        name_forest_fits(sh.rs()),
    ensures
        crate::model::forest_view(v@) == name_forest(sh.rs()),
{
    let ghost rs = sh.rs();
    let (groups, index) = collect_groups(sh);
    let ghost gs = groups_view(groups@);
    let n = groups.len();
    proof {
        assert(groups_in_range(groups_upto(rs, rs.len())));
    }
    // the dominant parent of each group
    let mut parents: Vec<String> = Vec::new();
    let mut k: usize = 0;
    while k < n
        invariant
            gs == groups_view(groups@),
            n == gs.len(),
            0 <= k <= n,
            names_view(parents@) == voted_parents(gs).take(k as int),
        decreases n - k,
    {
        assert(gs[k as int] == groups@[k as int]@);
        let p = best_parent_of(&groups[k].votes);
        let ghost before = parents@;
        parents.push(p);
        proof {
            assert(voted_parents(gs)[k as int] == best_parent(gs[k as int].votes));
            assert(voted_parents(gs).len() == n);
            assert(names_view(parents@) =~= names_view(before).push(p@));
            assert(voted_parents(gs).take(k + 1) =~= voted_parents(gs).take(k as int).push(voted_parents(gs)[k as int]));
            assert(names_view(parents@) =~= voted_parents(gs).take(k + 1));
        }
        k = k + 1;
    }
    proof {
        assert(voted_parents(gs).take(n as int) =~= voted_parents(gs));
    }
    // cycles are broken group by group
    let mut m: usize = 0;
    while m < n
        invariant
            gs == groups_view(groups@),
            n == gs.len(),
            groups_distinct(gs),
            index_ok(index@, gs),
            0 <= m <= n,
            parents@.len() == n,
            names_view(parents@) == broken_upto(gs, m as nat),
        decreases n - m,
    {
        proof {
            lemma_broken_len(gs, m as nat);
        }
        if !chain_ends_exec(&groups, &index, &parents, m) {
            parents.set(m, String::new());
            proof {
                assert(names_view(parents@) =~= broken_upto(gs, (m + 1) as nat));
            }
        }
        m = m + 1;
    }
    let ghost ps = names_view(parents@);
    // children lists
    let mut kids: Vec<Vec<usize>> = Vec::new();
    let mut i: usize = 0;
    while i < n
        invariant
            0 <= i <= n,
            kids@.len() == i,
            forall|j: int| 0 <= j < i ==> (#[trigger] kids@[j])@.len() == 0,
        decreases n - i,
    {
        kids.push(Vec::new());
        i = i + 1;
    }
    let mut top: Vec<usize> = Vec::new();
    let mut i: usize = 0;
    proof {
        assert forall|j: int| 0 <= j < n && gs[j].name.len() > 0 implies crate::tree::usize_seq_view(#[trigger] kids@[j]@)
            == named_kids(ps, gs[j].name, 0) by {
            assert(crate::tree::usize_seq_view(kids@[j]@) =~= Seq::<int>::empty());
        }
        assert(crate::tree::usize_seq_view(top@) =~= named_kids(ps, Seq::empty(), 0));
    }
    while i < n
        invariant
            gs == groups_view(groups@),
            ps == names_view(parents@),
            n == gs.len(),
            parents@.len() == n,
            groups_distinct(gs),
            index_ok(index@, gs),
            0 <= i <= n,
            kids@.len() == n,
            forall|j: int|
                0 <= j < n && gs[j].name.len() > 0 ==> crate::tree::usize_seq_view(#[trigger] kids@[j]@)
                    == named_kids(ps, gs[j].name, i as nat),
            crate::tree::usize_seq_view(top@) == named_kids(ps, Seq::empty(), i as nat),
        decreases n - i,
    {
        let p = &parents[i];
        assert(ps[i as int] == p@);
        let ghost old_kids = kids@;
        let ghost old_top = top@;
        if p.as_str().is_empty() {
            top.push(i);
            proof {
                assert(p@ =~= Seq::<char>::empty());
                assert(crate::tree::usize_seq_view(top@) =~= crate::tree::usize_seq_view(old_top).push(i as int));
                assert forall|j: int| 0 <= j < n && gs[j].name.len() > 0 implies crate::tree::usize_seq_view(#[trigger] kids@[j]@)
                    == named_kids(ps, gs[j].name, (i + 1) as nat) by {
                    assert(ps[i as int] != gs[j].name);
                }
            }
        } else {
            match index.get(p.as_str()) {
                Some(j) => {
                    let j = *j;
                    let mut list = Vec::new();
                    std::mem::swap(&mut list, &mut kids[j]);
                    list.push(i);
                    kids.set(j, list);
                    proof {
                        assert(gs[j as int].name == p@);
                        assert(crate::tree::usize_seq_view(kids@[j as int]@) =~= crate::tree::usize_seq_view(old_kids[j as int]@).push(i as int));
                        assert forall|l: int| 0 <= l < n && gs[l].name.len() > 0 implies crate::tree::usize_seq_view(#[trigger] kids@[l]@)
                            == named_kids(ps, gs[l].name, (i + 1) as nat) by {
                            if l != j {
                                assert(kids@[l] == old_kids[l]);
                                assert(gs[l].name != gs[j as int].name);
                            }
                        }
                        assert(crate::tree::usize_seq_view(top@) == named_kids(ps, Seq::empty(), (i + 1) as nat));
                    }
                },
                None => {
                    proof {
                        assert(!has_group(gs, p@));
                        assert forall|l: int| 0 <= l < n && gs[l].name.len() > 0 implies crate::tree::usize_seq_view(#[trigger] kids@[l]@)
                            == named_kids(ps, gs[l].name, (i + 1) as nat) by {
                            if gs[l].name == p@ {
                                assert(has_group(gs, p@));
                            }
                        }
                    }
                },
            }
        }
        i = i + 1;
    }
    let ctx = NameCtx { groups, parents, kids, top };
    let mut guard: Vec<usize> = Vec::new();
    proof {
        lemma_named_kids_facts(ps, Seq::empty(), n as nat);
        assert(guard_view(guard@) =~= Seq::<int>::empty());
        assert forall|m: int| 0 <= m < ctx.top@.len() implies #[trigger] ctx.top@[m] < ctx.groups@.len() by {
            assert(crate::tree::usize_seq_view(ctx.top@)[m] == ctx.top@[m] as int);
        }
    }
    make_list(&ctx, &ctx.top, &mut guard)
}

} // verus!
