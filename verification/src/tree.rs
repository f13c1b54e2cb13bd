//! The structure tree, built from the rows of the paths table, and its
//! Markdown rendering.
//!
//! Two modes:
//!   * `byPath`: a node per canonical path; `user.name` and `order.name` differ.
//!   * `byName`: a node per key name; every `name` from anywhere is one node,
//!     hung under its most frequent parent; the other paths show in `paths`.

use vstd::prelude::*;

use crate::db::{mask_labels, mask_names, string_views, M_BOOL, M_NULL, M_NUM, M_STR};
use crate::model::{NodeV, TreeNode};
use crate::model::ScanSummary;
use crate::text::{decimal, fmt_int, grouped_int, push_decimal, signed_decimal, str_equal};
use vstd::string::*;

verus! {

/// Scalar types: an array whose elements include these keeps its `[]` node.
pub const SCALAR_MASK: i64 = M_NULL | M_BOOL | M_NUM | M_STR;

/// One row of the paths table.
pub struct Row {
    pub id: i64,
    pub path: String,
    pub parent: Option<i64>,
    pub key: String,
    pub is_array: bool,
    pub cnt: i64,
    pub nonempty: i64,
    pub mask: i64,
}

/// The mathematical content of a [`Row`].
pub struct RowV {
    pub id: i64,
    pub path: Seq<char>,
    pub parent: Option<i64>,
    pub key: Seq<char>,
    pub is_array: bool,
    pub cnt: i64,
    pub nonempty: i64,
    pub mask: i64,
}

impl View for Row {
    type V = RowV;

    open spec fn view(&self) -> RowV {
        RowV {
            id: self.id,
            path: self.path@,
            parent: self.parent,
            key: self.key@,
            is_array: self.is_array,
            cnt: self.cnt,
            nonempty: self.nonempty,
            mask: self.mask,
        }
    }
}

pub open spec fn rows_of(v: Seq<Row>) -> Seq<RowV> {
    v.map_values(|r: Row| r@)
}

/// The rows form a table keyed by id (listed by increasing id), and every
/// parent was created before its children, so has a smaller id.
pub open spec fn rows_ok(rs: Seq<RowV>) -> bool {
    &&& forall|i: int, j: int| 0 <= i < j < rs.len() ==> rs[i].id < rs[j].id
    &&& forall|i: int|
        0 <= i < rs.len() ==> ((#[trigger] rs[i]).parent matches Some(p) ==> p < rs[i].id)
}

pub open spec fn has_id(rs: Seq<RowV>, id: i64) -> bool {
    exists|i: int| 0 <= i < rs.len() && #[trigger] rs[i].id == id
}

/// The position of the row with id `id` (when there is one).
pub open spec fn position_of(rs: Seq<RowV>, id: i64) -> int {
    choose|i: int| 0 <= i < rs.len() && #[trigger] rs[i].id == id
}

pub open spec fn has_child(rs: Seq<RowV>, id: i64) -> bool {
    exists|j: int| 0 <= j < rs.len() && #[trigger] rs[j].parent == Some(id)
}

/// A `[]` node whose elements are only objects or arrays is folded away:
/// its children move up to the array itself.
pub open spec fn collapses(rs: Seq<RowV>, i: int) -> bool {
    &&& rs[i].key == "[]"@
    &&& has_child(rs, rs[i].id)
    &&& rs[i].mask & SCALAR_MASK == 0
}

pub open spec fn collapsed_id(rs: Seq<RowV>, id: i64) -> bool {
    has_id(rs, id) && collapses(rs, position_of(rs, id))
}

/// The nearest ancestor, from `p` up, that is not folded away.
pub open spec fn eff_up(rs: Seq<RowV>, p: Option<i64>) -> Option<i64>
    decreases (match p {
        Some(q) => q - i64::MIN,
        None => 0,
    }),
{
    match p {
        None => None,
        Some(q) => if collapsed_id(rs, q) {
            match rs[position_of(rs, q)].parent {
                Some(r) => if r < q {
                    eff_up(rs, Some(r))
                } else {
                    Some(r)
                },
                None => None,
            }
        } else {
            Some(q)
        },
    }
}

/// The parent of row `i` in the tree after folding.
pub open spec fn eff_parent(rs: Seq<RowV>, i: int) -> Option<i64> {
    eff_up(rs, rs[i].parent)
}

/// Row `j` shows in the tree directly under `parent` (`None`: at the top).
pub open spec fn shows_under(rs: Seq<RowV>, j: int, parent: Option<i64>) -> bool {
    !collapses(rs, j) && eff_parent(rs, j) == parent
}

/// The positions below `n` of the rows shown directly under `parent`, in
/// increasing order.
pub open spec fn kid_seq(rs: Seq<RowV>, parent: Option<i64>, n: nat) -> Seq<int>
    decreases n,
{
    if n == 0 {
        Seq::empty()
    } else {
        let prev = kid_seq(rs, parent, (n - 1) as nat);
        if shows_under(rs, n - 1, parent) {
            prev.push(n - 1)
        } else {
            prev
        }
    }
}

pub open spec fn usize_seq_view(v: Seq<usize>) -> Seq<int> {
    v.map_values(|x: usize| x as int)
}

/// The rows with the structure after folding.
pub struct Shape {
    pub rows: Vec<Row>,
    /// The `[]` nodes that are folded away.
    pub collapsed: Vec<bool>,
    /// The parent of each row after folding.
    pub eff: Vec<Option<i64>>,
    /// Positions of the children of each row, in increasing order.
    pub kids: Vec<Vec<usize>>,
    /// Positions of the rows at the top of the tree, in increasing order.
    pub roots: Vec<usize>,
}

impl Shape {
    pub open spec fn rs(&self) -> Seq<RowV> {
        rows_of(self.rows@)
    }

    pub open spec fn wf(&self) -> bool {
        let rs = self.rs();
        &&& rows_ok(rs)
        &&& self.collapsed@.len() == rs.len()
        &&& self.kids@.len() == rs.len()
        &&& forall|i: int| 0 <= i < rs.len() ==> #[trigger] self.collapsed@[i] == collapses(rs, i)
        &&& self.eff@.len() == rs.len()
        &&& forall|i: int| 0 <= i < rs.len() ==> #[trigger] self.eff@[i] == eff_parent(rs, i)
        &&& forall|i: int|
            0 <= i < rs.len() ==> usize_seq_view(#[trigger] self.kids@[i]@) == kid_seq(
                rs,
                Some(rs[i].id),
                rs.len(),
            )
        &&& usize_seq_view(self.roots@) == kid_seq(rs, None, rs.len())
    }
}

/// Binary search of the row with id `id`.
pub fn find_row(rows: &Vec<Row>, id: i64) -> (r: Option<usize>)
    requires
        rows_ok(rows_of(rows@)),
    ensures
        r matches Some(i) ==> i < rows@.len() && rows@[i as int].id == id,
        r is None ==> !has_id(rows_of(rows@), id),
{
    let ghost rs = rows_of(rows@);
    let mut lo: usize = 0;
    let mut hi: usize = rows.len();
    while lo < hi
        invariant
            rs == rows_of(rows@),
            rows_ok(rs),
            0 <= lo <= hi <= rows@.len(),
            forall|i: int| 0 <= i < lo ==> #[trigger] rs[i].id < id,
            forall|i: int| hi <= i < rows@.len() ==> #[trigger] rs[i].id > id,
        decreases hi - lo,
    {
        let mid = lo + (hi - lo) / 2;
        let m = rows[mid].id;
        assert(rs[mid as int].id == m);
        if m == id {
            return Some(mid);
        } else if m < id {
            lo = mid + 1;
        } else {
            hi = mid;
        }
    }
    proof {
        if has_id(rs, id) {
            let i = choose|i: int| 0 <= i < rs.len() && #[trigger] rs[i].id == id;
            assert(rs[i].id == id);
        }
    }
    None
}

pub proof fn lemma_position_unique(rs: Seq<RowV>, i: int)
    requires
        rows_ok(rs),
        0 <= i < rs.len(),
    ensures
        has_id(rs, rs[i].id),
        position_of(rs, rs[i].id) == i,
{
    assert(rs[i].id == rs[i].id);
    let c = position_of(rs, rs[i].id);
    if c < i {
        assert(rs[c].id < rs[i].id);
    } else if c > i {
        assert(rs[i].id < rs[c].id);
    }
}

proof fn lemma_eff_parent_step(rs: Seq<RowV>, i: int, pq: int)
    requires
        rows_ok(rs),
        0 <= i < rs.len(),
        0 <= pq < rs.len(),
        rs[i].parent == Some(rs[pq].id),
        collapses(rs, pq),
    ensures
        eff_parent(rs, i) == eff_parent(rs, pq),
{
    lemma_position_unique(rs, pq);
    let q = rs[pq].id;
    assert(collapsed_id(rs, q));
    match rs[pq].parent {
        Some(r) => {
            assert(r < q);
        },
        None => {},
    }
}

/// The ids up from `p` through folded nodes only grow smaller.
pub proof fn lemma_eff_up_below(rs: Seq<RowV>, p: Option<i64>)
    requires
        rows_ok(rs),
    ensures
        p matches Some(q) ==> (eff_up(rs, p) matches Some(e) ==> e <= q),
    decreases (match p {
        Some(q) => q - i64::MIN,
        None => 0,
    }),
{
    match p {
        None => {},
        Some(q) => {
            if collapsed_id(rs, q) {
                let pq = position_of(rs, q);
                match rs[pq].parent {
                    Some(r) => {
                        assert(r < rs[pq].id);
                        lemma_eff_up_below(rs, Some(r));
                    },
                    None => {},
                }
            }
        },
    }
}

/// A row shown under another row sits after it.
pub proof fn lemma_kid_after(rs: Seq<RowV>, p: int, j: int)
    requires
        rows_ok(rs),
        0 <= p < rs.len(),
        0 <= j < rs.len(),
        shows_under(rs, j, Some(rs[p].id)),
    ensures
        p < j,
{
    lemma_eff_up_below(rs, rs[j].parent);
    if j <= p {
        if j < p {
            assert(rs[j].id < rs[p].id);
        }
    }
}

pub proof fn lemma_kid_seq_facts(rs: Seq<RowV>, parent: Option<i64>, n: nat)
    requires
        n <= rs.len(),
    ensures
        forall|k: int|
            0 <= k < kid_seq(rs, parent, n).len() ==> 0 <= #[trigger] kid_seq(rs, parent, n)[k] < n
                && shows_under(rs, kid_seq(rs, parent, n)[k], parent),
        forall|k: int, l: int|
            0 <= k < l < kid_seq(rs, parent, n).len() ==> #[trigger] kid_seq(rs, parent, n)[k]
                < #[trigger] kid_seq(rs, parent, n)[l],
    decreases n,
{
    if n > 0 {
        lemma_kid_seq_facts(rs, parent, (n - 1) as nat);
        let prev = kid_seq(rs, parent, (n - 1) as nat);
        let cur = kid_seq(rs, parent, n);
        if shows_under(rs, n - 1, parent) {
            assert(cur == prev.push(n - 1));
            assert forall|k: int| 0 <= k < cur.len() implies 0 <= #[trigger] cur[k] < n && shows_under(rs, cur[k], parent) by {
                if k < prev.len() {
                    assert(cur[k] == prev[k]);
                }
            }
            assert forall|k: int, l: int| 0 <= k < l < cur.len() implies #[trigger] cur[k] < #[trigger] cur[l] by {
                assert(cur[k] == prev[k]);
                if l < prev.len() {
                    assert(cur[l] == prev[l]);
                }
            }
        }
    }
}

fn set_at<T>(v: &mut Vec<T>, i: usize, x: T)
    requires
        i < old(v)@.len(),
    ensures
        final(v)@ == old(v)@.update(i as int, x),
{
    v.set(i, x);
}

/// Folds the `[]` nodes of arrays of objects and computes the tree after
/// folding: the children of every row and the top rows.
pub fn shape(rows: Vec<Row>) -> (sh: Shape)
    requires
        rows_ok(rows_of(rows@)),
    ensures
        sh.wf(),
        sh.rs() == rows_of(rows@),
{
    let ghost rs = rows_of(rows@);
    let n = rows.len();
    proof {
        assert forall|k: int| 0 <= k < n implies rs[k] == rows@[k]@ by {}
    }
    // which rows have children at all
    let mut has_kid: Vec<bool> = Vec::new();
    let mut i: usize = 0;
    while i < n
        invariant
            i <= n,
            n == rows@.len(),
            has_kid@.len() == i,
            forall|k: int| 0 <= k < i ==> !#[trigger] has_kid@[k],
        decreases n - i,
    {
        has_kid.push(false);
        i = i + 1;
    }
    let mut j: usize = 0;
    while j < n
        invariant
            j <= n,
            n == rows@.len(),
            rs == rows_of(rows@),
            rows_ok(rs),
            has_kid@.len() == n,
            forall|k: int|
                0 <= k < n ==> #[trigger] has_kid@[k] == exists|m: int|
                    0 <= m < j && #[trigger] rs[m].parent == Some(rs[k].id),
        decreases n - j,
    {
        assert(rs[j as int] == rows@[j as int]@);
        if let Some(p) = rows[j].parent {
            if let Some(pp) = find_row(&rows, p) {
                set_at(&mut has_kid, pp, true);
                proof {
                    assert forall|k: int| 0 <= k < n implies #[trigger] has_kid@[k] == exists|m: int|
                        0 <= m < j + 1 && #[trigger] rs[m].parent == Some(rs[k].id) by {
                        if k == pp {
                            assert(rs[j as int].parent == Some(rs[k].id));
                        } else {
                            if exists|m: int| 0 <= m < j + 1 && #[trigger] rs[m].parent == Some(rs[k].id) {
                                let m = choose|m: int| 0 <= m < j + 1 && #[trigger] rs[m].parent == Some(rs[k].id);
                                if m == j {
                                    assert(rs[pp as int].id == p);
                                    assert(rs[k].id == p);
                                    if k < pp { assert(rs[k].id < rs[pp as int].id); }
                                    if k > pp { assert(rs[pp as int].id < rs[k].id); }
                                }
                            }
                        }
                    }
                }
            } else {
                proof {
                    assert forall|k: int| 0 <= k < n implies #[trigger] has_kid@[k] == exists|m: int|
                        0 <= m < j + 1 && #[trigger] rs[m].parent == Some(rs[k].id) by {
                        if exists|m: int| 0 <= m < j + 1 && #[trigger] rs[m].parent == Some(rs[k].id) {
                            let m = choose|m: int| 0 <= m < j + 1 && #[trigger] rs[m].parent == Some(rs[k].id);
                            if m == j {
                                assert(rs[k].id == p);
                                assert(has_id(rs, p));
                            }
                        }
                    }
                }
            }
        } else {
            proof {
                assert forall|k: int| 0 <= k < n implies #[trigger] has_kid@[k] == exists|m: int|
                    0 <= m < j + 1 && #[trigger] rs[m].parent == Some(rs[k].id) by {
                    if exists|m: int| 0 <= m < j + 1 && #[trigger] rs[m].parent == Some(rs[k].id) {
                        let m = choose|m: int| 0 <= m < j + 1 && #[trigger] rs[m].parent == Some(rs[k].id);
                        assert(m != j);
                    }
                }
            }
        }
        j = j + 1;
    }
    // the folded nodes
    let mut collapsed: Vec<bool> = Vec::new();
    let mut i: usize = 0;
    while i < n
        invariant
            i <= n,
            n == rows@.len(),
            rs == rows_of(rows@),
            has_kid@.len() == n,
            forall|k: int| 0 <= k < n ==> #[trigger] has_kid@[k] == has_child(rs, rs[k].id),
            collapsed@.len() == i,
            forall|k: int| 0 <= k < i ==> #[trigger] collapsed@[k] == collapses(rs, k),
        decreases n - i,
    {
        assert(rs[i as int] == rows@[i as int]@);
        let c = str_equal(rows[i].key.as_str(), "[]") && has_kid[i] && (rows[i].mask & SCALAR_MASK) == 0;
        collapsed.push(c);
        i = i + 1;
    }
    // the parent of each row after folding, in increasing order of ids
    let mut eff: Vec<Option<i64>> = Vec::new();
    let mut i: usize = 0;
    while i < n
        invariant
            i <= n,
            n == rows@.len(),
            rs == rows_of(rows@),
            rows_ok(rs),
            collapsed@.len() == n,
            forall|k: int| 0 <= k < n ==> #[trigger] collapsed@[k] == collapses(rs, k),
            eff@.len() == i,
            forall|k: int| 0 <= k < i ==> #[trigger] eff@[k] == eff_parent(rs, k),
        decreases n - i,
    {
        assert(rs[i as int] == rows@[i as int]@);
        let e = match rows[i].parent {
            None => None,
            Some(q) => match find_row(&rows, q) {
                Some(pq) => {
                    if collapsed[pq] {
                        proof {
                            assert(rs[pq as int].id == q);
                            if pq >= i {
                                if pq > i { assert(rs[i as int].id < rs[pq as int].id); }
                            }
                            lemma_eff_parent_step(rs, i as int, pq as int);
                        }
                        eff[pq]
                    } else {
                        proof {
                            lemma_position_unique(rs, pq as int);
                        }
                        Some(q)
                    }
                },
                None => Some(q),
            },
        };
        eff.push(e);
        i = i + 1;
    }
    // children lists and top rows
    let mut kids: Vec<Vec<usize>> = Vec::new();
    let mut i: usize = 0;
    while i < n
        invariant
            i <= n,
            kids@.len() == i,
            forall|k: int| 0 <= k < i ==> (#[trigger] kids@[k])@.len() == 0,
        decreases n - i,
    {
        kids.push(Vec::new());
        i = i + 1;
    }
    let mut roots: Vec<usize> = Vec::new();
    let mut j: usize = 0;
    proof {
        assert forall|k: int| 0 <= k < n implies usize_seq_view(#[trigger] kids@[k]@) == kid_seq(
            rs, Some(rs[k].id), 0) by {
            assert(usize_seq_view(kids@[k]@) =~= Seq::<int>::empty());
        }
        assert(usize_seq_view(roots@) =~= kid_seq(rs, None, 0));
    }
    while j < n
        invariant
            j <= n,
            n == rows@.len(),
            rs == rows_of(rows@),
            rows_ok(rs),
            collapsed@.len() == n,
            forall|k: int| 0 <= k < n ==> #[trigger] collapsed@[k] == collapses(rs, k),
            eff@.len() == n,
            forall|k: int| 0 <= k < n ==> #[trigger] eff@[k] == eff_parent(rs, k),
            kids@.len() == n,
            forall|k: int|
                0 <= k < n ==> usize_seq_view(#[trigger] kids@[k]@) == kid_seq(rs, Some(rs[k].id), j as nat),
            usize_seq_view(roots@) == kid_seq(rs, None, j as nat),
        decreases n - j,
    {
        let ghost old_kids = kids@;
        let ghost old_roots = roots@;
        if !collapsed[j] {
            match eff[j] {
                None => {
                    roots.push(j);
                    proof {
                        assert(usize_seq_view(roots@) =~= usize_seq_view(old_roots).push(j as int));
                    }
                },
                Some(q) => {
                    if let Some(pq) = find_row(&rows, q) {
                        let mut list = Vec::new();
                        std::mem::swap(&mut list, &mut kids[pq]);
                        list.push(j);
                        kids.set(pq, list);
                        proof {
                            assert(rs[pq as int].id == q);
                            assert(usize_seq_view(kids@[pq as int]@) =~= usize_seq_view(old_kids[pq as int]@).push(j as int));
                            assert forall|k: int| 0 <= k < n && k != pq implies usize_seq_view(#[trigger] kids@[k]@) == kid_seq(rs, Some(rs[k].id), (j + 1) as nat) by {
                                assert(kids@[k] == old_kids[k]);
                                if rs[k].id == q {
                                    if k < pq { assert(rs[k].id < rs[pq as int].id); }
                                    if k > pq { assert(rs[pq as int].id < rs[k].id); }
                                }
                            }
                        }
                    } else {
                        proof {
                            assert forall|k: int| 0 <= k < n implies usize_seq_view(#[trigger] kids@[k]@) == kid_seq(rs, Some(rs[k].id), (j + 1) as nat) by {
                                if rs[k].id == q {
                                    assert(has_id(rs, q));
                                }
                            }
                        }
                    }
                },
            }
        }
        j = j + 1;
    }
    proof {
        assert forall|k: int| 0 <= k < n implies #[trigger] has_kid@[k] == has_child(rs, rs[k].id) by {
        }
    }
    Shape { rows, collapsed, eff, kids, roots }
}

/// Positions of the rows shown under row `pi` (`pi < 0`: at the top).
pub open spec fn kids_of(rs: Seq<RowV>, pi: int) -> Seq<int> {
    if pi < 0 {
        kid_seq(rs, None, rs.len())
    } else {
        kid_seq(rs, Some(rs[pi].id), rs.len())
    }
}

/// The sum of the `non_empty` counts of some nodes.
pub open spec fn sum_non_empty(ns: Seq<NodeV>) -> int
    decreases ns.len(),
{
    if ns.len() == 0 {
        0
    } else {
        sum_non_empty(ns.drop_last()) + ns.last().non_empty
    }
}

pub open spec fn in_i64(x: int) -> bool {
    i64::MIN <= x <= i64::MAX
}

/// Summing the counts of the nodes from the first on never leaves `i64`.
pub open spec fn prefix_sums_fit(ns: Seq<NodeV>) -> bool {
    forall|k: int| 0 <= k <= ns.len() ==> in_i64(#[trigger] sum_non_empty(ns.take(k)))
}

/// The `byPath` node of row `i`: its own counters, and its children in
/// increasing order of id; `non_empty` adds up the whole subtree.
pub open spec fn path_node(rs: Seq<RowV>, i: int) -> NodeV
    decreases rs.len() - i, 1nat, 0nat,
{
    let kids = path_kids(rs, i, kids_of(rs, i).len());
    NodeV {
        id: "p"@ + signed_decimal(rs[i].id as int),
        key: rs[i].key,
        path: rs[i].path,
        is_array: rs[i].is_array,
        is_leaf: kids.len() == 0,
        count: rs[i].cnt,
        non_empty: rs[i].nonempty + sum_non_empty(kids),
        types: mask_labels(rs[i].mask),
        path_ids: seq![rs[i].id],
        paths: seq![rs[i].path],
        children: kids,
    }
}

/// The `byPath` nodes of the first `k` rows shown under row `pi`.
pub open spec fn path_kids(rs: Seq<RowV>, pi: int, k: nat) -> Seq<NodeV>
    decreases rs.len() - pi, 0nat, k,
{
    if k == 0 {
        Seq::empty()
    } else {
        let prev = path_kids(rs, pi, (k - 1) as nat);
        let ks = kids_of(rs, pi);
        if k <= ks.len() && pi < ks[k - 1] < rs.len() {
            prev.push(path_node(rs, ks[k - 1]))
        } else {
            prev
        }
    }
}

/// Every count that the `byPath` node of row `i` adds up fits in `i64`.
pub open spec fn path_fits(rs: Seq<RowV>, i: int) -> bool
    decreases rs.len() - i, 1nat, 0nat,
{
    let kids = path_kids(rs, i, kids_of(rs, i).len());
    &&& kids_fit(rs, i, kids_of(rs, i).len())
    &&& prefix_sums_fit(kids)
    &&& in_i64(rs[i].nonempty + sum_non_empty(kids))
}

pub open spec fn kids_fit(rs: Seq<RowV>, pi: int, k: nat) -> bool
    decreases rs.len() - pi, 0nat, k,
{
    if k == 0 {
        true
    } else {
        let ks = kids_of(rs, pi);
        &&& kids_fit(rs, pi, (k - 1) as nat)
        &&& (k <= ks.len() && pi < ks[k - 1] < rs.len()) ==> path_fits(rs, ks[k - 1])
    }
}

proof fn lemma_kids_fit_prefix(rs: Seq<RowV>, pi: int, k: nat, m: nat)
    requires
        kids_fit(rs, pi, k),
        m <= k,
    ensures
        kids_fit(rs, pi, m),
    decreases k,
{
    if m < k {
        lemma_kids_fit_prefix(rs, pi, (k - 1) as nat, m);
    }
}

pub proof fn lemma_kids_in_order(rs: Seq<RowV>, pi: int)
    requires
        rows_ok(rs),
        pi < rs.len(),
    ensures
        forall|k: int|
            0 <= k < kids_of(rs, pi).len() ==> pi < #[trigger] kids_of(rs, pi)[k] < rs.len(),
{
    if pi < 0 {
        lemma_kid_seq_facts(rs, None, rs.len());
    } else {
        lemma_kid_seq_facts(rs, Some(rs[pi].id), rs.len());
        assert forall|k: int| 0 <= k < kids_of(rs, pi).len() implies pi < #[trigger] kids_of(rs, pi)[k] < rs.len() by {
            lemma_kid_after(rs, pi, kids_of(rs, pi)[k]);
        }
    }
}

/// A sum of counts that are not negative is not negative, and not smaller
/// than any of them.
pub proof fn lemma_sum_covers(ns: Seq<NodeV>)
    requires
        forall|m: int| 0 <= m < ns.len() ==> (#[trigger] ns[m]).non_empty >= 0,
    ensures
        sum_non_empty(ns) >= 0,
        forall|m: int| 0 <= m < ns.len() ==> (#[trigger] ns[m]).non_empty <= sum_non_empty(ns),
    decreases ns.len(),
{
    if ns.len() > 0 {
        let d = ns.drop_last();
        assert forall|m: int| 0 <= m < d.len() implies (#[trigger] d[m]).non_empty >= 0 by {
            assert(d[m] == ns[m]);
        }
        lemma_sum_covers(d);
        assert forall|m: int| 0 <= m < ns.len() implies (#[trigger] ns[m]).non_empty <= sum_non_empty(ns) by {
            if m < d.len() {
                assert(d[m] == ns[m]);
            }
        }
    }
}

/// No row counts a negative number of non-empty values.
pub open spec fn nonempty_counts_ok(rs: Seq<RowV>) -> bool {
    forall|j: int| 0 <= j < rs.len() ==> (#[trigger] rs[j]).nonempty >= 0
}

/// In the `byPath` tree a node counts at least the non-empty values of its
/// own path and at least as many as any of its children: a branch that
/// holds a value somewhere never reads as empty.
pub proof fn lemma_path_node_covers(rs: Seq<RowV>, i: int)
    requires
        nonempty_counts_ok(rs),
        0 <= i < rs.len(),
    ensures
        path_node(rs, i).non_empty >= rs[i].nonempty,
        forall|c: int|
            0 <= c < path_node(rs, i).children.len() ==> (#[trigger] path_node(rs, i).children[c]).non_empty
                <= path_node(rs, i).non_empty,
    decreases rs.len() - i, 1nat, 0nat,
{
    let kids = path_kids(rs, i, kids_of(rs, i).len());
    lemma_path_kids_nonneg(rs, i, kids_of(rs, i).len());
    lemma_sum_covers(kids);
    assert(rs[i].nonempty >= 0);
}

proof fn lemma_path_kids_nonneg(rs: Seq<RowV>, pi: int, k: nat)
    requires
        nonempty_counts_ok(rs),
        -1 <= pi < rs.len(),
    ensures
        forall|m: int| 0 <= m < path_kids(rs, pi, k).len() ==> (#[trigger] path_kids(rs, pi, k)[m]).non_empty >= 0,
    decreases rs.len() - pi, 0nat, k,
{
    if k > 0 {
        lemma_path_kids_nonneg(rs, pi, (k - 1) as nat);
        let prev = path_kids(rs, pi, (k - 1) as nat);
        let ks = kids_of(rs, pi);
        if k <= ks.len() && pi < ks[k - 1] < rs.len() {
            lemma_path_node_covers(rs, ks[k - 1]);
            assert(rs[ks[k - 1]].nonempty >= 0);
            let cur = path_kids(rs, pi, k);
            assert forall|m: int| 0 <= m < cur.len() implies (#[trigger] cur[m]).non_empty >= 0 by {
                if m < prev.len() {
                    assert(cur[m] == prev[m]);
                }
            }
        }
    }
}

/// Adds up the `non_empty` counts of the nodes.
pub fn sum_counts(ns: &Vec<TreeNode>) -> (s: i64)
    requires
        prefix_sums_fit(crate::model::forest_view(ns@)),
    ensures
        s == sum_non_empty(crate::model::forest_view(ns@)),
{
    let ghost f = crate::model::forest_view(ns@);
    let mut s: i64 = 0;
    let mut k: usize = 0;
    assert(f.take(0) =~= Seq::<NodeV>::empty());
    while k < ns.len()
        invariant
            f == crate::model::forest_view(ns@),
            prefix_sums_fit(f),
            0 <= k <= ns@.len(),
            s == sum_non_empty(f.take(k as int)),
        decreases ns@.len() - k,
    {
        assert(f.take(k + 1).drop_last() =~= f.take(k as int));
        assert(in_i64(sum_non_empty(f.take(k + 1))));
        assert(f[k as int] == ns@[k as int]@);
        s = s + ns[k].non_empty;
        k = k + 1;
    }
    assert(f.take(ns@.len() as int) =~= f);
    s
}

fn by_path_node(sh: &Shape, i: usize) -> (t: TreeNode)
    requires
        sh.wf(),
        i < sh.rows@.len(),
        path_fits(sh.rs(), i as int),
    ensures
        t@ == path_node(sh.rs(), i as int),
    decreases sh.rows@.len() - i, 1nat,
{
    let ghost rs = sh.rs();
    let children = build_by_path(sh, Some(i));
    let row = &sh.rows[i];
    assert(rs[i as int] == row@);
    let sum = sum_counts(&children);
    let t = TreeNode {
        id: crate::text::prefixed_number("p", row.id),
        key: row.key.clone(),
        path: row.path.clone(),
        is_array: row.is_array,
        is_leaf: children.len() == 0,
        count: row.cnt,
        non_empty: row.nonempty + sum,
        types: mask_names(row.mask),
        path_ids: vec![row.id],
        paths: vec![row.path.clone()],
        children,
    };
    proof {
        crate::model::lemma_children_view(t, t.children@.len());
        assert(crate::model::forest_view(t.children@).take(t.children@.len() as int) =~= crate::model::forest_view(t.children@));
        assert(t.path_ids@ =~= seq![rs[i as int].id]);
        assert(string_views(t.paths@) =~= seq![rs[i as int].path]);
        assert(t@ =~~= path_node(rs, i as int));
    }
    t
}

fn build_by_path(sh: &Shape, parent: Option<usize>) -> (v: Vec<TreeNode>)
    requires
        sh.wf(),
        parent matches Some(p) ==> p < sh.rows@.len(),
        kids_fit(
            sh.rs(),
            match parent { Some(p) => p as int, None => -1 },
            kids_of(sh.rs(), match parent { Some(p) => p as int, None => -1 }).len(),
        ),
    ensures
        crate::model::forest_view(v@) == path_kids(
            sh.rs(),
            match parent { Some(p) => p as int, None => -1 },
            kids_of(sh.rs(), match parent { Some(p) => p as int, None => -1 }).len(),
        ),
    decreases sh.rows@.len() - match parent { Some(p) => p as int, None => -1 }, 0nat,
{
    let ghost rs = sh.rs();
    let ghost pi: int = match parent { Some(p) => p as int, None => -1 };
    let list = match parent {
        Some(p) => &sh.kids[p],
        None => &sh.roots,
    };
    assert(usize_seq_view(list@) == kids_of(rs, pi));
    proof {
        lemma_kids_in_order(rs, pi);
    }
    let mut out: Vec<TreeNode> = Vec::new();
    let mut k: usize = 0;
    assert(crate::model::forest_view(out@) =~= path_kids(rs, pi, 0));
    while k < list.len()
        invariant
            sh.wf(),
            rs == sh.rs(),
            pi == match parent { Some(p) => p as int, None => -1 },
            pi < rs.len(),
            usize_seq_view(list@) == kids_of(rs, pi),
            forall|m: int| 0 <= m < kids_of(rs, pi).len() ==> pi < #[trigger] kids_of(rs, pi)[m] < rs.len(),
            kids_fit(rs, pi, kids_of(rs, pi).len()),
            0 <= k <= list@.len(),
            crate::model::forest_view(out@) == path_kids(rs, pi, k as nat),
        decreases list@.len() - k,
    {
        let c = list[k];
        assert(kids_of(rs, pi)[k as int] == c as int);
        proof {
            lemma_kids_fit_prefix(rs, pi, kids_of(rs, pi).len(), (k + 1) as nat);
        }
        let node = by_path_node(sh, c);
        let ghost before = out@;
        out.push(node);
        proof {
            assert(crate::model::forest_view(out@) =~= crate::model::forest_view(before).push(node@));
        }
        k = k + 1;
    }
    out
}

/// When every parent is a row of the table, so is every parent after folding.
pub proof fn lemma_eff_present(rs: Seq<RowV>, i: int)
    requires
        rows_ok(rs),
        0 <= i < rs.len(),
        forall|k: int|
            0 <= k < rs.len() ==> ((#[trigger] rs[k]).parent matches Some(p) ==> has_id(rs, p)),
    ensures
        eff_parent(rs, i) matches Some(p) ==> has_id(rs, p),
{
    lemma_eff_up_present(rs, rs[i].parent);
}

proof fn lemma_eff_up_present(rs: Seq<RowV>, p: Option<i64>)
    requires
        rows_ok(rs),
        forall|k: int|
            0 <= k < rs.len() ==> ((#[trigger] rs[k]).parent matches Some(p) ==> has_id(rs, p)),
        p matches Some(q) ==> has_id(rs, q),
    ensures
        eff_up(rs, p) matches Some(e) ==> has_id(rs, e),
    decreases (match p {
        Some(q) => q - i64::MIN,
        None => 0,
    }),
{
    match p {
        None => {},
        Some(q) => {
            if collapsed_id(rs, q) {
                let pq = position_of(rs, q);
                match rs[pq].parent {
                    Some(r) => {
                        assert(r < rs[pq].id);
                        lemma_eff_up_present(rs, Some(r));
                    },
                    None => {},
                }
            }
        },
    }
}

/// The tree in the mode asked for: `byPath` gives one node per canonical
/// path, any other mode one node per key name.
pub open spec fn tree_spec(rs: Seq<RowV>, mode: Seq<char>) -> Seq<NodeV> {
    if mode == "byPath"@ {
        path_kids(rs, -1, kids_of(rs, -1).len())
    } else {
        crate::groups::name_forest(rs)
    }
}

/// What building the tree needs of the rows, besides `rows_ok`: that every
/// count it adds up fits in `i64` (and, by name, that parents are rows).
pub open spec fn tree_fits(rs: Seq<RowV>, mode: Seq<char>) -> bool {
    if mode == "byPath"@ {
        kids_fit(rs, -1, kids_of(rs, -1).len())
    } else {
        &&& crate::groups::parents_present(rs)
        &&& crate::groups::grouping_fits(rs)
        &&& crate::groups::name_forest_fits(rs)
    }
}

/// Whether rows read back from the paths table can be built into a tree:
/// listed by increasing id, every parent an earlier row of the table.
pub fn rows_valid(rows: &Vec<Row>) -> (r: bool)
    ensures
        r == (rows_ok(rows_of(rows@)) && crate::groups::parents_present(rows_of(rows@))),
{
    let ghost rs = rows_of(rows@);
    let mut i: usize = 0;
    while i < rows.len()
        invariant
            rs == rows_of(rows@),
            0 <= i <= rows@.len(),
            forall|a: int, b: int| 0 <= a < b < i ==> rs[a].id < rs[b].id,
            forall|a: int| 0 <= a < i ==> ((#[trigger] rs[a]).parent matches Some(p) ==> p < rs[a].id),
        decreases rows@.len() - i,
    {
        assert(rs[i as int] == rows@[i as int]@);
        if i > 0 {
            assert(rs[i - 1] == rows@[i - 1]@);
            if rows[i - 1].id >= rows[i].id {
                return false;
            }
        }
        match rows[i].parent {
            Some(p) => {
                if p >= rows[i].id {
                    return false;
                }
            },
            None => {},
        }
        proof {
            assert forall|a: int, b: int| 0 <= a < b < i + 1 implies rs[a].id < rs[b].id by {
                if b == i && a < i - 1 {
                    assert(rs[a].id < rs[i - 1].id);
                }
            }
        }
        i = i + 1;
    }
    let mut j: usize = 0;
    while j < rows.len()
        invariant
            rs == rows_of(rows@),
            rows_ok(rs),
            0 <= j <= rows@.len(),
            forall|a: int| 0 <= a < j ==> ((#[trigger] rs[a]).parent matches Some(p) ==> has_id(rs, p)),
        decreases rows@.len() - j,
    {
        assert(rs[j as int] == rows@[j as int]@);
        match rows[j].parent {
            Some(p) => {
                match find_row(rows, p) {
                    Some(k) => {
                        assert(rs[k as int] == rows@[k as int]@);
                        assert(has_id(rs, p));
                    },
                    None => {
                        return false;
                    },
                }
            },
            None => {},
        }
        j = j + 1;
    }
    true
}

/// Builds the whole structure tree, children included, from the rows of the
/// paths table listed by increasing id.
pub fn build(rows: Vec<Row>, mode: &str) -> (r: Vec<TreeNode>)
    requires
        rows_ok(rows_of(rows@)),
        tree_fits(rows_of(rows@), mode@),
    ensures
        crate::model::forest_view(r@) == tree_spec(rows_of(rows@), mode@),
{
    let ghost rs = rows_of(rows@);
    let sh = shape(rows);
    if str_equal(mode, "byPath") {
        build_by_path(&sh, None)
    } else {
        crate::groups::build_by_name(&sh)
    }
}

/// Texts joined with a separator.
pub open spec fn joined(ts: Seq<Seq<char>>, sep: Seq<char>) -> Seq<char>
    decreases ts.len(),
{
    if ts.len() == 0 {
        Seq::empty()
    } else if ts.len() == 1 {
        ts[0]
    } else {
        joined(ts.drop_last(), sep) + sep + ts.last()
    }
}

/// What a node's line says of its type: array, object, or its scalar types.
pub open spec fn kind_label(n: NodeV) -> Seq<char> {
    if n.is_array {
        "массив"@
    } else if n.types.len() == 0 {
        "объект"@
    } else {
        joined(n.types, " | "@)
    }
}

/// The line of one node: key, type and count; the number of merged paths
/// when there are several; a mark when the key is always empty.
pub open spec fn node_line(n: NodeV, pad: Seq<char>) -> Seq<char> {
    pad + "- **"@ + n.key + "** — `"@ + kind_label(n) + "` · "@ + grouped_int(n.count as int) + (if n.paths.len() > 1 {
        " · путей: "@ + decimal(n.paths.len())
    } else {
        Seq::empty()
    }) + (if n.non_empty == 0 {
        " · пусто"@
    } else {
        Seq::empty()
    }) + "\n"@
}

/// A node and its subtree, children indented by two more spaces.
pub open spec fn render_node(n: NodeV, pad: Seq<char>) -> Seq<char>
    decreases n, 0nat,
{
    node_line(n, pad) + render_list(n.children, pad + "  "@, n.children.len())
}

/// The first `k` nodes of a list with their subtrees.
pub open spec fn render_list(ns: Seq<NodeV>, pad: Seq<char>, k: nat) -> Seq<char>
    decreases ns, k,
{
    if k == 0 || k > ns.len() {
        Seq::empty()
    } else {
        render_list(ns, pad, (k - 1) as nat) + render_node(ns[k - 1], pad)
    }
}

/// No count in the subtree is `i64::MIN`, which has no absolute value.
pub open spec fn node_counts_ok(n: NodeV) -> bool
    decreases n, 0nat,
{
    n.count > i64::MIN && list_counts_ok(n.children, n.children.len())
}

pub open spec fn list_counts_ok(ns: Seq<NodeV>, k: nat) -> bool
    decreases ns, k,
{
    if k == 0 || k > ns.len() {
        true
    } else {
        list_counts_ok(ns, (k - 1) as nat) && node_counts_ok(ns[k - 1])
    }
}

proof fn lemma_list_counts_prefix(ns: Seq<NodeV>, k: nat, m: nat)
    requires
        list_counts_ok(ns, k),
        m <= k <= ns.len(),
    ensures
        list_counts_ok(ns, m),
    decreases k,
{
    if m < k {
        lemma_list_counts_prefix(ns, (k - 1) as nat, m);
    }
}

fn push_joined(out: &mut String, ts: &Vec<String>, sep: &str)
    ensures
        final(out)@ == old(out)@ + joined(string_views(ts@), sep@),
{
    let ghost tv = string_views(ts@);
    let mut k: usize = 0;
    while k < ts.len()
        invariant
            tv == string_views(ts@),
            0 <= k <= ts@.len(),
            out@ == old(out)@ + joined(tv.take(k as int), sep@),
        decreases ts@.len() - k,
    {
        let ghost before = out@;
        if k > 0 {
            out.append(sep);
        }
        out.append(ts[k].as_str());
        proof {
            let t = tv.take(k + 1);
            assert(t.drop_last() =~= tv.take(k as int));
            assert(t.last() == ts@[k as int]@);
            if k == 0 {
                assert(joined(tv.take(0), sep@) =~= Seq::<char>::empty());
                assert(joined(t, sep@) == t[0]);
            }
            assert(out@ =~= old(out)@ + joined(t, sep@));
        }
        k = k + 1;
    }
    assert(tv.take(ts@.len() as int) =~= tv);
}

fn push_node_line(out: &mut String, n: &TreeNode, pad: &str)
    requires
        n@.count > i64::MIN,
    ensures
        final(out)@ == old(out)@ + node_line(n@, pad@),
{
    proof {
        reveal_strlit("массив");
        reveal_strlit("объект");
    }
    let ghost v = n@;
    out.append(pad);
    out.append("- **");
    out.append(n.key.as_str());
    out.append("** — `");
    if n.is_array {
        out.append("массив");
    } else if n.types.len() == 0 {
        out.append("объект");
    } else {
        push_joined(out, &n.types, " | ");
    }
    out.append("` · ");
    let c = fmt_int(n.count);
    out.append(c.as_str());
    if n.paths.len() > 1 {
        out.append(" · путей: ");
        push_decimal(out, n.paths.len() as u64);
    }
    if n.non_empty == 0 {
        out.append(" · пусто");
    }
    out.append("\n");
    proof {
        assert(out@ =~= old(out)@ + node_line(v, pad@));
    }
}

/// Renders nodes and their subtrees as an indented Markdown list.
fn render(nodes: &Vec<TreeNode>, pad: &str, out: &mut String)
    requires
        list_counts_ok(crate::model::forest_view(nodes@), nodes@.len()),
    ensures
        final(out)@ == old(out)@ + render_list(crate::model::forest_view(nodes@), pad@, nodes@.len()),
    decreases *nodes,
{
    let ghost f = crate::model::forest_view(nodes@);
    let mut k: usize = 0;
    while k < nodes.len()
        invariant
            f == crate::model::forest_view(nodes@),
            list_counts_ok(f, nodes@.len()),
            0 <= k <= nodes@.len(),
            out@ == old(out)@ + render_list(f, pad@, k as nat),
        decreases nodes@.len() - k,
    {
        let n = &nodes[k];
        let ghost v = n@;
        assert(f[k as int] == v);
        proof {
            lemma_list_counts_prefix(f, nodes@.len(), (k + 1) as nat);
            crate::model::lemma_children_view(*n, n.children@.len());
            assert(crate::model::forest_view(n.children@).take(n.children@.len() as int) =~= crate::model::forest_view(n.children@));
            assert(v.children == crate::model::forest_view(n.children@));
            assert(list_counts_ok(f, (k + 1) as nat));
            assert(node_counts_ok(f[k as int]));
            assert(v.count > i64::MIN);
            assert(list_counts_ok(v.children, v.children.len()));
        }
        let ghost o0 = out@;
        push_node_line(out, n, pad);
        let ghost o1 = out@;
        let inner = pad.to_owned().concat("  ");
        assert(inner@ == pad@ + "  "@);
        proof {
            assert(decreases_to!(*nodes => nodes@[k as int].children));
        }
        render(&n.children, inner.as_str(), out);
        proof {
            assert(v.children.len() == n.children@.len());
            assert(out@ == o1 + render_list(v.children, pad@ + "  "@, v.children.len()));
            assert(render_node(v, pad@) == node_line(v, pad@) + render_list(v.children, pad@ + "  "@, v.children.len()));
            assert(render_list(f, pad@, (k + 1) as nat) == render_list(f, pad@, k as nat) + render_node(f[k as int], pad@));
            assert(out@ =~= old(out)@ + render_list(f, pad@, (k + 1) as nat));
        }
        k = k + 1;
    }
}

/// The heading of the report: folder, totals and the tree mode.
pub open spec fn report_head(root: Seq<char>, mode: Seq<char>, s: ScanSummary) -> Seq<char> {
    "# Структура JSON\n\n"@ + "Папка: `"@ + root + "`\n\n"@ + "Файлов: "@ + grouped_int(
        s.files_scanned as i64 as int,
    ) + " · записей: "@ + grouped_int(s.records as i64 as int) + " · уникальных ключей: "@
        + grouped_int(s.keys as i64 as int) + " · значений: "@ + grouped_int(s.values as i64 as int)
        + "\n\n"@ + "Режим дерева: "@ + (if mode == "byPath"@ {
        "по полному пути"@
    } else {
        "по имени ключа (дубликаты слиты)"@
    }) + "\n\n"@ + "---\n\n"@
}

/// The Markdown report of a tree: the heading, then one line per node.
pub open spec fn report(nodes: Seq<NodeV>, root: Seq<char>, mode: Seq<char>, s: ScanSummary) -> Seq<char> {
    report_head(root, mode, s) + render_list(nodes, Seq::empty(), nodes.len())
}

/// The totals of a summary as the report reads them (as `i64`).
pub open spec fn summary_counts_ok(s: ScanSummary) -> bool {
    &&& s.files_scanned as i64 > i64::MIN
    &&& s.records as i64 > i64::MIN
    &&& s.keys as i64 > i64::MIN
    &&& s.values as i64 > i64::MIN
}

pub fn to_markdown(nodes: &Vec<TreeNode>, root: &str, mode: &str, summary: &ScanSummary) -> (md: String)
    requires
        list_counts_ok(crate::model::forest_view(nodes@), nodes@.len()),
        summary_counts_ok(*summary),
    ensures
        md@ == report(crate::model::forest_view(nodes@), root@, mode@, *summary),
{
    let mut out = String::new();
    out.append("# Структура JSON\n\n");
    out.append("Папка: `");
    out.append(root);
    out.append("`\n\n");
    out.append("Файлов: ");
    let t = fmt_int(summary.files_scanned as i64);
    out.append(t.as_str());
    out.append(" · записей: ");
    let t = fmt_int(summary.records as i64);
    out.append(t.as_str());
    out.append(" · уникальных ключей: ");
    let t = fmt_int(summary.keys as i64);
    out.append(t.as_str());
    out.append(" · значений: ");
    let t = fmt_int(summary.values as i64);
    out.append(t.as_str());
    out.append("\n\n");
    out.append("Режим дерева: ");
    if str_equal(mode, "byPath") {
        out.append("по полному пути");
    } else {
        out.append("по имени ключа (дубликаты слиты)");
    }
    out.append("\n\n");
    out.append("---\n\n");
    let ghost head = out@;
    assert(head =~= report_head(root@, mode@, *summary));
    render(nodes, "", &mut out);
    proof {
        reveal_strlit("");
        assert(""@ =~= Seq::<char>::empty());
    }
    out
}

} // verus!
