//! The scanner: canonical key paths, the path interner with its counters,
//! and the walk that turns one parsed record into index rows.
//!
//! A canonical path collapses array indices into `[]`, so equal keys from
//! different files and from different array elements land on one node.

use vstd::prelude::*;
use vstd::hash_map::StringHashMap;
use vstd::string::*;

use crate::db::{M_ARR, M_BOOL, M_NULL, M_NUM, M_OBJ, M_STR, T_ARR, T_BOOL, T_NULL, T_NUM, T_OBJ, T_STR};
use crate::json::JsonValue;
use crate::model::ScanSummary;
use crate::text::{
    clip, eq_ignore_ascii_case, has_content, line_content, line_text, lower_all, not_blank, str_equal, truncate_utf8,
};
use crate::json::{json_parse, parse_json};
use crate::tree::{has_id, rows_of, rows_ok, Row, RowV};
use crate::groups::parents_present;

verus! {

/// The two file formats the scanner reads.
#[derive(Clone, Copy, PartialEq, Eq, Structural, Debug)]
pub enum Kind {
    Json,
    Jsonl,
}

impl Kind {
    /// The name stored in the `kind` column of the files table.
    pub fn as_str(self) -> (r: &'static str)
        ensures
            r@ == (if self == Kind::Json {
                "json"@
            } else {
                "jsonl"@
            }),
    {
        match self {
            Kind::Json => "json",
            Kind::Jsonl => "jsonl",
        }
    }
}

/// What the index knows of one canonical path.
pub struct PathMeta {
    pub path: String,
    pub parent: Option<i64>,
    pub key: String,
    pub depth: i64,
    pub is_array: bool,
    pub cnt: i64,
    /// Occurrences that carry a value: null, "", blank text, {} and [] do not count.
    pub nonempty: i64,
    pub mask: i64,
}

/// The mathematical content of a [`PathMeta`].
pub struct PathInfo {
    pub path: Seq<char>,
    pub parent: Option<i64>,
    pub key: Seq<char>,
    pub depth: i64,
    pub is_array: bool,
    pub cnt: int,
    pub nonempty: int,
    pub mask: i64,
}

impl View for PathMeta {
    type V = PathInfo;

    open spec fn view(&self) -> PathInfo {
        PathInfo {
            path: self.path@,
            parent: self.parent,
            key: self.key@,
            depth: self.depth,
            is_array: self.is_array,
            cnt: self.cnt as int,
            nonempty: self.nonempty as int,
            mask: self.mask,
        }
    }
}

/// Whether the table already holds `path`.
pub open spec fn has_path(t: Seq<PathInfo>, path: Seq<char>) -> bool {
    exists|i: int| 0 <= i < t.len() && #[trigger] t[i].path == path
}

/// The id of a path that the table holds: its position plus one.
pub open spec fn id_of(t: Seq<PathInfo>, path: Seq<char>) -> int {
    (choose|i: int| 0 <= i < t.len() && #[trigger] t[i].path == path) + 1
}

/// No path occurs twice in the table.
pub open spec fn distinct_paths(t: Seq<PathInfo>) -> bool {
    forall|i: int, j: int|
        0 <= i < t.len() && 0 <= j < t.len() && #[trigger] t[i].path == #[trigger] t[j].path
            ==> i == j
}

/// A fresh entry: no occurrence counted yet.
pub open spec fn fresh_info(path: Seq<char>, parent: Option<i64>, key: Seq<char>, depth: i64) -> PathInfo {
    PathInfo {
        path,
        parent,
        key,
        depth,
        is_array: false,
        cnt: 0,
        nonempty: 0,
        mask: 0,
    }
}

/// Interning: a path already in the table keeps its id; a new one is
/// appended and gets the next id.
pub open spec fn intern_spec(
    t: Seq<PathInfo>,
    path: Seq<char>,
    parent: Option<i64>,
    key: Seq<char>,
    depth: i64,
) -> (Seq<PathInfo>, int) {
    if has_path(t, path) {
        (t, id_of(t, path))
    } else {
        (t.push(fresh_info(path, parent, key, depth)), t.len() + 1int)
    }
}

/// One more occurrence of the path with id `id`.
pub open spec fn bump_spec(t: Seq<PathInfo>, id: int, mask: i64, is_array: bool, non_empty: bool) -> Seq<PathInfo> {
    let m = t[id - 1];
    t.update(
        id - 1,
        PathInfo {
            cnt: m.cnt + 1,
            mask: m.mask | mask,
            nonempty: if non_empty {
                m.nonempty + 1
            } else {
                m.nonempty
            },
            is_array: m.is_array || is_array,
            ..m
        },
    )
}

/// Table `big` grew out of table `small`: entries stay in place with their
/// path and place, counts never fall, type bits are never lost and an
/// array stays an array.
pub open spec fn grows(big: Seq<PathInfo>, small: Seq<PathInfo>) -> bool {
    &&& dominates(big, small)
    &&& forall|i: int|
        0 <= i < small.len() ==> (#[trigger] big[i]).mask | small[i].mask == big[i].mask && (small[i].is_array
            ==> big[i].is_array)
}

/// What every interner made by `new` keeps, whatever `intern` and `bump`
/// do to it: the root `$` first, and no entry with more non-empty
/// occurrences than occurrences.
pub open spec fn counts_ok(t: Seq<PathInfo>) -> bool {
    &&& 1 <= t.len()
    &&& t[0].path == "$"@
    &&& forall|i: int| 0 <= i < t.len() ==> 0 <= (#[trigger] t[i]).nonempty <= t[i].cnt
}

/// Path → id, with its counters kept in memory and written out in one pass
/// at the end of a scan.
pub struct Interner {
    map: StringHashMap<i64>,
    pub meta: Vec<PathMeta>,
}

impl Interner {
    /// The table of paths: entry `i` is the path with id `i + 1`.
    pub closed spec fn table(&self) -> Seq<PathInfo> {
        self.meta@.map_values(|m: PathMeta| m@)
    }

    /// The lookup map agrees with the table.
    pub closed spec fn wf(&self) -> bool {
        &&& forall|i: int|
            0 <= i < self.meta@.len() ==> #[trigger] self.map@.contains_key(self.meta@[i].path@)
                && self.map@[self.meta@[i].path@] == i + 1
        &&& forall|p: Seq<char>|
            #[trigger] self.map@.contains_key(p) ==> 1 <= self.map@[p] <= self.meta@.len()
                && self.meta@[self.map@[p] - 1].path@ == p
    }

    pub proof fn lemma_wf_distinct(&self)
        requires
            self.wf(),
        ensures
            distinct_paths(self.table()),
    {
        assert forall|i: int, j: int|
            0 <= i < self.table().len() && 0 <= j < self.table().len()
                && #[trigger] self.table()[i].path == #[trigger] self.table()[j].path implies i == j by {
            assert(self.table()[i].path == self.meta@[i].path@);
            assert(self.table()[j].path == self.meta@[j].path@);
            assert(self.map@.contains_key(self.meta@[i].path@));
            assert(self.map@.contains_key(self.meta@[j].path@));
        }
    }

    pub fn new() -> (me: Self)
        ensures
            me.wf(),
            me.table() == seq![fresh_info("$"@, None, "$"@, 0)],
            counts_ok(me.table()),
    {
        let mut me = Interner { map: StringHashMap::new(), meta: Vec::new() };
        proof {
            assert(me.table() =~= Seq::<PathInfo>::empty());
        }
        me.intern("$", None, "$", 0);
        proof {
            assert(me.table() =~= seq![fresh_info("$"@, None, "$"@, 0)]);
        }
        me
    }

    pub fn intern(&mut self, path: &str, parent: Option<i64>, key: &str, depth: i64) -> (id: i64)
        requires
            old(self).wf(),
            old(self).table().len() < i64::MAX,
        ensures
            final(self).wf(),
            (final(self).table(), id as int) == intern_spec(old(self).table(), path@, parent, key@, depth),
            1 <= id <= final(self).table().len(),
            final(self).table()[id - 1].path == path@,
            grows(final(self).table(), old(self).table()),
            counts_ok(old(self).table()) ==> counts_ok(final(self).table()),
    {
        proof {
            let t = self.table();
            lemma_intern_spec(t, path@, parent, key@, depth);
            let t1 = intern_spec(t, path@, parent, key@, depth).0;
            assert forall|i: int| 0 <= i < t.len() implies (#[trigger] t1[i]).mask | t[i].mask == t1[i].mask && (
            t[i].is_array ==> t1[i].is_array) by {
                assert(t1[i] == t[i]);
                let m = t[i].mask;
                assert(m | m == m) by (bit_vector);
            }
            if counts_ok(t) {
                assert(t1[0] == t[0]);
                assert forall|i: int| 0 <= i < t1.len() implies 0 <= (#[trigger] t1[i]).nonempty <= t1[i].cnt by {
                    if i < t.len() {
                        assert(t1[i] == t[i]);
                    }
                }
            }
        }
        proof {
            self.lemma_wf_distinct();
        }
        match self.map.get(path) {
            Some(id) => {
                let id = *id;
                proof {
                    let i = id - 1;
                    assert(self.table()[i].path == path@);
                    assert(has_path(self.table(), path@));
                    let c = choose|c: int| 0 <= c < self.table().len() && #[trigger] self.table()[c].path == path@;
                    assert(c == i);
                }
                id
            },
            None => {
                let id = self.meta.len() as i64 + 1;
                let ghost t0 = self.table();
                proof {
                    if has_path(t0, path@) {
                        let c = choose|c: int| 0 <= c < t0.len() && #[trigger] t0[c].path == path@;
                        assert(self.map@.contains_key(self.meta@[c].path@));
                    }
                }
                self.meta.push(
                    PathMeta {
                        path: path.to_owned(),
                        parent,
                        key: key.to_owned(),
                        depth,
                        is_array: false,
                        cnt: 0,
                        nonempty: 0,
                        mask: 0,
                    },
                );
                self.map.insert(path.to_owned(), id);
                proof {
                    assert(self.table() =~= t0.push(fresh_info(path@, parent, key@, depth)));
                    assert forall|i: int|
                        0 <= i < self.meta@.len() implies #[trigger] self.map@.contains_key(
                            self.meta@[i].path@,
                        ) && self.map@[self.meta@[i].path@] == i + 1 by {
                        if i < self.meta@.len() - 1 {
                            assert(old(self).meta@[i] == self.meta@[i]);
                        }
                    }
                }
                id
            },
        }
    }

    pub fn bump(&mut self, id: i64, mask: i64, is_array: bool, non_empty: bool)
        requires
            old(self).wf(),
            1 <= id <= old(self).table().len(),
            old(self).table()[id - 1].cnt < i64::MAX,
            non_empty ==> old(self).table()[id - 1].nonempty < i64::MAX,
        ensures
            final(self).wf(),
            final(self).table() == bump_spec(old(self).table(), id as int, mask, is_array, non_empty),
            grows(final(self).table(), old(self).table()),
            counts_ok(old(self).table()) ==> counts_ok(final(self).table()),
    {
        proof {
            let t = self.table();
            lemma_bump_spec(t, id as int, mask, is_array, non_empty);
            let b = bump_spec(t, id as int, mask, is_array, non_empty);
            assert forall|i: int| 0 <= i < t.len() implies (#[trigger] b[i]).mask | t[i].mask == b[i].mask && (
            t[i].is_array ==> b[i].is_array) by {
                let m = t[i].mask;
                if i == id - 1 {
                    assert((m | mask) | m == m | mask) by (bit_vector);
                } else {
                    assert(b[i] == t[i]);
                    assert(m | m == m) by (bit_vector);
                }
            }
        }
        let len = self.meta.len();
        assert(self.table().len() == self.meta@.len());
        assert(id - 1 < len);
        let i = (id - 1) as usize;
        assert(i == id - 1);
        let ghost t0 = self.table();
        assert(t0[i as int] == self.meta@[i as int]@);
        let m = &mut self.meta[i];
        m.cnt = m.cnt + 1;
        m.mask = m.mask | mask;
        if non_empty {
            m.nonempty = m.nonempty + 1;
        }
        if is_array {
            m.is_array = true;
        }
        proof {
            assert(self.table() =~= bump_spec(t0, id as int, mask, is_array, non_empty));
            assert forall|j: int|
                0 <= j < self.meta@.len() implies #[trigger] self.map@.contains_key(
                    self.meta@[j].path@,
                ) && self.map@[self.meta@[j].path@] == j + 1 by {
                assert(self.meta@[j].path@ == old(self).meta@[j].path@);
                assert(old(self).map@.contains_key(old(self).meta@[j].path@));
            }
            assert forall|p: Seq<char>| #[trigger] self.map@.contains_key(p) implies 1 <= self.map@[p]
                <= self.meta@.len() && self.meta@[self.map@[p] - 1].path@ == p by {
                assert(old(self).map@.contains_key(p));
            }
        }
    }
}

/// One row of the values table: a leaf value of a record, at the id of its
/// canonical path. Empty objects and arrays count as values too.
pub struct ValRow {
    pub path_id: i64,
    pub file_id: i64,
    pub rec: i64,
    pub vtype: i64,
    pub txt: Option<String>,
    pub trunc: bool,
}

/// The mathematical content of a [`ValRow`].
pub struct RowInfo {
    pub path_id: int,
    pub file_id: i64,
    pub rec: i64,
    pub vtype: i64,
    pub txt: Option<Seq<char>>,
    pub trunc: bool,
}

pub open spec fn opt_view(s: Option<String>) -> Option<Seq<char>> {
    match s {
        Some(s) => Some(s@),
        None => None,
    }
}

impl View for ValRow {
    type V = RowInfo;

    open spec fn view(&self) -> RowInfo {
        RowInfo {
            path_id: self.path_id as int,
            file_id: self.file_id,
            rec: self.rec,
            vtype: self.vtype,
            txt: opt_view(self.txt),
            trunc: self.trunc,
        }
    }
}

pub open spec fn rows_view(v: Seq<ValRow>) -> Seq<RowInfo> {
    v.map_values(|r: ValRow| r@)
}

pub open spec fn row_info(
    id: int,
    file_id: i64,
    rec: i64,
    vtype: i64,
    txt: Option<Seq<char>>,
    trunc: bool,
) -> RowInfo {
    RowInfo { path_id: id, file_id, rec, vtype, txt, trunc }
}

/// The walk of one value at canonical path `path`: intern the path, count the
/// occurrence, emit a row for a leaf (or an empty container), then walk the
/// members (`path.key`) or the elements (`path[]`) in order.
pub open spec fn walk_spec(
    v: JsonValue,
    path: Seq<char>,
    parent: Option<i64>,
    key: Seq<char>,
    depth: i64,
    file_id: i64,
    rec: i64,
    t: Seq<PathInfo>,
    r: Seq<RowInfo>,
) -> (Seq<PathInfo>, Seq<RowInfo>)
    decreases v, 1nat, 0nat,
{
    let (t1, id) = intern_spec(t, path, parent, key, depth);
    match v {
        JsonValue::Object(es) => {
            let t2 = bump_spec(t1, id, M_OBJ, false, false);
            let r2 = if es@.len() == 0 {
                r.push(row_info(id, file_id, rec, T_OBJ, Some("{}"@), false))
            } else {
                r
            };
            walk_members(v, es@.len(), path, id, depth, file_id, rec, t2, r2)
        },
        JsonValue::Array(xs) => {
            let t2 = bump_spec(t1, id, M_ARR, true, false);
            let r2 = if xs@.len() == 0 {
                r.push(row_info(id, file_id, rec, T_ARR, Some("[]"@), false))
            } else {
                r
            };
            walk_elements(v, xs@.len(), path + "[]"@, id, depth, file_id, rec, t2, r2)
        },
        JsonValue::Null => (
            bump_spec(t1, id, M_NULL, false, false),
            r.push(row_info(id, file_id, rec, T_NULL, None, false)),
        ),
        JsonValue::Bool(b) => (
            bump_spec(t1, id, M_BOOL, false, true),
            r.push(
                row_info(
                    id,
                    file_id,
                    rec,
                    T_BOOL,
                    Some(
                        if b {
                            "true"@
                        } else {
                            "false"@
                        },
                    ),
                    false,
                ),
            ),
        ),
        JsonValue::Number(n) => (
            bump_spec(t1, id, M_NUM, false, true),
            r.push(row_info(id, file_id, rec, T_NUM, Some(n@), false)),
        ),
        JsonValue::Text(s) => (
            bump_spec(t1, id, M_STR, false, has_content(s@)),
            r.push(row_info(id, file_id, rec, T_STR, Some(clip(s@).0), clip(s@).1)),
        ),
    }
}

/// The walk of the first `n` members of object `v` (at `path`, id `id`).
pub open spec fn walk_members(
    v: JsonValue,
    n: nat,
    path: Seq<char>,
    id: int,
    depth: i64,
    file_id: i64,
    rec: i64,
    t: Seq<PathInfo>,
    r: Seq<RowInfo>,
) -> (Seq<PathInfo>, Seq<RowInfo>)
    decreases v, 0nat, n,
{
    if n == 0 {
        (t, r)
    } else {
        let prev = walk_members(v, (n - 1) as nat, path, id, depth, file_id, rec, t, r);
        match v {
            JsonValue::Object(es) => {
                if n <= es@.len() {
                    let e = es@[n - 1];
                    walk_spec(
                        e.1,
                        path + "."@ + e.0@,
                        Some(id as i64),
                        e.0@,
                        (depth + 1) as i64,
                        file_id,
                        rec,
                        prev.0,
                        prev.1,
                    )
                } else {
                    prev
                }
            },
            _ => prev,
        }
    }
}

/// The walk of the first `n` elements of array `v`; each element sits at
/// `elem_path`, the array's path followed by `[]`.
pub open spec fn walk_elements(
    v: JsonValue,
    n: nat,
    elem_path: Seq<char>,
    id: int,
    depth: i64,
    file_id: i64,
    rec: i64,
    t: Seq<PathInfo>,
    r: Seq<RowInfo>,
) -> (Seq<PathInfo>, Seq<RowInfo>)
    decreases v, 0nat, n,
{
    if n == 0 {
        (t, r)
    } else {
        let prev = walk_elements(v, (n - 1) as nat, elem_path, id, depth, file_id, rec, t, r);
        match v {
            JsonValue::Array(xs) => {
                if n <= xs@.len() {
                    walk_spec(
                        xs@[n - 1],
                        elem_path,
                        Some(id as i64),
                        "[]"@,
                        (depth + 1) as i64,
                        file_id,
                        rec,
                        prev.0,
                        prev.1,
                    )
                } else {
                    prev
                }
            },
            _ => prev,
        }
    }
}

/// Entry `b` extends entry `a`: same path and place, counters not smaller.
pub open spec fn info_le(a: PathInfo, b: PathInfo) -> bool {
    &&& b.path == a.path
    &&& b.parent == a.parent
    &&& b.key == a.key
    &&& b.depth == a.depth
    &&& b.cnt >= a.cnt
    &&& b.nonempty >= a.nonempty
}

/// Table `big` grew out of table `small`: it keeps every entry in place and
/// only adds entries or raises counters.
pub open spec fn dominates(big: Seq<PathInfo>, small: Seq<PathInfo>) -> bool {
    &&& small.len() <= big.len()
    &&& forall|i: int| 0 <= i < small.len() ==> info_le(#[trigger] small[i], big[i])
}

/// Every id and counter of the table fits in an `i64`.
pub open spec fn table_fits(t: Seq<PathInfo>) -> bool {
    &&& t.len() < i64::MAX
    &&& forall|i: int|
        0 <= i < t.len() ==> (#[trigger] t[i]).cnt <= i64::MAX && t[i].nonempty <= i64::MAX
}

pub proof fn lemma_dominates_refl(t: Seq<PathInfo>)
    ensures
        dominates(t, t),
{
}

pub proof fn lemma_dominates_trans(a: Seq<PathInfo>, b: Seq<PathInfo>, c: Seq<PathInfo>)
    requires
        dominates(b, a),
        dominates(c, b),
    ensures
        dominates(c, a),
{
    assert forall|i: int| 0 <= i < a.len() implies info_le(#[trigger] a[i], c[i]) by {
        assert(info_le(a[i], b[i]));
        assert(info_le(b[i], c[i]));
    }
}

pub proof fn lemma_fits_dominated(big: Seq<PathInfo>, small: Seq<PathInfo>)
    requires
        dominates(big, small),
        table_fits(big),
    ensures
        table_fits(small),
{
    assert forall|i: int| 0 <= i < small.len() implies (#[trigger] small[i]).cnt <= i64::MAX
        && small[i].nonempty <= i64::MAX by {
        assert(info_le(small[i], big[i]));
        assert(big[i].cnt <= i64::MAX);
    }
}

pub proof fn lemma_intern_spec(
    t: Seq<PathInfo>,
    path: Seq<char>,
    parent: Option<i64>,
    key: Seq<char>,
    depth: i64,
)
    ensures
        dominates(intern_spec(t, path, parent, key, depth).0, t),
        1 <= intern_spec(t, path, parent, key, depth).1 <= intern_spec(t, path, parent, key, depth).0.len(),
        intern_spec(t, path, parent, key, depth).0[intern_spec(t, path, parent, key, depth).1 - 1].path == path,
{
    let res = intern_spec(t, path, parent, key, depth);
    if has_path(t, path) {
        let c = choose|c: int| 0 <= c < t.len() && #[trigger] t[c].path == path;
        assert(res.1 == c + 1);
    } else {
        assert forall|i: int| 0 <= i < t.len() implies info_le(#[trigger] t[i], res.0[i]) by {
            assert(res.0[i] == t[i]);
        }
    }
}

pub proof fn lemma_bump_spec(t: Seq<PathInfo>, id: int, mask: i64, is_array: bool, non_empty: bool)
    requires
        1 <= id <= t.len(),
    ensures
        dominates(bump_spec(t, id, mask, is_array, non_empty), t),
        bump_spec(t, id, mask, is_array, non_empty).len() == t.len(),
        bump_spec(t, id, mask, is_array, non_empty)[id - 1].cnt == t[id - 1].cnt + 1,
{
    let b = bump_spec(t, id, mask, is_array, non_empty);
    assert forall|i: int| 0 <= i < t.len() implies info_le(#[trigger] t[i], b[i]) by {
        if i != id - 1 {
            assert(b[i] == t[i]);
        }
    }
}

pub proof fn lemma_walk_grows(
    v: JsonValue,
    path: Seq<char>,
    parent: Option<i64>,
    key: Seq<char>,
    depth: i64,
    file_id: i64,
    rec: i64,
    t: Seq<PathInfo>,
    r: Seq<RowInfo>,
)
    ensures
        dominates(walk_spec(v, path, parent, key, depth, file_id, rec, t, r).0, t),
    decreases v, 1nat, 0nat,
{
    let (t1, id) = intern_spec(t, path, parent, key, depth);
    lemma_intern_spec(t, path, parent, key, depth);
    match v {
        JsonValue::Object(es) => {
            lemma_bump_spec(t1, id, M_OBJ, false, false);
            let t2 = bump_spec(t1, id, M_OBJ, false, false);
            let r2 = if es@.len() == 0 {
                r.push(row_info(id, file_id, rec, T_OBJ, Some("{}"@), false))
            } else {
                r
            };
            lemma_members_grow(v, es@.len(), 0, path, id, depth, file_id, rec, t2, r2);
            lemma_dominates_trans(t, t1, t2);
            lemma_dominates_trans(t, t2, walk_members(v, es@.len(), path, id, depth, file_id, rec, t2, r2).0);
        },
        JsonValue::Array(xs) => {
            lemma_bump_spec(t1, id, M_ARR, true, false);
            let t2 = bump_spec(t1, id, M_ARR, true, false);
            let r2 = if xs@.len() == 0 {
                r.push(row_info(id, file_id, rec, T_ARR, Some("[]"@), false))
            } else {
                r
            };
            lemma_elements_grow(v, xs@.len(), 0, path + "[]"@, id, depth, file_id, rec, t2, r2);
            lemma_dominates_trans(t, t1, t2);
            lemma_dominates_trans(t, t2, walk_elements(v, xs@.len(), path + "[]"@, id, depth, file_id, rec, t2, r2).0);
        },
        JsonValue::Null => {
            lemma_bump_spec(t1, id, M_NULL, false, false);
            lemma_dominates_trans(t, t1, bump_spec(t1, id, M_NULL, false, false));
        },
        JsonValue::Bool(b) => {
            lemma_bump_spec(t1, id, M_BOOL, false, true);
            lemma_dominates_trans(t, t1, bump_spec(t1, id, M_BOOL, false, true));
        },
        JsonValue::Number(n) => {
            lemma_bump_spec(t1, id, M_NUM, false, true);
            lemma_dominates_trans(t, t1, bump_spec(t1, id, M_NUM, false, true));
        },
        JsonValue::Text(s) => {
            lemma_bump_spec(t1, id, M_STR, false, has_content(s@));
            lemma_dominates_trans(t, t1, bump_spec(t1, id, M_STR, false, has_content(s@)));
        },
    }
}

/// The members walked later extend the table left by those walked earlier.
pub proof fn lemma_members_grow(
    v: JsonValue,
    n: nat,
    m: nat,
    path: Seq<char>,
    id: int,
    depth: i64,
    file_id: i64,
    rec: i64,
    t: Seq<PathInfo>,
    r: Seq<RowInfo>,
)
    requires
        m <= n,
    ensures
        dominates(
            walk_members(v, n, path, id, depth, file_id, rec, t, r).0,
            walk_members(v, m, path, id, depth, file_id, rec, t, r).0,
        ),
    decreases v, 0nat, n,
{
    if n == m {
        lemma_dominates_refl(walk_members(v, n, path, id, depth, file_id, rec, t, r).0);
    } else {
        lemma_members_grow(v, (n - 1) as nat, m, path, id, depth, file_id, rec, t, r);
        let prev = walk_members(v, (n - 1) as nat, path, id, depth, file_id, rec, t, r);
        match v {
            JsonValue::Object(es) => {
                if n <= es@.len() {
                    let e = es@[n - 1];
                    lemma_walk_grows(
                        e.1,
                        path + "."@ + e.0@,
                        Some(id as i64),
                        e.0@,
                        (depth + 1) as i64,
                        file_id,
                        rec,
                        prev.0,
                        prev.1,
                    );
                }
            },
            _ => {},
        }
        lemma_dominates_trans(
            walk_members(v, m, path, id, depth, file_id, rec, t, r).0,
            prev.0,
            walk_members(v, n, path, id, depth, file_id, rec, t, r).0,
        );
    }
}

/// The elements walked later extend the table left by those walked earlier.
pub proof fn lemma_elements_grow(
    v: JsonValue,
    n: nat,
    m: nat,
    elem_path: Seq<char>,
    id: int,
    depth: i64,
    file_id: i64,
    rec: i64,
    t: Seq<PathInfo>,
    r: Seq<RowInfo>,
)
    requires
        m <= n,
    ensures
        dominates(
            walk_elements(v, n, elem_path, id, depth, file_id, rec, t, r).0,
            walk_elements(v, m, elem_path, id, depth, file_id, rec, t, r).0,
        ),
    decreases v, 0nat, n,
{
    if n == m {
        lemma_dominates_refl(walk_elements(v, n, elem_path, id, depth, file_id, rec, t, r).0);
    } else {
        lemma_elements_grow(v, (n - 1) as nat, m, elem_path, id, depth, file_id, rec, t, r);
        let prev = walk_elements(v, (n - 1) as nat, elem_path, id, depth, file_id, rec, t, r);
        match v {
            JsonValue::Array(xs) => {
                if n <= xs@.len() {
                    lemma_walk_grows(
                        xs@[n - 1],
                        elem_path,
                        Some(id as i64),
                        "[]"@,
                        (depth + 1) as i64,
                        file_id,
                        rec,
                        prev.0,
                        prev.1,
                    );
                }
            },
            _ => {},
        }
        lemma_dominates_trans(
            walk_elements(v, m, elem_path, id, depth, file_id, rec, t, r).0,
            prev.0,
            walk_elements(v, n, elem_path, id, depth, file_id, rec, t, r).0,
        );
    }
}

/// Interning a path a second time changes nothing and gives the same id,
/// whatever parent, key and depth come with it: equal paths from any file
/// and any array element share one entry.
pub proof fn lemma_intern_twice(
    t: Seq<PathInfo>,
    path: Seq<char>,
    parent: Option<i64>,
    key: Seq<char>,
    depth: i64,
    parent2: Option<i64>,
    key2: Seq<char>,
    depth2: i64,
)
    ensures
        intern_spec(intern_spec(t, path, parent, key, depth).0, path, parent2, key2, depth2)
            == intern_spec(t, path, parent, key, depth),
{
    if !has_path(t, path) {
        let t1 = t.push(fresh_info(path, parent, key, depth));
        assert(t1[t.len() as int].path == path);
        assert(has_path(t1, path));
        let c = choose|c: int| 0 <= c < t1.len() && #[trigger] t1[c].path == path;
        if c < t.len() {
            assert(t1[c] == t[c]);
            assert(has_path(t, path));
        }
        assert(c == t.len());
    }
}

/// Entry `i` of the table has id `i + 1`. The first is the root `$`, with
/// no parent; every other has a parent, an entry created before it, and was
/// counted at least once. No entry counts more non-empty occurrences than
/// occurrences.
pub open spec fn entry_ok(t: Seq<PathInfo>, i: int) -> bool {
    &&& (i == 0 ==> t[0].path == "$"@ && t[0].parent is None)
    &&& (i >= 1 ==> (t[i].parent matches Some(p) && 1 <= p <= i) && t[i].cnt >= 1)
    &&& 0 <= t[i].nonempty <= t[i].cnt
}

pub open spec fn table_ok(t: Seq<PathInfo>) -> bool {
    forall|i: int| 0 <= i < t.len() ==> #[trigger] entry_ok(t, i)
}

/// A row of the values table points at an entry of the table, and holds no
/// text exactly when its value is null.
pub open spec fn row_ok(t: Seq<PathInfo>, r: RowInfo) -> bool {
    &&& 1 <= r.path_id <= t.len()
    &&& (r.txt is None <==> r.vtype == T_NULL)
}

/// What a scan keeps true of the table and of the rows written so far.
pub open spec fn state_ok(t: Seq<PathInfo>, r: Seq<RowInfo>) -> bool {
    &&& table_ok(t)
    &&& forall|k: int| 0 <= k < r.len() ==> row_ok(t, #[trigger] r[k])
}

/// A parent that an entry created now may name; only a path the table
/// already holds is walked with no parent (the root).
pub open spec fn parent_ok(parent: Option<i64>, t: Seq<PathInfo>, path: Seq<char>) -> bool {
    match parent {
        Some(p) => 1 <= p <= t.len(),
        None => has_path(t, path),
    }
}

proof fn lemma_state_grows(t: Seq<PathInfo>, big: Seq<PathInfo>, r: Seq<RowInfo>)
    requires
        state_ok(t, r),
        table_ok(big),
        dominates(big, t),
    ensures
        state_ok(big, r),
{
    assert forall|k: int| 0 <= k < r.len() implies row_ok(big, #[trigger] r[k]) by {
        assert(row_ok(t, r[k]));
    }
}

proof fn lemma_bump_ok(
    t: Seq<PathInfo>,
    r: Seq<RowInfo>,
    id: int,
    mask: i64,
    is_array: bool,
    non_empty: bool,
)
    requires
        state_ok(t, r),
        1 <= id <= t.len(),
    ensures
        state_ok(bump_spec(t, id, mask, is_array, non_empty), r),
{
    lemma_bump_spec(t, id, mask, is_array, non_empty);
    let b = bump_spec(t, id, mask, is_array, non_empty);
    assert forall|i: int| 0 <= i < b.len() implies #[trigger] entry_ok(b, i) by {
        assert(entry_ok(t, i));
        if i != id - 1 {
            assert(b[i] == t[i]);
        }
    }
    lemma_state_grows(t, b, r);
}

proof fn lemma_intern_bump_ok(
    t: Seq<PathInfo>,
    r: Seq<RowInfo>,
    path: Seq<char>,
    parent: Option<i64>,
    key: Seq<char>,
    depth: i64,
    mask: i64,
    is_array: bool,
    non_empty: bool,
)
    requires
        state_ok(t, r),
        1 <= t.len(),
        parent_ok(parent, t, path),
    ensures
        state_ok(
            bump_spec(
                intern_spec(t, path, parent, key, depth).0,
                intern_spec(t, path, parent, key, depth).1,
                mask,
                is_array,
                non_empty,
            ),
            r,
        ),
{
    lemma_intern_spec(t, path, parent, key, depth);
    let (t1, id) = intern_spec(t, path, parent, key, depth);
    lemma_bump_spec(t1, id, mask, is_array, non_empty);
    let t2 = bump_spec(t1, id, mask, is_array, non_empty);
    if has_path(t, path) {
        lemma_bump_ok(t, r, id, mask, is_array, non_empty);
    } else {
        assert forall|i: int| 0 <= i < t2.len() implies #[trigger] entry_ok(t2, i) by {
            if i < t.len() {
                assert(t2[i] == t[i]);
                assert(entry_ok(t, i));
            }
        }
        lemma_dominates_trans(t, t1, t2);
        lemma_state_grows(t, t2, r);
    }
}

proof fn lemma_push_ok(t: Seq<PathInfo>, r: Seq<RowInfo>, x: RowInfo)
    requires
        state_ok(t, r),
        row_ok(t, x),
    ensures
        state_ok(t, r.push(x)),
{
    assert forall|k: int| 0 <= k < r.push(x).len() implies row_ok(t, #[trigger] r.push(x)[k]) by {
        if k < r.len() {
            assert(r.push(x)[k] == r[k]);
        }
    }
}

/// A walk keeps the table and the rows sound: it creates entries only under
/// earlier entries, and every row it writes points at an entry.
pub proof fn lemma_walk_ok(
    v: JsonValue,
    path: Seq<char>,
    parent: Option<i64>,
    key: Seq<char>,
    depth: i64,
    file_id: i64,
    rec: i64,
    t: Seq<PathInfo>,
    r: Seq<RowInfo>,
)
    requires
        state_ok(t, r),
        1 <= t.len(),
        parent_ok(parent, t, path),
        walk_spec(v, path, parent, key, depth, file_id, rec, t, r).0.len() <= i64::MAX,
    ensures
        state_ok(
            walk_spec(v, path, parent, key, depth, file_id, rec, t, r).0,
            walk_spec(v, path, parent, key, depth, file_id, rec, t, r).1,
        ),
    decreases v, 1nat, 0nat,
{
    let (t1, id) = intern_spec(t, path, parent, key, depth);
    lemma_intern_spec(t, path, parent, key, depth);
    match v {
        JsonValue::Object(es) => {
            lemma_intern_bump_ok(t, r, path, parent, key, depth, M_OBJ, false, false);
            lemma_bump_spec(t1, id, M_OBJ, false, false);
            let t2 = bump_spec(t1, id, M_OBJ, false, false);
            let r2 = if es@.len() == 0 {
                r.push(row_info(id, file_id, rec, T_OBJ, Some("{}"@), false))
            } else {
                r
            };
            if es@.len() == 0 {
                lemma_push_ok(t2, r, row_info(id, file_id, rec, T_OBJ, Some("{}"@), false));
            }
            lemma_members_grow(v, es@.len(), 0, path, id, depth, file_id, rec, t2, r2);
            lemma_members_ok(v, es@.len(), path, id, depth, file_id, rec, t2, r2);
        },
        JsonValue::Array(xs) => {
            lemma_intern_bump_ok(t, r, path, parent, key, depth, M_ARR, true, false);
            lemma_bump_spec(t1, id, M_ARR, true, false);
            let t2 = bump_spec(t1, id, M_ARR, true, false);
            let r2 = if xs@.len() == 0 {
                r.push(row_info(id, file_id, rec, T_ARR, Some("[]"@), false))
            } else {
                r
            };
            if xs@.len() == 0 {
                lemma_push_ok(t2, r, row_info(id, file_id, rec, T_ARR, Some("[]"@), false));
            }
            lemma_elements_grow(v, xs@.len(), 0, path + "[]"@, id, depth, file_id, rec, t2, r2);
            lemma_elements_ok(v, xs@.len(), path + "[]"@, id, depth, file_id, rec, t2, r2);
        },
        JsonValue::Null => {
            lemma_intern_bump_ok(t, r, path, parent, key, depth, M_NULL, false, false);
            lemma_bump_spec(t1, id, M_NULL, false, false);
            lemma_push_ok(bump_spec(t1, id, M_NULL, false, false), r, row_info(id, file_id, rec, T_NULL, None, false));
        },
        JsonValue::Bool(b) => {
            lemma_intern_bump_ok(t, r, path, parent, key, depth, M_BOOL, false, true);
            lemma_bump_spec(t1, id, M_BOOL, false, true);
            let txt: Seq<char> = if b {
                "true"@
            } else {
                "false"@
            };
            lemma_push_ok(bump_spec(t1, id, M_BOOL, false, true), r, row_info(id, file_id, rec, T_BOOL, Some(txt), false));
        },
        JsonValue::Number(n) => {
            lemma_intern_bump_ok(t, r, path, parent, key, depth, M_NUM, false, true);
            lemma_bump_spec(t1, id, M_NUM, false, true);
            lemma_push_ok(bump_spec(t1, id, M_NUM, false, true), r, row_info(id, file_id, rec, T_NUM, Some(n@), false));
        },
        JsonValue::Text(s) => {
            lemma_intern_bump_ok(t, r, path, parent, key, depth, M_STR, false, has_content(s@));
            lemma_bump_spec(t1, id, M_STR, false, has_content(s@));
            lemma_push_ok(
                bump_spec(t1, id, M_STR, false, has_content(s@)),
                r,
                row_info(id, file_id, rec, T_STR, Some(clip(s@).0), clip(s@).1),
            );
        },
    }
}

proof fn lemma_members_ok(
    v: JsonValue,
    n: nat,
    path: Seq<char>,
    id: int,
    depth: i64,
    file_id: i64,
    rec: i64,
    t: Seq<PathInfo>,
    r: Seq<RowInfo>,
)
    requires
        state_ok(t, r),
        1 <= id <= t.len(),
        walk_members(v, n, path, id, depth, file_id, rec, t, r).0.len() <= i64::MAX,
    ensures
        state_ok(
            walk_members(v, n, path, id, depth, file_id, rec, t, r).0,
            walk_members(v, n, path, id, depth, file_id, rec, t, r).1,
        ),
    decreases v, 0nat, n,
{
    if n > 0 {
        lemma_members_grow(v, (n - 1) as nat, 0, path, id, depth, file_id, rec, t, r);
        lemma_members_grow(v, n, (n - 1) as nat, path, id, depth, file_id, rec, t, r);
        lemma_members_ok(v, (n - 1) as nat, path, id, depth, file_id, rec, t, r);
        let prev = walk_members(v, (n - 1) as nat, path, id, depth, file_id, rec, t, r);
        match v {
            JsonValue::Object(es) => {
                if n <= es@.len() {
                    let e = es@[n - 1];
                    lemma_walk_ok(
                        e.1,
                        path + "."@ + e.0@,
                        Some(id as i64),
                        e.0@,
                        (depth + 1) as i64,
                        file_id,
                        rec,
                        prev.0,
                        prev.1,
                    );
                }
            },
            _ => {},
        }
    }
}

proof fn lemma_elements_ok(
    v: JsonValue,
    n: nat,
    elem_path: Seq<char>,
    id: int,
    depth: i64,
    file_id: i64,
    rec: i64,
    t: Seq<PathInfo>,
    r: Seq<RowInfo>,
)
    requires
        state_ok(t, r),
        1 <= id <= t.len(),
        walk_elements(v, n, elem_path, id, depth, file_id, rec, t, r).0.len() <= i64::MAX,
    ensures
        state_ok(
            walk_elements(v, n, elem_path, id, depth, file_id, rec, t, r).0,
            walk_elements(v, n, elem_path, id, depth, file_id, rec, t, r).1,
        ),
    decreases v, 0nat, n,
{
    if n > 0 {
        lemma_elements_grow(v, (n - 1) as nat, 0, elem_path, id, depth, file_id, rec, t, r);
        lemma_elements_grow(v, n, (n - 1) as nat, elem_path, id, depth, file_id, rec, t, r);
        lemma_elements_ok(v, (n - 1) as nat, elem_path, id, depth, file_id, rec, t, r);
        let prev = walk_elements(v, (n - 1) as nat, elem_path, id, depth, file_id, rec, t, r);
        match v {
            JsonValue::Array(xs) => {
                if n <= xs@.len() {
                    lemma_walk_ok(
                        xs@[n - 1],
                        elem_path,
                        Some(id as i64),
                        "[]"@,
                        (depth + 1) as i64,
                        file_id,
                        rec,
                        prev.0,
                        prev.1,
                    );
                }
            },
            _ => {},
        }
    }
}

/// The nodes of a value: the value itself and the nodes of its members or
/// elements.
pub open spec fn node_count(v: JsonValue) -> nat
    decreases v, 1nat, 0nat,
{
    1 + children_count(
        v,
        match v {
            JsonValue::Object(es) => es@.len(),
            JsonValue::Array(xs) => xs@.len(),
            _ => 0,
        },
    )
}

/// The nodes of the first `n` members or elements of `v`.
pub open spec fn children_count(v: JsonValue, n: nat) -> nat
    decreases v, 0nat, n,
{
    if n == 0 {
        0
    } else {
        children_count(v, (n - 1) as nat) + match v {
            JsonValue::Object(es) => if n <= es@.len() {
                node_count(es@[n - 1].1)
            } else {
                0
            },
            JsonValue::Array(xs) => if n <= xs@.len() {
                node_count(xs@[n - 1])
            } else {
                0
            },
            _ => 0,
        }
    }
}

/// The table has room for `k` more occurrences: `k` more entries and `k`
/// more counts on any entry still fit in an `i64`.
pub open spec fn room(t: Seq<PathInfo>, k: int) -> bool {
    &&& 0 <= k
    &&& t.len() + k < i64::MAX
    &&& forall|i: int|
        0 <= i < t.len() ==> (#[trigger] t[i]).cnt + k <= i64::MAX && t[i].nonempty + k <= i64::MAX
}

proof fn lemma_room_fits(t: Seq<PathInfo>, k: int)
    requires
        room(t, k),
    ensures
        table_fits(t),
{
}

/// Interning a path and counting it uses one unit of room.
proof fn lemma_room_step(
    t: Seq<PathInfo>,
    k: int,
    path: Seq<char>,
    parent: Option<i64>,
    key: Seq<char>,
    depth: i64,
    mask: i64,
    is_array: bool,
    non_empty: bool,
)
    requires
        room(t, k),
        k >= 1,
    ensures
        room(
            bump_spec(
                intern_spec(t, path, parent, key, depth).0,
                intern_spec(t, path, parent, key, depth).1,
                mask,
                is_array,
                non_empty,
            ),
            k - 1,
        ),
{
    lemma_intern_spec(t, path, parent, key, depth);
    let (t1, id) = intern_spec(t, path, parent, key, depth);
    let t2 = bump_spec(t1, id, mask, is_array, non_empty);
    assert forall|i: int| 0 <= i < t2.len() implies (#[trigger] t2[i]).cnt + (k - 1) <= i64::MAX && t2[i].nonempty + (
    k - 1) <= i64::MAX by {
        if i < t.len() {
            assert(t1[i] == t[i]);
        } else {
            assert(t1[i] == fresh_info(path, parent, key, depth));
        }
    }
}

/// A walk uses as many units of room as the value has nodes, and writes at
/// most that many rows.
proof fn lemma_walk_room(
    v: JsonValue,
    path: Seq<char>,
    parent: Option<i64>,
    key: Seq<char>,
    depth: i64,
    file_id: i64,
    rec: i64,
    t: Seq<PathInfo>,
    r: Seq<RowInfo>,
    k: int,
)
    requires
        room(t, k),
        node_count(v) <= k,
    ensures
        room(walk_spec(v, path, parent, key, depth, file_id, rec, t, r).0, k - node_count(v)),
        walk_spec(v, path, parent, key, depth, file_id, rec, t, r).1.len() <= r.len() + node_count(v),
    decreases v, 1nat, 0nat,
{
    let (t1, id) = intern_spec(t, path, parent, key, depth);
    match v {
        JsonValue::Object(es) => {
            lemma_room_step(t, k, path, parent, key, depth, M_OBJ, false, false);
            let t2 = bump_spec(t1, id, M_OBJ, false, false);
            let r2 = if es@.len() == 0 {
                r.push(row_info(id, file_id, rec, T_OBJ, Some("{}"@), false))
            } else {
                r
            };
            lemma_members_room(v, es@.len(), path, id, depth, file_id, rec, t2, r2, k - 1);
        },
        JsonValue::Array(xs) => {
            lemma_room_step(t, k, path, parent, key, depth, M_ARR, true, false);
            let t2 = bump_spec(t1, id, M_ARR, true, false);
            let r2 = if xs@.len() == 0 {
                r.push(row_info(id, file_id, rec, T_ARR, Some("[]"@), false))
            } else {
                r
            };
            lemma_elements_room(v, xs@.len(), path + "[]"@, id, depth, file_id, rec, t2, r2, k - 1);
        },
        JsonValue::Null => {
            lemma_room_step(t, k, path, parent, key, depth, M_NULL, false, false);
        },
        JsonValue::Bool(b) => {
            lemma_room_step(t, k, path, parent, key, depth, M_BOOL, false, true);
        },
        JsonValue::Number(n) => {
            lemma_room_step(t, k, path, parent, key, depth, M_NUM, false, true);
        },
        JsonValue::Text(x) => {
            lemma_room_step(t, k, path, parent, key, depth, M_STR, false, has_content(x@));
        },
    }
}

proof fn lemma_members_room(
    v: JsonValue,
    n: nat,
    path: Seq<char>,
    id: int,
    depth: i64,
    file_id: i64,
    rec: i64,
    t: Seq<PathInfo>,
    r: Seq<RowInfo>,
    k: int,
)
    requires
        room(t, k),
        children_count(v, n) <= k,
    ensures
        room(walk_members(v, n, path, id, depth, file_id, rec, t, r).0, k - children_count(v, n)),
        walk_members(v, n, path, id, depth, file_id, rec, t, r).1.len() <= r.len() + children_count(v, n),
    decreases v, 0nat, n,
{
    if n > 0 {
        lemma_members_room(v, (n - 1) as nat, path, id, depth, file_id, rec, t, r, k);
        let prev = walk_members(v, (n - 1) as nat, path, id, depth, file_id, rec, t, r);
        match v {
            JsonValue::Object(es) => {
                if n <= es@.len() {
                    let e = es@[n - 1];
                    lemma_walk_room(
                        e.1,
                        path + "."@ + e.0@,
                        Some(id as i64),
                        e.0@,
                        (depth + 1) as i64,
                        file_id,
                        rec,
                        prev.0,
                        prev.1,
                        k - children_count(v, (n - 1) as nat),
                    );
                }
            },
            _ => {},
        }
    }
}

proof fn lemma_elements_room(
    v: JsonValue,
    n: nat,
    elem_path: Seq<char>,
    id: int,
    depth: i64,
    file_id: i64,
    rec: i64,
    t: Seq<PathInfo>,
    r: Seq<RowInfo>,
    k: int,
)
    requires
        room(t, k),
        children_count(v, n) <= k,
    ensures
        room(walk_elements(v, n, elem_path, id, depth, file_id, rec, t, r).0, k - children_count(v, n)),
        walk_elements(v, n, elem_path, id, depth, file_id, rec, t, r).1.len() <= r.len() + children_count(v, n),
    decreases v, 0nat, n,
{
    if n > 0 {
        lemma_elements_room(v, (n - 1) as nat, elem_path, id, depth, file_id, rec, t, r, k);
        let prev = walk_elements(v, (n - 1) as nat, elem_path, id, depth, file_id, rec, t, r);
        match v {
            JsonValue::Array(xs) => {
                if n <= xs@.len() {
                    lemma_walk_room(
                        xs@[n - 1],
                        elem_path,
                        Some(id as i64),
                        "[]"@,
                        (depth + 1) as i64,
                        file_id,
                        rec,
                        prev.0,
                        prev.1,
                        k - children_count(v, (n - 1) as nat),
                    );
                }
            },
            _ => {},
        }
    }
}

/// A value with few enough nodes nests within `i64` levels.
proof fn lemma_count_nesting(v: JsonValue, d: int)
    requires
        0 <= d,
        d + node_count(v) <= i64::MAX,
    ensures
        crate::json::nesting_ok(v, d),
    decreases v, 1nat, 0nat,
{
    let n: nat = match v {
        JsonValue::Object(es) => es@.len(),
        JsonValue::Array(xs) => xs@.len(),
        _ => 0,
    };
    lemma_children_nesting(v, n, d);
}

proof fn lemma_children_nesting(v: JsonValue, n: nat, d: int)
    requires
        0 <= d,
        d + 1 + children_count(v, n) <= i64::MAX,
    ensures
        crate::json::children_ok(v, n, d),
    decreases v, 0nat, n,
{
    if n > 0 {
        lemma_children_nesting(v, (n - 1) as nat, d);
        match v {
            JsonValue::Object(es) => {
                if n <= es@.len() {
                    lemma_count_nesting(es@[n - 1].1, d + 1);
                }
            },
            JsonValue::Array(xs) => {
                if n <= xs@.len() {
                    lemma_count_nesting(xs@[n - 1], d + 1);
                }
            },
            _ => {},
        }
    }
}

/// The nodes of a value, counted up to `cap`.
fn count_nodes(v: &JsonValue, cap: u64) -> (r: u64)
    requires
        cap <= i64::MAX,
    ensures
        r == if node_count(*v) <= cap {
            node_count(*v)
        } else {
            cap as nat
        },
    decreases *v,
{
    if cap == 0 {
        return 0;
    }
    let mut total: u64 = 1;
    match v {
        JsonValue::Object(es) => {
            let mut i: usize = 0;
            while i < es.len()
                invariant
                    *v == JsonValue::Object(*es),
                    cap <= i64::MAX,
                    1 <= cap,
                    0 <= i <= es@.len(),
                    total == if 1 + children_count(*v, i as nat) <= cap {
                        1 + children_count(*v, i as nat)
                    } else {
                        cap as nat
                    },
                decreases es@.len() - i,
            {
                proof {
                    assert(decreases_to!(*v => es@[i as int].1));
                }
                let c = count_nodes(&es[i].1, cap);
                total = if total + c > cap {
                    cap
                } else {
                    total + c
                };
                i = i + 1;
            }
        },
        JsonValue::Array(xs) => {
            let mut i: usize = 0;
            while i < xs.len()
                invariant
                    *v == JsonValue::Array(*xs),
                    cap <= i64::MAX,
                    1 <= cap,
                    0 <= i <= xs@.len(),
                    total == if 1 + children_count(*v, i as nat) <= cap {
                        1 + children_count(*v, i as nat)
                    } else {
                        cap as nat
                    },
                decreases xs@.len() - i,
            {
                proof {
                    assert(xs@[i as int] == xs[i as int]);
                    assert(decreases_to!(*v => xs@[i as int]));
                }
                let c = count_nodes(&xs[i], cap);
                total = if total + c > cap {
                    cap
                } else {
                    total + c
                };
                i = i + 1;
            }
        },
        _ => {},
    }
    total
}

fn push_row(
    out: &mut Vec<ValRow>,
    path_id: i64,
    file_id: i64,
    rec: i64,
    vtype: i64,
    txt: Option<String>,
    trunc: bool,
)
    ensures
        rows_view(final(out)@) == rows_view(old(out)@).push(
            row_info(path_id as int, file_id, rec, vtype, opt_view(txt), trunc),
        ),
{
    out.push(ValRow { path_id, file_id, rec, vtype, txt, trunc });
    proof {
        assert(rows_view(final(out)@) =~= rows_view(old(out)@).push(
            row_info(path_id as int, file_id, rec, vtype, opt_view(txt), trunc),
        ));
    }
}

/// Walks one value of a record: interns its canonical path, counts the
/// occurrence and emits the rows of its leaves.
fn walk(
    v: &JsonValue,
    path: &str,
    parent: Option<i64>,
    key: &str,
    depth: i64,
    interner: &mut Interner,
    file_id: i64,
    rec: i64,
    out: &mut Vec<ValRow>,
)
    requires
        old(interner).wf(),
        crate::json::nesting_ok(*v, depth as int),
        table_fits(
            walk_spec(*v, path@, parent, key@, depth, file_id, rec, old(interner).table(), rows_view(old(out)@)).0,
        ),
    ensures
        final(interner).wf(),
        (final(interner).table(), rows_view(final(out)@)) == walk_spec(
            *v,
            path@,
            parent,
            key@,
            depth,
            file_id,
            rec,
            old(interner).table(),
            rows_view(old(out)@),
        ),
    decreases *v,
{
    let ghost t = interner.table();
    let ghost r = rows_view(out@);
    let ghost fin = walk_spec(*v, path@, parent, key@, depth, file_id, rec, t, r);
    proof {
        lemma_intern_spec(t, path@, parent, key@, depth);
        lemma_walk_grows(*v, path@, parent, key@, depth, file_id, rec, t, r);
    }
    let id = interner.intern(path, parent, key, depth);
    let ghost t1 = interner.table();
    match v {
        JsonValue::Object(es) => {
            proof {
                lemma_bump_spec(t1, id as int, M_OBJ, false, false);
            }
            let ghost t2 = bump_spec(t1, id as int, M_OBJ, false, false);
            let ghost r2 = if es@.len() == 0 {
                r.push(row_info(id as int, file_id, rec, T_OBJ, Some("{}"@), false))
            } else {
                r
            };
            proof {
                lemma_members_grow(*v, es@.len(), 0, path@, id as int, depth, file_id, rec, t2, r2);
                lemma_fits_dominated(fin.0, t2);
            }
            interner.bump(id, M_OBJ, false, false);
            if es.len() == 0 {
                push_row(out, id, file_id, rec, T_OBJ, Some("{}".to_owned()), false);
            }
            let mut i: usize = 0;
            while i < es.len()
                invariant
                    interner.wf(),
                    0 <= i <= es@.len(),
                    (interner.table(), rows_view(out@)) == walk_members(
                        *v,
                        i as nat,
                        path@,
                        id as int,
                        depth,
                        file_id,
                        rec,
                        t2,
                        r2,
                    ),
                    fin == walk_members(*v, es@.len(), path@, id as int, depth, file_id, rec, t2, r2),
                    table_fits(fin.0),
                    *v == JsonValue::Object(*es),
                    crate::json::nesting_ok(*v, depth as int),
                    1 <= id,
                decreases es@.len() - i,
            {
                let e = &es[i];
                let k = &e.0;
                let child = path.to_owned().concat(".").concat(k.as_str());
                proof {
                    lemma_members_grow(*v, es@.len(), (i + 1) as nat, path@, id as int, depth, file_id, rec, t2, r2);
                    lemma_fits_dominated(fin.0, walk_members(*v, (i + 1) as nat, path@, id as int, depth, file_id, rec, t2, r2).0);
                    crate::json::lemma_child_nesting(*v, es@.len(), depth as int, i as int);
                    assert(decreases_to!(*v => es@[i as int].1));
                }
                walk(&e.1, child.as_str(), Some(id), k.as_str(), depth + 1, interner, file_id, rec, out);
                i = i + 1;
            }
        },
        JsonValue::Array(xs) => {
            proof {
                lemma_bump_spec(t1, id as int, M_ARR, true, false);
            }
            let ghost t2 = bump_spec(t1, id as int, M_ARR, true, false);
            let ghost r2 = if xs@.len() == 0 {
                r.push(row_info(id as int, file_id, rec, T_ARR, Some("[]"@), false))
            } else {
                r
            };
            let elem_path = path.to_owned().concat("[]");
            proof {
                lemma_elements_grow(*v, xs@.len(), 0, elem_path@, id as int, depth, file_id, rec, t2, r2);
                lemma_fits_dominated(fin.0, t2);
            }
            interner.bump(id, M_ARR, true, false);
            if xs.len() == 0 {
                push_row(out, id, file_id, rec, T_ARR, Some("[]".to_owned()), false);
            }
            let mut i: usize = 0;
            while i < xs.len()
                invariant
                    interner.wf(),
                    0 <= i <= xs@.len(),
                    (interner.table(), rows_view(out@)) == walk_elements(
                        *v,
                        i as nat,
                        elem_path@,
                        id as int,
                        depth,
                        file_id,
                        rec,
                        t2,
                        r2,
                    ),
                    fin == walk_elements(*v, xs@.len(), elem_path@, id as int, depth, file_id, rec, t2, r2),
                    table_fits(fin.0),
                    *v == JsonValue::Array(*xs),
                    crate::json::nesting_ok(*v, depth as int),
                    1 <= id,
                decreases xs@.len() - i,
            {
                proof {
                    lemma_elements_grow(*v, xs@.len(), (i + 1) as nat, elem_path@, id as int, depth, file_id, rec, t2, r2);
                    lemma_fits_dominated(fin.0, walk_elements(*v, (i + 1) as nat, elem_path@, id as int, depth, file_id, rec, t2, r2).0);
                    assert(xs@[i as int] == xs[i as int]);
                    crate::json::lemma_child_nesting(*v, xs@.len(), depth as int, i as int);
                    assert(decreases_to!(*v => xs@[i as int]));
                }
                walk(&xs[i], elem_path.as_str(), Some(id), "[]", depth + 1, interner, file_id, rec, out);
                i = i + 1;
            }
        },
        JsonValue::Null => {
            proof {
                lemma_bump_spec(t1, id as int, M_NULL, false, false);
                lemma_fits_dominated(fin.0, bump_spec(t1, id as int, M_NULL, false, false));
            }
            interner.bump(id, M_NULL, false, false);
            push_row(out, id, file_id, rec, T_NULL, None, false);
        },
        JsonValue::Bool(b) => {
            proof {
                lemma_bump_spec(t1, id as int, M_BOOL, false, true);
                lemma_fits_dominated(fin.0, bump_spec(t1, id as int, M_BOOL, false, true));
            }
            interner.bump(id, M_BOOL, false, true);
            let txt = if *b {
                "true".to_owned()
            } else {
                "false".to_owned()
            };
            push_row(out, id, file_id, rec, T_BOOL, Some(txt), false);
        },
        JsonValue::Number(n) => {
            proof {
                lemma_bump_spec(t1, id as int, M_NUM, false, true);
                lemma_fits_dominated(fin.0, bump_spec(t1, id as int, M_NUM, false, true));
            }
            interner.bump(id, M_NUM, false, true);
            push_row(out, id, file_id, rec, T_NUM, Some(n.clone()), false);
        },
        JsonValue::Text(s) => {
            let non_empty = not_blank(s.as_str());
            proof {
                lemma_bump_spec(t1, id as int, M_STR, false, non_empty);
                lemma_fits_dominated(fin.0, bump_spec(t1, id as int, M_STR, false, non_empty));
            }
            interner.bump(id, M_STR, false, non_empty);
            let (cut, trunc) = truncate_utf8(s.as_str());
            push_row(out, id, file_id, rec, T_STR, Some(cut), trunc);
        },
    }
}

/// Id of the root path `$`, the first path every interner holds.
pub const ROOT_ID: i64 = 1;

/// More errors than this from one file are not reported: a broken gigabyte
/// would flood the list with a million identical lines.
pub const MAX_ERRORS_PER_FILE: usize = 100;

/// The canonical path, parent, key and level at which a record is walked:
/// an element of a top-level array (or a line of a JSONL file) sits at
/// `$[]` under the root; a standalone value is the root `$` itself.
pub open spec fn record_place(element: bool) -> (Seq<char>, Option<i64>, Seq<char>, i64) {
    if element {
        ("$[]"@, Some(ROOT_ID), "[]"@, 1)
    } else {
        ("$"@, None, "$"@, 0)
    }
}

/// The walk of a whole record that starts from table `t`.
pub open spec fn record_walk(v: JsonValue, element: bool, file_id: i64, rec: i64, t: Seq<PathInfo>) -> (
    Seq<PathInfo>,
    Seq<RowInfo>,
) {
    let (path, parent, key, depth) = record_place(element);
    walk_spec(v, path, parent, key, depth, file_id, rec, t, Seq::empty())
}

/// The count of a root that is an array of records, before a walk.
pub open spec fn root_bumped(t: Seq<PathInfo>) -> Seq<PathInfo> {
    bump_spec(t, ROOT_ID as int, M_ARR, true, false)
}

/// A new interner's table is sound, and so are the rows written so far
/// (none).
pub proof fn lemma_new_table_ok()
    ensures
        state_ok(seq![fresh_info("$"@, None, "$"@, 0)], Seq::empty()),
{
    let t = seq![fresh_info("$"@, None, "$"@, 0)];
    assert(entry_ok(t, 0));
}

/// Walking a record, as an element of the root array or as the root value,
/// keeps the table and the rows sound; so does counting the root as an
/// array first.
pub proof fn lemma_record_walk_ok(v: JsonValue, element: bool, file_id: i64, rec: i64, t: Seq<PathInfo>)
    requires
        table_ok(t),
        1 <= t.len(),
        record_walk(v, element, file_id, rec, t).0.len() <= i64::MAX,
    ensures
        table_ok(root_bumped(t)),
        root_bumped(t).len() == t.len(),
        state_ok(record_walk(v, element, file_id, rec, t).0, record_walk(v, element, file_id, rec, t).1),
        forall|k: int|
            0 <= k < record_walk(v, element, file_id, rec, t).1.len() ==> (#[trigger] record_walk(
                v,
                element,
                file_id,
                rec,
                t,
            ).1[k]).file_id == file_id && record_walk(v, element, file_id, rec, t).1[k].rec == rec,
{
    lemma_bump_ok(t, Seq::empty(), ROOT_ID as int, M_ARR, true, false);
    lemma_bump_spec(t, ROOT_ID as int, M_ARR, true, false);
    let (path, parent, key, depth) = record_place(element);
    assert(entry_ok(t, 0));
    assert(t[0].path == "$"@);
    lemma_walk_ok(v, path, parent, key, depth, file_id, rec, t, Seq::empty());
    lemma_walk_tags(v, path, parent, key, depth, file_id, rec, t, Seq::empty());
}

/// The rows a walk adds come after the rows it started with, and all carry
/// the walk's file and record.
pub open spec fn rows_from(r0: Seq<RowInfo>, r: Seq<RowInfo>, file_id: i64, rec: i64) -> bool {
    &&& r0.len() <= r.len()
    &&& r.take(r0.len() as int) == r0
    &&& forall|k: int| r0.len() <= k < r.len() ==> (#[trigger] r[k]).file_id == file_id && r[k].rec == rec
}

proof fn lemma_rows_from_trans(a: Seq<RowInfo>, b: Seq<RowInfo>, c: Seq<RowInfo>, file_id: i64, rec: i64)
    requires
        rows_from(a, b, file_id, rec),
        rows_from(b, c, file_id, rec),
    ensures
        rows_from(a, c, file_id, rec),
{
    assert(c.take(a.len() as int) =~= b.take(a.len() as int)) by {
        assert forall|k: int| 0 <= k < a.len() implies c.take(a.len() as int)[k] == b.take(a.len() as int)[k] by {
            assert(c.take(b.len() as int)[k] == b[k]);
        }
    }
    assert forall|k: int| a.len() <= k < c.len() implies (#[trigger] c[k]).file_id == file_id && c[k].rec == rec by {
        if k < b.len() {
            assert(c.take(b.len() as int)[k] == c[k]);
        }
    }
}

proof fn lemma_rows_from_push(r: Seq<RowInfo>, x: RowInfo, file_id: i64, rec: i64)
    requires
        x.file_id == file_id,
        x.rec == rec,
    ensures
        rows_from(r, r.push(x), file_id, rec),
{
    assert(r.push(x).take(r.len() as int) =~= r);
}

proof fn lemma_rows_from_refl(r: Seq<RowInfo>, file_id: i64, rec: i64)
    ensures
        rows_from(r, r, file_id, rec),
{
    assert(r.take(r.len() as int) =~= r);
}

/// Every row a walk writes carries the walk's file and record.
proof fn lemma_walk_tags(
    v: JsonValue,
    path: Seq<char>,
    parent: Option<i64>,
    key: Seq<char>,
    depth: i64,
    file_id: i64,
    rec: i64,
    t: Seq<PathInfo>,
    r: Seq<RowInfo>,
)
    ensures
        rows_from(r, walk_spec(v, path, parent, key, depth, file_id, rec, t, r).1, file_id, rec),
    decreases v, 1nat, 0nat,
{
    let (t1, id) = intern_spec(t, path, parent, key, depth);
    match v {
        JsonValue::Object(es) => {
            let t2 = bump_spec(t1, id, M_OBJ, false, false);
            let r2 = if es@.len() == 0 {
                r.push(row_info(id, file_id, rec, T_OBJ, Some("{}"@), false))
            } else {
                r
            };
            if es@.len() == 0 {
                lemma_rows_from_push(r, row_info(id, file_id, rec, T_OBJ, Some("{}"@), false), file_id, rec);
            } else {
                lemma_rows_from_refl(r, file_id, rec);
            }
            lemma_members_tags(v, es@.len(), path, id, depth, file_id, rec, t2, r2);
            lemma_rows_from_trans(r, r2, walk_members(v, es@.len(), path, id, depth, file_id, rec, t2, r2).1, file_id, rec);
        },
        JsonValue::Array(xs) => {
            let t2 = bump_spec(t1, id, M_ARR, true, false);
            let r2 = if xs@.len() == 0 {
                r.push(row_info(id, file_id, rec, T_ARR, Some("[]"@), false))
            } else {
                r
            };
            if xs@.len() == 0 {
                lemma_rows_from_push(r, row_info(id, file_id, rec, T_ARR, Some("[]"@), false), file_id, rec);
            } else {
                lemma_rows_from_refl(r, file_id, rec);
            }
            lemma_elements_tags(v, xs@.len(), path + "[]"@, id, depth, file_id, rec, t2, r2);
            lemma_rows_from_trans(
                r,
                r2,
                walk_elements(v, xs@.len(), path + "[]"@, id, depth, file_id, rec, t2, r2).1,
                file_id,
                rec,
            );
        },
        JsonValue::Null => {
            lemma_rows_from_push(r, row_info(id, file_id, rec, T_NULL, None, false), file_id, rec);
        },
        JsonValue::Bool(b) => {
            let txt: Seq<char> = if b {
                "true"@
            } else {
                "false"@
            };
            lemma_rows_from_push(r, row_info(id, file_id, rec, T_BOOL, Some(txt), false), file_id, rec);
        },
        JsonValue::Number(n) => {
            lemma_rows_from_push(r, row_info(id, file_id, rec, T_NUM, Some(n@), false), file_id, rec);
        },
        JsonValue::Text(x) => {
            lemma_rows_from_push(r, row_info(id, file_id, rec, T_STR, Some(clip(x@).0), clip(x@).1), file_id, rec);
        },
    }
}

proof fn lemma_members_tags(
    v: JsonValue,
    n: nat,
    path: Seq<char>,
    id: int,
    depth: i64,
    file_id: i64,
    rec: i64,
    t: Seq<PathInfo>,
    r: Seq<RowInfo>,
)
    ensures
        rows_from(r, walk_members(v, n, path, id, depth, file_id, rec, t, r).1, file_id, rec),
    decreases v, 0nat, n,
{
    if n == 0 {
        lemma_rows_from_refl(r, file_id, rec);
    } else {
        lemma_members_tags(v, (n - 1) as nat, path, id, depth, file_id, rec, t, r);
        let prev = walk_members(v, (n - 1) as nat, path, id, depth, file_id, rec, t, r);
        let cur = walk_members(v, n, path, id, depth, file_id, rec, t, r);
        match v {
            JsonValue::Object(es) => {
                if n <= es@.len() {
                    let e = es@[n - 1];
                    lemma_walk_tags(
                        e.1,
                        path + "."@ + e.0@,
                        Some(id as i64),
                        e.0@,
                        (depth + 1) as i64,
                        file_id,
                        rec,
                        prev.0,
                        prev.1,
                    );
                    lemma_rows_from_trans(r, prev.1, cur.1, file_id, rec);
                }
            },
            _ => {},
        }
    }
}

proof fn lemma_elements_tags(
    v: JsonValue,
    n: nat,
    elem_path: Seq<char>,
    id: int,
    depth: i64,
    file_id: i64,
    rec: i64,
    t: Seq<PathInfo>,
    r: Seq<RowInfo>,
)
    ensures
        rows_from(r, walk_elements(v, n, elem_path, id, depth, file_id, rec, t, r).1, file_id, rec),
    decreases v, 0nat, n,
{
    if n == 0 {
        lemma_rows_from_refl(r, file_id, rec);
    } else {
        lemma_elements_tags(v, (n - 1) as nat, elem_path, id, depth, file_id, rec, t, r);
        let prev = walk_elements(v, (n - 1) as nat, elem_path, id, depth, file_id, rec, t, r);
        let cur = walk_elements(v, n, elem_path, id, depth, file_id, rec, t, r);
        match v {
            JsonValue::Array(xs) => {
                if n <= xs@.len() {
                    lemma_walk_tags(
                        xs@[n - 1],
                        elem_path,
                        Some(id as i64),
                        "[]"@,
                        (depth + 1) as i64,
                        file_id,
                        rec,
                        prev.0,
                        prev.1,
                    );
                    lemma_rows_from_trans(r, prev.1, cur.1, file_id, rec);
                }
            },
            _ => {},
        }
    }
}

/// The table as rows of the paths table: entry `i` has id `i + 1`.
pub open spec fn table_rows(t: Seq<PathInfo>) -> Seq<RowV> {
    Seq::new(
        t.len(),
        |i: int|
            RowV {
                id: (i + 1) as i64,
                path: t[i].path,
                parent: t[i].parent,
                key: t[i].key,
                is_array: t[i].is_array,
                cnt: t[i].cnt as i64,
                nonempty: t[i].nonempty as i64,
                mask: t[i].mask,
            },
    )
}

/// The paths a scan leaves are what the tree is built from: read back as
/// rows, their ids increase; the first is the root `$`, the only one with
/// no parent; every other has an earlier row as parent and was counted.
pub proof fn lemma_table_rows_ok(t: Seq<PathInfo>)
    requires
        table_ok(t),
        table_fits(t),
    ensures
        rows_ok(table_rows(t)),
        parents_present(table_rows(t)),
        t.len() >= 1 ==> table_rows(t)[0].path == "$"@,
        forall|i: int| 0 <= i < t.len() ==> ((#[trigger] table_rows(t)[i]).parent is None <==> i == 0),
        forall|i: int| 1 <= i < t.len() ==> (#[trigger] table_rows(t)[i]).cnt >= 1,
        forall|i: int|
            0 <= i < t.len() ==> 0 <= (#[trigger] table_rows(t)[i]).nonempty <= table_rows(t)[i].cnt,
{
    let rs = table_rows(t);
    assert forall|i: int| 0 <= i < t.len() implies ((#[trigger] table_rows(t)[i]).parent is None <==> i == 0) && (
    i >= 1 ==> table_rows(t)[i].cnt >= 1) && 0 <= table_rows(t)[i].nonempty <= table_rows(t)[i].cnt by {
        assert(entry_ok(t, i));
        assert(t[i].cnt <= i64::MAX);
    }
    if t.len() >= 1 {
        assert(entry_ok(t, 0));
    }
    assert forall|i: int| 0 <= i < rs.len() implies ((#[trigger] rs[i]).parent matches Some(p) ==> p < rs[i].id) by {
        assert(entry_ok(t, i));
    }
    assert forall|i: int| 0 <= i < rs.len() implies ((#[trigger] rs[i]).parent matches Some(p) ==> has_id(rs, p)) by {
        assert(entry_ok(t, i));
        match rs[i].parent {
            Some(p) => {
                assert(rs[p - 1].id == p);
            },
            None => {},
        }
    }
}

impl Interner {
    /// The rows of the paths table, in order of id: entry `i` gets id `i + 1`.
    pub fn rows(&self) -> (r: Vec<Row>)
        requires
            self.table().len() < i64::MAX,
        ensures
            rows_of(r@) == table_rows(self.table()),
    {
        let ghost t = self.table();
        let mut out: Vec<Row> = Vec::new();
        let mut i: usize = 0;
        while i < self.meta.len()
            invariant
                t == self.table(),
                t.len() == self.meta@.len(),
                t.len() < i64::MAX,
                0 <= i <= self.meta@.len(),
                rows_of(out@) == table_rows(t).take(i as int),
            decreases self.meta@.len() - i,
        {
            let m = &self.meta[i];
            assert(t[i as int] == m@);
            let row = Row {
                id: i as i64 + 1,
                path: m.path.clone(),
                parent: m.parent,
                key: m.key.clone(),
                is_array: m.is_array,
                cnt: m.cnt,
                nonempty: m.nonempty,
                mask: m.mask,
            };
            let ghost before = out@;
            out.push(row);
            proof {
                assert(rows_of(out@) =~= rows_of(before).push(row@));
                assert(row@ == table_rows(t)[i as int]);
                assert(rows_of(out@) =~= table_rows(t).take(i + 1));
            }
            i = i + 1;
        }
        assert(table_rows(t).take(t.len() as int) =~= table_rows(t));
        out
    }
}

/// How the records of a file are read: a JSONL file line by line; a JSON
/// file whose first meaningful byte opens an array element by element,
/// without loading it whole; any other JSON file as a stream of values.
#[derive(Clone, Copy, PartialEq, Eq, Structural, Debug)]
pub enum ReadMode {
    Lines,
    Elements,
    Values,
}

pub fn read_mode(kind: Kind, head: u8) -> (m: ReadMode)
    ensures
        m == (if kind == Kind::Jsonl {
            ReadMode::Lines
        } else if head == 0x5B {
            ReadMode::Elements
        } else {
            ReadMode::Values
        }),
{
    match kind {
        Kind::Jsonl => ReadMode::Lines,
        Kind::Json => if head == 0x5B {
            ReadMode::Elements
        } else {
            ReadMode::Values
        },
    }
}

impl Interner {
    /// One more occurrence of the root as an array of records: a JSON file
    /// whose top level is an array.
    pub fn count_root_array(&mut self)
        requires
            old(self).wf(),
            1 <= old(self).table().len(),
            old(self).table()[0].cnt < i64::MAX,
        ensures
            final(self).wf(),
            final(self).table() == root_bumped(old(self).table()),
    {
        self.bump(ROOT_ID, M_ARR, true, false);
    }
}

/// What one file gave: records, values, and the errors to report.
pub struct FileOutcome {
    pub records: u64,
    pub values: u64,
    pub errors: Vec<(Option<i64>, String)>,
}

pub open spec fn errors_view(e: Seq<(Option<i64>, String)>) -> Seq<(Option<i64>, Seq<char>)> {
    e.map_values(|x: (Option<i64>, String)| (x.0, x.1@))
}

/// The errors of a file after one more: added while the file has reported
/// fewer than `MAX_ERRORS_PER_FILE`, dropped after.
pub open spec fn error_added(
    errs: Seq<(Option<i64>, Seq<char>)>,
    line: Option<i64>,
    message: Seq<char>,
) -> Seq<(Option<i64>, Seq<char>)> {
    if errs.len() < MAX_ERRORS_PER_FILE {
        errs.push((line, message))
    } else {
        errs
    }
}

impl FileOutcome {
    pub fn new() -> (out: Self)
        ensures
            out.records == 0,
            out.values == 0,
            out.errors@.len() == 0,
    {
        FileOutcome { records: 0, values: 0, errors: Vec::new() }
    }

    /// Reports an error unless the file already reported the maximum: no
    /// more than `MAX_ERRORS_PER_FILE` errors of a file reach the report.
    pub fn note_error(&mut self, line: Option<i64>, message: String)
        ensures
            final(self).records == old(self).records,
            final(self).values == old(self).values,
            errors_view(final(self).errors@) == error_added(errors_view(old(self).errors@), line, message@),
            old(self).errors@.len() <= MAX_ERRORS_PER_FILE ==> final(self).errors@.len() <= MAX_ERRORS_PER_FILE,
    {
        if self.errors.len() < MAX_ERRORS_PER_FILE {
            self.errors.push((line, message));
            proof {
                assert(errors_view(final(self).errors@) =~= errors_view(old(self).errors@).push((line, message@)));
            }
        }
    }

    /// Reports an error that ends the reading of the file (within the cap,
    /// as every error).
    pub fn note_failure(&mut self, line: Option<i64>, message: String)
        ensures
            final(self).records == old(self).records,
            final(self).values == old(self).values,
            errors_view(final(self).errors@) == error_added(errors_view(old(self).errors@), line, message@),
            old(self).errors@.len() <= MAX_ERRORS_PER_FILE ==> final(self).errors@.len() <= MAX_ERRORS_PER_FILE,
    {
        self.note_error(line, message);
    }

    /// The file cannot be opened.
    pub fn note_unopenable(&mut self, reason: &str)
        ensures
            final(self).records == old(self).records,
            final(self).values == old(self).values,
            errors_view(final(self).errors@) == error_added(
                errors_view(old(self).errors@),
                None,
                "не открывается: "@ + reason@,
            ),
            old(self).errors@.len() <= MAX_ERRORS_PER_FILE ==> final(self).errors@.len() <= MAX_ERRORS_PER_FILE,
    {
        let message = "не открывается: ".to_owned().concat(reason);
        self.note_failure(None, message);
    }

    /// A JSON file that holds nothing but white space.
    pub fn note_empty(&mut self)
        ensures
            final(self).records == old(self).records,
            final(self).values == old(self).values,
            errors_view(final(self).errors@) == error_added(errors_view(old(self).errors@), None, "файл пустой"@),
            old(self).errors@.len() <= MAX_ERRORS_PER_FILE ==> final(self).errors@.len() <= MAX_ERRORS_PER_FILE,
    {
        self.note_failure(None, "файл пустой".to_owned());
    }

    /// Line `line` of a JSONL file cannot be read; reading stops there.
    pub fn note_unreadable_line(&mut self, line: i64, reason: &str)
        ensures
            final(self).records == old(self).records,
            final(self).values == old(self).values,
            errors_view(final(self).errors@) == error_added(
                errors_view(old(self).errors@),
                Some(line),
                "не читается строка: "@ + reason@,
            ),
            old(self).errors@.len() <= MAX_ERRORS_PER_FILE ==> final(self).errors@.len() <= MAX_ERRORS_PER_FILE,
    {
        let message = "не читается строка: ".to_owned().concat(reason);
        self.note_error(Some(line), message);
    }

    /// A parse error while reading a file in mode `mode`, reported within
    /// the cap. A bad line of a JSONL file is skipped and the next line is
    /// read; a bad value of a stream stops the reading; so does a broken
    /// top-level array, whose error has no line. Returns whether reading
    /// stops.
    pub fn note_parse_error(&mut self, mode: ReadMode, line: Option<i64>, message: String) -> (stop: bool)
        ensures
            stop == (mode != ReadMode::Lines),
            final(self).records == old(self).records,
            final(self).values == old(self).values,
            errors_view(final(self).errors@) == error_added(
                errors_view(old(self).errors@),
                if mode == ReadMode::Elements {
                    None
                } else {
                    line
                },
                message@,
            ),
            old(self).errors@.len() <= MAX_ERRORS_PER_FILE ==> final(self).errors@.len() <= MAX_ERRORS_PER_FILE,
    {
        match mode {
            ReadMode::Elements => {
                self.note_failure(None, message);
                true
            },
            ReadMode::Lines => {
                self.note_error(line, message);
                false
            },
            ReadMode::Values => {
                self.note_error(line, message);
                true
            },
        }
    }

    /// Walks one record and counts it; returns the rows to store.
    /// `element` says whether the record is an element of a top-level array
    /// (or a JSONL line) rather than a standalone value.
    pub fn add_record(
        &mut self,
        v: &JsonValue,
        element: bool,
        interner: &mut Interner,
        file_id: i64,
    ) -> (rows: Vec<ValRow>)
        requires
            old(interner).wf(),
            old(self).records < i64::MAX,
            crate::json::nesting_ok(*v, record_place(element).3 as int),
            table_fits(record_walk(*v, element, file_id, old(self).records as i64, old(interner).table()).0),
            old(self).values + record_walk(*v, element, file_id, old(self).records as i64, old(interner).table()).1.len() <= u64::MAX,
        ensures
            final(interner).wf(),
            (final(interner).table(), rows_view(rows@)) == record_walk(
                *v,
                element,
                file_id,
                old(self).records as i64,
                old(interner).table(),
            ),
            final(self).records == old(self).records + 1,
            final(self).values == old(self).values + rows@.len(),
            final(self).errors == old(self).errors,
    {
        let mut rows: Vec<ValRow> = Vec::new();
        proof {
            assert(rows_view(rows@) =~= Seq::<RowInfo>::empty());
        }
        let rec = self.records as i64;
        if element {
            walk(v, "$[]", Some(ROOT_ID), "[]", 1, interner, file_id, rec, &mut rows);
        } else {
            walk(v, "$", None, "$", 0, interner, file_id, rec, &mut rows);
        }
        self.records = self.records + 1;
        self.values = self.values + rows.len() as u64;
        rows
    }

    /// A line of a JSONL file parsed into a record: the root counts one more
    /// array occurrence, then the record is walked as an element.
    pub fn add_line_record(&mut self, v: &JsonValue, interner: &mut Interner, file_id: i64) -> (rows: Vec<ValRow>)
        requires
            old(interner).wf(),
            1 <= old(interner).table().len(),
            old(self).records < i64::MAX,
            crate::json::nesting_ok(*v, 1),
            table_fits(record_walk(*v, true, file_id, old(self).records as i64, root_bumped(old(interner).table())).0),
            old(self).values + record_walk(*v, true, file_id, old(self).records as i64, root_bumped(old(interner).table())).1.len() <= u64::MAX,
        ensures
            final(interner).wf(),
            (final(interner).table(), rows_view(rows@)) == record_walk(
                *v,
                true,
                file_id,
                old(self).records as i64,
                root_bumped(old(interner).table()),
            ),
            final(self).records == old(self).records + 1,
            final(self).values == old(self).values + rows@.len(),
            final(self).errors == old(self).errors,
    {
        let ghost t = interner.table();
        proof {
            lemma_bump_spec(t, ROOT_ID as int, M_ARR, true, false);
            lemma_walk_grows(*v, "$[]"@, Some(ROOT_ID), "[]"@, 1, file_id, self.records as i64, root_bumped(t), Seq::empty());
            lemma_fits_dominated(record_walk(*v, true, file_id, self.records as i64, root_bumped(t)).0, root_bumped(t));
        }
        interner.bump(ROOT_ID, M_ARR, true, false);
        self.add_record(v, true, interner, file_id)
    }
}

/// What a line of a JSONL file holds: nothing when it is blank, else what
/// its text, byte-order marks and white space trimmed, parses to.
pub open spec fn line_parsed(line: Seq<char>) -> Option<Result<JsonValue, Seq<char>>> {
    if line_content(line).len() == 0 {
        None
    } else {
        Some(json_parse(line_content(line)))
    }
}

/// A record of value `v` fits: its number, the counts of the table (`extra`
/// more for a JSONL line, which also counts the root) and the count of
/// values stay in range.
pub open spec fn record_fits(out: FileOutcome, t: Seq<PathInfo>, v: JsonValue, extra: int) -> bool {
    &&& out.records < i64::MAX
    &&& 1 <= t.len()
    &&& room(t, node_count(v) + extra)
    &&& out.values + node_count(v) <= u64::MAX
}

proof fn lemma_room_bump(t: Seq<PathInfo>, k: int, id: int, mask: i64, is_array: bool, non_empty: bool)
    requires
        room(t, k),
        k >= 1,
        1 <= id <= t.len(),
    ensures
        room(bump_spec(t, id, mask, is_array, non_empty), k - 1),
{
    let b = bump_spec(t, id, mask, is_array, non_empty);
    assert forall|i: int| 0 <= i < b.len() implies (#[trigger] b[i]).cnt + (k - 1) <= i64::MAX && b[i].nonempty + (
    k - 1) <= i64::MAX by {
        assert(t[i].cnt + k <= i64::MAX);
    }
}

/// A record that fits meets what walking it needs.
proof fn lemma_fits_record(out: FileOutcome, t: Seq<PathInfo>, v: JsonValue, element: bool, file_id: i64)
    requires
        record_fits(out, t, v, 0),
    ensures
        crate::json::nesting_ok(v, record_place(element).3 as int),
        table_fits(record_walk(v, element, file_id, out.records as i64, t).0),
        out.values + record_walk(v, element, file_id, out.records as i64, t).1.len() <= u64::MAX,
{
    let (path, parent, key, depth) = record_place(element);
    lemma_count_nesting(v, depth as int);
    lemma_walk_room(v, path, parent, key, depth, file_id, out.records as i64, t, Seq::empty(), node_count(v) as int);
}

/// A line record that fits meets what counting the root and walking it need.
proof fn lemma_fits_line(out: FileOutcome, t: Seq<PathInfo>, v: JsonValue, file_id: i64)
    requires
        record_fits(out, t, v, 1),
    ensures
        crate::json::nesting_ok(v, 1),
        table_fits(record_walk(v, true, file_id, out.records as i64, root_bumped(t)).0),
        out.values + record_walk(v, true, file_id, out.records as i64, root_bumped(t)).1.len() <= u64::MAX,
{
    lemma_room_bump(t, (node_count(v) + 1) as int, ROOT_ID as int, M_ARR, true, false);
    lemma_fits_record(out, root_bumped(t), v, true, file_id);
}

impl Interner {
    /// Whether the table has room for `k` more occurrences.
    pub fn has_room(&self, k: u64) -> (r: bool)
        requires
            k <= i64::MAX,
        ensures
            r == room(self.table(), k as int),
    {
        let ghost t = self.table();
        let lim: i64 = 9223372036854775807i64 - (k as i64);
        if (self.meta.len() as u64) >= (lim as u64) {
            return false;
        }
        let mut i: usize = 0;
        while i < self.meta.len()
            invariant
                t == self.table(),
                t.len() == self.meta@.len(),
                k <= i64::MAX,
                lim == i64::MAX - k,
                0 <= i <= self.meta@.len(),
                forall|j: int| 0 <= j < i ==> (#[trigger] t[j]).cnt + k <= i64::MAX && t[j].nonempty + k <= i64::MAX,
            decreases self.meta@.len() - i,
        {
            let m = &self.meta[i];
            assert(t[i as int] == m@);
            if m.cnt > lim || m.nonempty > lim {
                return false;
            }
            i = i + 1;
        }
        true
    }
}

impl FileOutcome {
    /// Whether a record of value `v` fits; `extra` is 1 for a JSONL line.
    pub fn fits(&self, interner: &Interner, v: &JsonValue, extra: u64) -> (r: bool)
        requires
            extra <= 1,
        ensures
            r == record_fits(*self, interner.table(), *v, extra as int),
    {
        let cap: u64 = 9223372036854775807u64;
        let n = count_nodes(v, cap);
        if n == cap {
            return false;
        }
        if self.records >= 9223372036854775807u64 || interner.meta.len() == 0 {
            return false;
        }
        if self.values > 18446744073709551615u64 - n {
            return false;
        }
        interner.has_room(n + extra)
    }

    /// One line of a JSONL file, already parsed (`None`: a blank line). A
    /// blank line changes nothing; a record is counted and walked as an
    /// element of the root array, which counts one more array; a parse error
    /// is reported within the cap, and reading goes on with the next line.
    pub fn take_line(
        &mut self,
        line_no: i64,
        parsed: Option<Result<JsonValue, String>>,
        interner: &mut Interner,
        file_id: i64,
    ) -> (rows: Vec<ValRow>)
        requires
            old(interner).wf(),
            parsed matches Some(Ok(v)) ==> record_fits(*old(self), old(interner).table(), v, 1),
        ensures
            final(interner).wf(),
            parsed is None ==> *final(self) == *old(self) && *final(interner) == *old(interner) && rows@.len() == 0,
            parsed matches Some(Ok(v)) ==> {
                &&& (final(interner).table(), rows_view(rows@)) == record_walk(
                    v,
                    true,
                    file_id,
                    old(self).records as i64,
                    root_bumped(old(interner).table()),
                )
                &&& final(self).records == old(self).records + 1
                &&& final(self).values == old(self).values + rows@.len()
                &&& final(self).errors == old(self).errors
            },
            parsed matches Some(Err(m)) ==> {
                &&& *final(interner) == *old(interner)
                &&& rows@.len() == 0
                &&& final(self).records == old(self).records
                &&& final(self).values == old(self).values
                &&& errors_view(final(self).errors@) == error_added(errors_view(old(self).errors@), Some(line_no), m@)
            },
    {
        match parsed {
            None => Vec::new(),
            Some(Ok(v)) => {
                proof {
                    lemma_fits_line(*self, interner.table(), v, file_id);
                }
                self.add_line_record(&v, interner, file_id)
            },
            Some(Err(m)) => {
                self.note_parse_error(ReadMode::Lines, Some(line_no), m);
                Vec::new()
            },
        }
    }

    /// One line of a JSONL file, read as `take_line` takes it once parsed.
    /// Returns `None`, and changes nothing, exactly when the line holds a
    /// record that does not fit.
    pub fn read_line(&mut self, line_no: i64, line: &str, interner: &mut Interner, file_id: i64) -> (r: Option<
        Vec<ValRow>,
    >)
        requires
            old(interner).wf(),
        ensures
            final(interner).wf(),
            r is None <==> (line_parsed(line@) matches Some(Ok(v)) && !record_fits(
                *old(self),
                old(interner).table(),
                v,
                1,
            )),
            r is None ==> *final(self) == *old(self) && *final(interner) == *old(interner),
            r matches Some(rows) ==> match line_parsed(line@) {
                None => *final(self) == *old(self) && *final(interner) == *old(interner) && rows@.len() == 0,
                Some(Ok(v)) => {
                    &&& (final(interner).table(), rows_view(rows@)) == record_walk(
                        v,
                        true,
                        file_id,
                        old(self).records as i64,
                        root_bumped(old(interner).table()),
                    )
                    &&& final(self).records == old(self).records + 1
                    &&& final(self).values == old(self).values + rows@.len()
                    &&& final(self).errors == old(self).errors
                },
                Some(Err(m)) => {
                    &&& *final(interner) == *old(interner)
                    &&& rows@.len() == 0
                    &&& final(self).records == old(self).records
                    &&& final(self).values == old(self).values
                    &&& errors_view(final(self).errors@) == error_added(
                        errors_view(old(self).errors@),
                        Some(line_no),
                        m,
                    )
                },
            },
    {
        let t = line_text(line);
        if t.as_str().is_empty() {
            return Some(self.take_line(line_no, None, interner, file_id));
        }
        match parse_json(t.as_str()) {
            Ok(v) => {
                if !self.fits(interner, &v, 1) {
                    return None;
                }
                Some(self.take_line(line_no, Some(Ok(v)), interner, file_id))
            },
            Err(m) => Some(self.take_line(line_no, Some(Err(m)), interner, file_id)),
        }
    }
}

/// The records of the lines of a JSONL file, in order: the values of the
/// lines that parse. The scan gives record number `n` to the `n`-th of them
/// (`read_line` numbers a record by the records counted before it).
pub open spec fn line_records(lines: Seq<Seq<char>>) -> Seq<JsonValue>
    decreases lines.len(),
{
    if lines.len() == 0 {
        Seq::empty()
    } else {
        let prev = line_records(lines.drop_last());
        match line_parsed(lines.last()) {
            Some(Ok(v)) => prev.push(v),
            _ => prev,
        }
    }
}

/// Reading a record back, line by line as `RecordSeek::offer_line` takes
/// them: the records seen so far, and the record asked for once found.
pub open spec fn seek_lines(lines: Seq<Seq<char>>, target: int) -> (int, Option<JsonValue>)
    decreases lines.len(),
{
    if lines.len() == 0 {
        (0, None)
    } else {
        let (seen, found) = seek_lines(lines.drop_last(), target);
        if found is Some {
            (seen, found)
        } else {
            match line_parsed(lines.last()) {
                Some(Ok(v)) => if seen == target {
                    (seen, Some(v))
                } else {
                    (seen + 1, None)
                },
                _ => (seen, None),
            }
        }
    }
}

/// Reading record `n` of a JSONL file back finds the record the scan
/// numbered `n`, and finds nothing for a number the scan never gave: the
/// read skips exactly the lines the scan skips.
pub proof fn lemma_read_back(lines: Seq<Seq<char>>, target: int)
    requires
        0 <= target,
    ensures
        target < line_records(lines).len() ==> seek_lines(lines, target).1 == Some(line_records(lines)[target]),
        target >= line_records(lines).len() ==> seek_lines(lines, target) == (
            line_records(lines).len() as int,
            None::<JsonValue>,
        ),
    decreases lines.len(),
{
    if lines.len() > 0 {
        lemma_read_back(lines.drop_last(), target);
        let prev = line_records(lines.drop_last());
        match line_parsed(lines.last()) {
            Some(Ok(v)) => {
                if target < prev.len() {
                    assert(prev.push(v)[target] == prev[target]);
                }
            },
            _ => {},
        }
    }
}

/// The format of a file by its extension, compared without ASCII case:
/// `json` is a JSON file, `jsonl` and `ndjson` are JSONL files; any other
/// extension is not scanned.
pub open spec fn extension_kind(ext: Seq<char>) -> Option<Kind> {
    if lower_all(ext) == "json"@ {
        Some(Kind::Json)
    } else if lower_all(ext) == "jsonl"@ || lower_all(ext) == "ndjson"@ {
        Some(Kind::Jsonl)
    } else {
        None
    }
}

pub fn kind_for_extension(ext: &str) -> (r: Option<Kind>)
    ensures
        r == extension_kind(ext@),
{
    proof {
        reveal_strlit("json");
        reveal_strlit("jsonl");
        reveal_strlit("ndjson");
        assert(lower_all("json"@) =~= "json"@);
        assert(lower_all("jsonl"@) =~= "jsonl"@);
        assert(lower_all("ndjson"@) =~= "ndjson"@);
    }
    if eq_ignore_ascii_case(ext, "json") {
        Some(Kind::Json)
    } else if eq_ignore_ascii_case(ext, "jsonl") || eq_ignore_ascii_case(ext, "ndjson") {
        Some(Kind::Jsonl)
    } else {
        None
    }
}

/// The walk descends into every entry but a directory named `.git`: the
/// JSON files there belong to the version control, not to the data.
pub open spec fn entry_entered(is_dir: bool, name: Seq<char>) -> bool {
    !(is_dir && name == ".git"@)
}

pub fn enters_entry(is_dir: bool, name: &str) -> (r: bool)
    ensures
        r == entry_entered(is_dir, name@),
{
    proof {
        reveal_strlit(".git");
    }
    if !is_dir {
        return true;
    }
    !str_equal(name, ".git")
}

/// The kind a file row stores back as a format: `jsonl` reads as JSONL,
/// anything else as JSON.
pub fn kind_from_name(name: &str) -> (r: Kind)
    ensures
        r == (if name@ == "jsonl"@ {
            Kind::Jsonl
        } else {
            Kind::Json
        }),
{
    if str_equal(name, "jsonl") {
        Kind::Jsonl
    } else {
        Kind::Json
    }
}

/// Values inserted between two commits of the scan transaction, at most.
pub const COMMIT_EVERY: u64 = 250000;

/// The totals of a scan after one more file: it counts as failed when it
/// reported an error.
pub fn add_file(summary: &mut ScanSummary, outcome: &FileOutcome, bytes: u64)
    requires
        old(summary).files_scanned < u64::MAX,
        old(summary).files_failed < u64::MAX,
        old(summary).records + outcome.records <= u64::MAX,
        old(summary).values + outcome.values <= u64::MAX,
        old(summary).bytes + bytes <= u64::MAX,
    ensures
        final(summary).files_scanned == old(summary).files_scanned + 1,
        final(summary).files_failed == old(summary).files_failed + if outcome.errors@.len() > 0 {
            1int
        } else {
            0int
        },
        final(summary).records == old(summary).records + outcome.records,
        final(summary).values == old(summary).values + outcome.values,
        final(summary).bytes == old(summary).bytes + bytes,
        final(summary).root == old(summary).root,
        final(summary).keys == old(summary).keys,
        final(summary).elapsed_ms == old(summary).elapsed_ms,
{
    if outcome.errors.len() > 0 {
        summary.files_failed = summary.files_failed + 1;
    }
    summary.files_scanned = summary.files_scanned + 1;
    summary.records = summary.records + outcome.records;
    summary.values = summary.values + outcome.values;
    summary.bytes = summary.bytes + bytes;
}

/// Values inserted since the last commit, and whether to commit now: once
/// more than `COMMIT_EVERY` values wait, they are committed and the count
/// starts over.
pub fn commit_due(since: u64, values: u64) -> (r: (u64, bool))
    requires
        since + values <= u64::MAX,
    ensures
        r.1 == (since + values > COMMIT_EVERY),
        r.0 == if r.1 {
            0
        } else {
            since + values
        },
{
    let s = since + values;
    if s > COMMIT_EVERY {
        (0, true)
    } else {
        (s, false)
    }
}

/// Progress is sent for the last file, and otherwise at most every 50 ms.
pub fn progress_due(files_done: u64, files_total: u64, elapsed_ms: u128) -> (r: bool)
    ensures
        r == (files_done == files_total || elapsed_ms > 50),
{
    files_done == files_total || elapsed_ms > 50
}

} // verus!
