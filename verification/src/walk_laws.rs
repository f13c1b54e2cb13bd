//! What the walk of a record promises about types and texts, whatever the
//! record: each value marks its own JSON type at its path, every values row
//! agrees with the types recorded for its path, and a scalar is indexed
//! under its JSON text.

use vstd::prelude::*;

use crate::db::{type_bit, M_ARR, M_BOOL, M_NULL, M_NUM, M_OBJ, M_STR, T_ARR, T_BOOL, T_NULL, T_NUM, T_OBJ, T_STR};
use crate::json::JsonValue;
use crate::scan::{
    bump_spec, intern_spec, lemma_bump_spec, lemma_elements_grow, lemma_intern_spec,
    lemma_members_grow, row_info, walk_elements, walk_members, walk_spec, PathInfo, RowInfo,
};
use crate::text::clip;

verus! {

/// The mask bit of the JSON type of `v`.
pub open spec fn json_type_bit(v: JsonValue) -> i64 {
    match v {
        JsonValue::Null => M_NULL,
        JsonValue::Bool(_) => M_BOOL,
        JsonValue::Number(_) => M_NUM,
        JsonValue::Text(_) => M_STR,
        JsonValue::Object(_) => M_OBJ,
        JsonValue::Array(_) => M_ARR,
    }
}

/// The value-type code of the JSON type of `v`.
pub open spec fn json_type_code(v: JsonValue) -> i64 {
    match v {
        JsonValue::Null => T_NULL,
        JsonValue::Bool(_) => T_BOOL,
        JsonValue::Number(_) => T_NUM,
        JsonValue::Text(_) => T_STR,
        JsonValue::Object(_) => T_OBJ,
        JsonValue::Array(_) => T_ARR,
    }
}

/// A JSON value with no members or elements.
pub open spec fn is_scalar(v: JsonValue) -> bool {
    !(v is Object) && !(v is Array)
}

/// The JSON text of a scalar as the values table stores it: none for
/// `null`, `true` / `false` for a boolean, the printed number, and the
/// characters of a string (cut at the text limit).
pub open spec fn scalar_text(v: JsonValue) -> Option<Seq<char>> {
    match v {
        JsonValue::Bool(b) => Some(
            if b {
                "true"@
            } else {
                "false"@
            },
        ),
        JsonValue::Number(n) => Some(n@),
        JsonValue::Text(s) => Some(clip(s@).0),
        _ => None,
    }
}

/// Table `big` keeps every type bit that table `small` recorded, and every
/// entry that was an array stays one.
pub open spec fn keeps_bits(big: Seq<PathInfo>, small: Seq<PathInfo>) -> bool {
    &&& small.len() <= big.len()
    &&& forall|i: int|
        0 <= i < small.len() ==> (#[trigger] big[i]).mask | small[i].mask == big[i].mask && (small[i].is_array
            ==> big[i].is_array)
}

/// Every values row names an entry of the table, and that entry's types
/// include the row's own type.
pub open spec fn rows_typed(t: Seq<PathInfo>, r: Seq<RowInfo>) -> bool {
    forall|k: int|
        0 <= k < r.len() ==> 1 <= (#[trigger] r[k]).path_id <= t.len() && t[r[k].path_id - 1].mask & type_bit(
            r[k].vtype as int,
        ) != 0
}

proof fn lemma_keeps_refl(t: Seq<PathInfo>)
    ensures
        keeps_bits(t, t),
{
    assert forall|i: int| 0 <= i < t.len() implies (#[trigger] t[i]).mask | t[i].mask == t[i].mask && (t[i].is_array
        ==> t[i].is_array) by {
        let m = t[i].mask;
        assert(m | m == m) by (bit_vector);
    }
}

proof fn lemma_keeps_trans(a: Seq<PathInfo>, b: Seq<PathInfo>, c: Seq<PathInfo>)
    requires
        keeps_bits(b, a),
        keeps_bits(c, b),
    ensures
        keeps_bits(c, a),
{
    assert forall|i: int| 0 <= i < a.len() implies (#[trigger] c[i]).mask | a[i].mask == c[i].mask && (a[i].is_array
        ==> c[i].is_array) by {
        assert(a[i].is_array ==> b[i].is_array);
        let x = a[i].mask;
        let y = b[i].mask;
        let z = c[i].mask;
        assert(y | x == y);
        assert(z | y == z);
        assert((y | x == y && z | y == z) ==> z | x == z) by (bit_vector);
    }
}

proof fn lemma_intern_keeps(t: Seq<PathInfo>, path: Seq<char>, parent: Option<i64>, key: Seq<char>, depth: i64)
    ensures
        keeps_bits(intern_spec(t, path, parent, key, depth).0, t),
{
    let t1 = intern_spec(t, path, parent, key, depth).0;
    assert forall|i: int| 0 <= i < t.len() implies (#[trigger] t1[i]).mask | t[i].mask == t1[i].mask && (t[i].is_array
        ==> t1[i].is_array) by {
        assert(t1[i] == t[i]);
        let m = t[i].mask;
        assert(m | m == m) by (bit_vector);
    }
}

proof fn lemma_bump_keeps(t: Seq<PathInfo>, id: int, mask: i64, is_array: bool, non_empty: bool)
    requires
        1 <= id <= t.len(),
        mask != 0,
    ensures
        keeps_bits(bump_spec(t, id, mask, is_array, non_empty), t),
        bump_spec(t, id, mask, is_array, non_empty)[id - 1].mask & mask != 0,
        is_array ==> bump_spec(t, id, mask, is_array, non_empty)[id - 1].is_array,
{
    let b = bump_spec(t, id, mask, is_array, non_empty);
    assert forall|i: int| 0 <= i < t.len() implies (#[trigger] b[i]).mask | t[i].mask == b[i].mask && (t[i].is_array
        ==> b[i].is_array) by {
        let m = t[i].mask;
        if i == id - 1 {
            assert((m | mask) | m == m | mask) by (bit_vector);
        } else {
            assert(b[i] == t[i]);
            assert(m | m == m) by (bit_vector);
        }
    }
    let m = t[id - 1].mask;
    assert(mask != 0 ==> (m | mask) & mask != 0) by (bit_vector);
}

proof fn lemma_rows_typed_keeps(t: Seq<PathInfo>, big: Seq<PathInfo>, r: Seq<RowInfo>)
    requires
        keeps_bits(big, t),
        rows_typed(t, r),
    ensures
        rows_typed(big, r),
{
    assert forall|k: int| 0 <= k < r.len() implies 1 <= (#[trigger] r[k]).path_id <= big.len() && big[r[k].path_id
        - 1].mask & type_bit(r[k].vtype as int) != 0 by {
        let i = r[k].path_id - 1;
        let s = t[i].mask;
        let b = big[i].mask;
        let x = type_bit(r[k].vtype as int);
        assert(b | s == b);
        assert(s & x != 0);
        assert((b | s == b && s & x != 0) ==> b & x != 0) by (bit_vector);
    }
}

proof fn lemma_rows_typed_push(t: Seq<PathInfo>, r: Seq<RowInfo>, x: RowInfo)
    requires
        rows_typed(t, r),
        1 <= x.path_id <= t.len(),
        t[x.path_id - 1].mask & type_bit(x.vtype as int) != 0,
    ensures
        rows_typed(t, r.push(x)),
{
    let r2 = r.push(x);
    assert forall|k: int| 0 <= k < r2.len() implies 1 <= (#[trigger] r2[k]).path_id <= t.len() && t[r2[k].path_id
        - 1].mask & type_bit(r2[k].vtype as int) != 0 by {
        if k < r.len() {
            assert(r2[k] == r[k]);
        }
    }
}

/// A walk keeps every type bit already recorded in the table.
pub proof fn lemma_walk_keeps_bits(
    v: JsonValue,
    path: Seq<char>,
    parent: Option<i64>,
    key: Seq<char>,
    depth: i64,
    file_id: i64,
    rec: i64,
    t: Seq<PathInfo>,
    r: Seq<RowInfo>,
)
    ensures
        keeps_bits(walk_spec(v, path, parent, key, depth, file_id, rec, t, r).0, t),
    decreases v, 1nat, 0nat,
{
    let (t1, id) = intern_spec(t, path, parent, key, depth);
    lemma_intern_spec(t, path, parent, key, depth);
    lemma_intern_keeps(t, path, parent, key, depth);
    let bit = json_type_bit(v);
    let ne: bool = match v {
        JsonValue::Bool(_) => true,
        JsonValue::Number(_) => true,
        JsonValue::Text(s) => crate::text::has_content(s@),
        _ => false,
    };
    let arr: bool = v is Array;
    assert(bit != 0);
    lemma_bump_keeps(t1, id, bit, arr, ne);
    let t2 = bump_spec(t1, id, bit, arr, ne);
    lemma_keeps_trans(t, t1, t2);
    match v {
        JsonValue::Object(es) => {
            let r2 = if es@.len() == 0 {
                r.push(row_info(id, file_id, rec, T_OBJ, Some("{}"@), false))
            } else {
                r
            };
            lemma_members_keep_bits(v, es@.len(), path, id, depth, file_id, rec, t2, r2);
            lemma_keeps_trans(t, t2, walk_members(v, es@.len(), path, id, depth, file_id, rec, t2, r2).0);
        },
        JsonValue::Array(xs) => {
            let r2 = if xs@.len() == 0 {
                r.push(row_info(id, file_id, rec, T_ARR, Some("[]"@), false))
            } else {
                r
            };
            lemma_elements_keep_bits(v, xs@.len(), path + "[]"@, id, depth, file_id, rec, t2, r2);
            lemma_keeps_trans(t, t2, walk_elements(v, xs@.len(), path + "[]"@, id, depth, file_id, rec, t2, r2).0);
        },
        _ => {},
    }
}

/// Walking the members of an object keeps every recorded type bit.
pub proof fn lemma_members_keep_bits(
    v: JsonValue,
    n: nat,
    path: Seq<char>,
    id: int,
    depth: i64,
    file_id: i64,
    rec: i64,
    t: Seq<PathInfo>,
    r: Seq<RowInfo>,
)
    ensures
        keeps_bits(walk_members(v, n, path, id, depth, file_id, rec, t, r).0, t),
    decreases v, 0nat, n,
{
    if n == 0 {
        lemma_keeps_refl(t);
    } else {
        lemma_members_keep_bits(v, (n - 1) as nat, path, id, depth, file_id, rec, t, r);
        let prev = walk_members(v, (n - 1) as nat, path, id, depth, file_id, rec, t, r);
        match v {
            JsonValue::Object(es) => {
                if n <= es@.len() {
                    let e = es@[n - 1];
                    lemma_walk_keeps_bits(
                        e.1,
                        path + "."@ + e.0@,
                        Some(id as i64),
                        e.0@,
                        (depth + 1) as i64,
                        file_id,
                        rec,
                        prev.0,
                        prev.1,
                    );
                    lemma_keeps_trans(t, prev.0, walk_members(v, n, path, id, depth, file_id, rec, t, r).0);
                }
            },
            _ => {},
        }
    }
}

/// Walking the elements of an array keeps every recorded type bit.
pub proof fn lemma_elements_keep_bits(
    v: JsonValue,
    n: nat,
    elem_path: Seq<char>,
    id: int,
    depth: i64,
    file_id: i64,
    rec: i64,
    t: Seq<PathInfo>,
    r: Seq<RowInfo>,
)
    ensures
        keeps_bits(walk_elements(v, n, elem_path, id, depth, file_id, rec, t, r).0, t),
    decreases v, 0nat, n,
{
    if n == 0 {
        lemma_keeps_refl(t);
    } else {
        lemma_elements_keep_bits(v, (n - 1) as nat, elem_path, id, depth, file_id, rec, t, r);
        let prev = walk_elements(v, (n - 1) as nat, elem_path, id, depth, file_id, rec, t, r);
        match v {
            JsonValue::Array(xs) => {
                if n <= xs@.len() {
                    lemma_walk_keeps_bits(
                        xs@[n - 1],
                        elem_path,
                        Some(id as i64),
                        "[]"@,
                        (depth + 1) as i64,
                        file_id,
                        rec,
                        prev.0,
                        prev.1,
                    );
                    lemma_keeps_trans(t, prev.0, walk_elements(v, n, elem_path, id, depth, file_id, rec, t, r).0);
                }
            },
            _ => {},
        }
    }
}

/// Law: walking a value records its own JSON type at its path. After the
/// walk, the entry of `path` lists the type of `v` (a number as a number,
/// a string as a string, and so on), whatever was in the table before and
/// whatever the members or elements of `v` add.
pub proof fn lemma_walk_marks_own_type(
    v: JsonValue,
    path: Seq<char>,
    parent: Option<i64>,
    key: Seq<char>,
    depth: i64,
    file_id: i64,
    rec: i64,
    t: Seq<PathInfo>,
    r: Seq<RowInfo>,
)
    ensures
        exists|i: int|
            0 <= i < walk_spec(v, path, parent, key, depth, file_id, rec, t, r).0.len()
                && (#[trigger] walk_spec(v, path, parent, key, depth, file_id, rec, t, r).0[i]).path == path
                && walk_spec(v, path, parent, key, depth, file_id, rec, t, r).0[i].mask & json_type_bit(v) != 0
                && (v is Array ==> walk_spec(v, path, parent, key, depth, file_id, rec, t, r).0[i].is_array),
{
    let w = walk_spec(v, path, parent, key, depth, file_id, rec, t, r);
    let (t1, id) = intern_spec(t, path, parent, key, depth);
    lemma_intern_spec(t, path, parent, key, depth);
    let bit = json_type_bit(v);
    let ne: bool = match v {
        JsonValue::Bool(_) => true,
        JsonValue::Number(_) => true,
        JsonValue::Text(s) => crate::text::has_content(s@),
        _ => false,
    };
    let arr: bool = v is Array;
    lemma_bump_keeps(t1, id, bit, arr, ne);
    lemma_bump_spec(t1, id, bit, arr, ne);
    let t2 = bump_spec(t1, id, bit, arr, ne);
    assert(t2[id - 1].path == path);
    match v {
        JsonValue::Object(es) => {
            let r2 = if es@.len() == 0 {
                r.push(row_info(id, file_id, rec, T_OBJ, Some("{}"@), false))
            } else {
                r
            };
            lemma_members_keep_bits(v, es@.len(), path, id, depth, file_id, rec, t2, r2);
            lemma_members_grow(v, es@.len(), 0, path, id, depth, file_id, rec, t2, r2);
        },
        JsonValue::Array(xs) => {
            let r2 = if xs@.len() == 0 {
                r.push(row_info(id, file_id, rec, T_ARR, Some("[]"@), false))
            } else {
                r
            };
            lemma_elements_keep_bits(v, xs@.len(), path + "[]"@, id, depth, file_id, rec, t2, r2);
            lemma_elements_grow(v, xs@.len(), 0, path + "[]"@, id, depth, file_id, rec, t2, r2);
        },
        _ => {
            lemma_keeps_refl(t2);
            crate::scan::lemma_dominates_refl(t2);
        },
    }
    let i = id - 1;
    assert(keeps_bits(w.0, t2));
    assert(crate::scan::dominates(w.0, t2));
    assert(crate::scan::info_le(t2[i], w.0[i]));
    let s = t2[i].mask;
    let b = w.0[i].mask;
    assert(b | s == b);
    assert((b | s == b && s & bit != 0) ==> b & bit != 0) by (bit_vector);
    assert(w.0[i].path == path);
    assert(v is Array ==> w.0[i].is_array);
}

/// Law: every values row that a walk emits agrees with the table it leaves:
/// the row names an entry, and that entry's types include the row's own
/// type. A number row sits at a path typed as a number, a string row at a
/// path typed as a string, and so on, for rows emitted earlier too.
pub proof fn lemma_walk_rows_typed(
    v: JsonValue,
    path: Seq<char>,
    parent: Option<i64>,
    key: Seq<char>,
    depth: i64,
    file_id: i64,
    rec: i64,
    t: Seq<PathInfo>,
    r: Seq<RowInfo>,
)
    requires
        rows_typed(t, r),
    ensures
        rows_typed(
            walk_spec(v, path, parent, key, depth, file_id, rec, t, r).0,
            walk_spec(v, path, parent, key, depth, file_id, rec, t, r).1,
        ),
    decreases v, 1nat, 0nat,
{
    let (t1, id) = intern_spec(t, path, parent, key, depth);
    lemma_intern_spec(t, path, parent, key, depth);
    lemma_intern_keeps(t, path, parent, key, depth);
    lemma_rows_typed_keeps(t, t1, r);
    let bit = json_type_bit(v);
    let ne: bool = match v {
        JsonValue::Bool(_) => true,
        JsonValue::Number(_) => true,
        JsonValue::Text(s) => crate::text::has_content(s@),
        _ => false,
    };
    let arr: bool = v is Array;
    lemma_bump_keeps(t1, id, bit, arr, ne);
    lemma_bump_spec(t1, id, bit, arr, ne);
    let t2 = bump_spec(t1, id, bit, arr, ne);
    lemma_rows_typed_keeps(t1, t2, r);
    assert(type_bit(json_type_code(v) as int) == bit);
    match v {
        JsonValue::Object(es) => {
            let r2 = if es@.len() == 0 {
                r.push(row_info(id, file_id, rec, T_OBJ, Some("{}"@), false))
            } else {
                r
            };
            if es@.len() == 0 {
                lemma_rows_typed_push(t2, r, row_info(id, file_id, rec, T_OBJ, Some("{}"@), false));
            }
            lemma_members_rows_typed(v, es@.len(), path, id, depth, file_id, rec, t2, r2);
        },
        JsonValue::Array(xs) => {
            let r2 = if xs@.len() == 0 {
                r.push(row_info(id, file_id, rec, T_ARR, Some("[]"@), false))
            } else {
                r
            };
            if xs@.len() == 0 {
                lemma_rows_typed_push(t2, r, row_info(id, file_id, rec, T_ARR, Some("[]"@), false));
            }
            lemma_elements_rows_typed(v, xs@.len(), path + "[]"@, id, depth, file_id, rec, t2, r2);
        },
        JsonValue::Null => {
            lemma_rows_typed_push(t2, r, row_info(id, file_id, rec, T_NULL, None, false));
        },
        JsonValue::Bool(b) => {
            let txt: Seq<char> = if b {
                "true"@
            } else {
                "false"@
            };
            lemma_rows_typed_push(t2, r, row_info(id, file_id, rec, T_BOOL, Some(txt), false));
        },
        JsonValue::Number(n) => {
            lemma_rows_typed_push(t2, r, row_info(id, file_id, rec, T_NUM, Some(n@), false));
        },
        JsonValue::Text(s) => {
            lemma_rows_typed_push(t2, r, row_info(id, file_id, rec, T_STR, Some(clip(s@).0), clip(s@).1));
        },
    }
}

/// The rows of the members of an object agree with the table they leave.
pub proof fn lemma_members_rows_typed(
    v: JsonValue,
    n: nat,
    path: Seq<char>,
    id: int,
    depth: i64,
    file_id: i64,
    rec: i64,
    t: Seq<PathInfo>,
    r: Seq<RowInfo>,
)
    requires
        rows_typed(t, r),
    ensures
        rows_typed(
            walk_members(v, n, path, id, depth, file_id, rec, t, r).0,
            walk_members(v, n, path, id, depth, file_id, rec, t, r).1,
        ),
    decreases v, 0nat, n,
{
    if n > 0 {
        lemma_members_rows_typed(v, (n - 1) as nat, path, id, depth, file_id, rec, t, r);
        let prev = walk_members(v, (n - 1) as nat, path, id, depth, file_id, rec, t, r);
        match v {
            JsonValue::Object(es) => {
                if n <= es@.len() {
                    let e = es@[n - 1];
                    lemma_walk_rows_typed(
                        e.1,
                        path + "."@ + e.0@,
                        Some(id as i64),
                        e.0@,
                        (depth + 1) as i64,
                        file_id,
                        rec,
                        prev.0,
                        prev.1,
                    );
                }
            },
            _ => {},
        }
    }
}

/// The rows of the elements of an array agree with the table they leave.
pub proof fn lemma_elements_rows_typed(
    v: JsonValue,
    n: nat,
    elem_path: Seq<char>,
    id: int,
    depth: i64,
    file_id: i64,
    rec: i64,
    t: Seq<PathInfo>,
    r: Seq<RowInfo>,
)
    requires
        rows_typed(t, r),
    ensures
        rows_typed(
            walk_elements(v, n, elem_path, id, depth, file_id, rec, t, r).0,
            walk_elements(v, n, elem_path, id, depth, file_id, rec, t, r).1,
        ),
    decreases v, 0nat, n,
{
    if n > 0 {
        lemma_elements_rows_typed(v, (n - 1) as nat, elem_path, id, depth, file_id, rec, t, r);
        let prev = walk_elements(v, (n - 1) as nat, elem_path, id, depth, file_id, rec, t, r);
        match v {
            JsonValue::Array(xs) => {
                if n <= xs@.len() {
                    lemma_walk_rows_typed(
                        xs@[n - 1],
                        elem_path,
                        Some(id as i64),
                        "[]"@,
                        (depth + 1) as i64,
                        file_id,
                        rec,
                        prev.0,
                        prev.1,
                    );
                }
            },
            _ => {},
        }
    }
}

/// Law: a scalar adds exactly one values row, at the id of its path, with
/// the code of its own JSON type and its JSON text; the rows before it stay
/// as they were.
pub proof fn lemma_walk_scalar_row(
    v: JsonValue,
    path: Seq<char>,
    parent: Option<i64>,
    key: Seq<char>,
    depth: i64,
    file_id: i64,
    rec: i64,
    t: Seq<PathInfo>,
    r: Seq<RowInfo>,
)
    requires
        is_scalar(v),
    ensures
        ({
            let w = walk_spec(v, path, parent, key, depth, file_id, rec, t, r);
            &&& w.1.len() == r.len() + 1
            &&& w.1.take(r.len() as int) == r
            &&& 1 <= w.1.last().path_id <= w.0.len()
            &&& w.0[w.1.last().path_id - 1].path == path
            &&& w.1.last().file_id == file_id
            &&& w.1.last().rec == rec
            &&& w.1.last().vtype == json_type_code(v)
            &&& w.1.last().txt == scalar_text(v)
        }),
{
    let (t1, id) = intern_spec(t, path, parent, key, depth);
    lemma_intern_spec(t, path, parent, key, depth);
    let w = walk_spec(v, path, parent, key, depth, file_id, rec, t, r);
    match v {
        JsonValue::Null => {
            lemma_bump_spec(t1, id, M_NULL, false, false);
        },
        JsonValue::Bool(b) => {
            lemma_bump_spec(t1, id, M_BOOL, false, true);
        },
        JsonValue::Number(n) => {
            lemma_bump_spec(t1, id, M_NUM, false, true);
        },
        JsonValue::Text(s) => {
            lemma_bump_spec(t1, id, M_STR, false, crate::text::has_content(s@));
        },
        _ => {},
    }
    assert(w.1.take(r.len() as int) =~= r);
}

/// Law: two booleans are indexed under different texts: `true` is stored
/// as `true` and `false` as `false`, so a filter on the text tells them
/// apart.
pub proof fn lemma_bool_texts(
    b: bool,
    path: Seq<char>,
    parent: Option<i64>,
    key: Seq<char>,
    depth: i64,
    file_id: i64,
    rec: i64,
    t: Seq<PathInfo>,
    r: Seq<RowInfo>,
)
    ensures
        walk_spec(JsonValue::Bool(b), path, parent, key, depth, file_id, rec, t, r).1.last().txt == Some(
            if b {
                "true"@
            } else {
                "false"@
            },
        ),
        walk_spec(JsonValue::Bool(true), path, parent, key, depth, file_id, rec, t, r).1.last().txt
            != walk_spec(JsonValue::Bool(false), path, parent, key, depth, file_id, rec, t, r).1.last().txt,
{
    lemma_walk_scalar_row(JsonValue::Bool(b), path, parent, key, depth, file_id, rec, t, r);
    lemma_walk_scalar_row(JsonValue::Bool(true), path, parent, key, depth, file_id, rec, t, r);
    lemma_walk_scalar_row(JsonValue::Bool(false), path, parent, key, depth, file_id, rec, t, r);
    reveal_strlit("true");
    reveal_strlit("false");
    assert("true"@.len() != "false"@.len());
}

/// Whether a scalar counts as a non-empty occurrence: booleans and numbers
/// always, strings when they hold more than blanks, `null` never.
pub open spec fn scalar_counts(v: JsonValue) -> bool {
    match v {
        JsonValue::Bool(_) => true,
        JsonValue::Number(_) => true,
        JsonValue::Text(s) => crate::text::has_content(s@),
        _ => false,
    }
}

/// Law: a scalar adds one occurrence to the entry of its path, and one
/// non-empty occurrence exactly when it counts as non-empty; no other
/// entry changes, and no entry other than its path's is added.
pub proof fn lemma_walk_scalar_counts(
    v: JsonValue,
    path: Seq<char>,
    parent: Option<i64>,
    key: Seq<char>,
    depth: i64,
    file_id: i64,
    rec: i64,
    t: Seq<PathInfo>,
    r: Seq<RowInfo>,
)
    requires
        is_scalar(v),
    ensures
        ({
            let w = walk_spec(v, path, parent, key, depth, file_id, rec, t, r);
            let (t1, id) = intern_spec(t, path, parent, key, depth);
            &&& w.0.len() == t1.len()
            &&& w.0[id - 1].path == path
            &&& w.0[id - 1].cnt == t1[id - 1].cnt + 1
            &&& w.0[id - 1].nonempty == t1[id - 1].nonempty + (if scalar_counts(v) {
                1int
            } else {
                0int
            })
            &&& forall|i: int| 0 <= i < t1.len() && i != id - 1 ==> #[trigger] w.0[i] == t1[i]
            &&& t1.len() <= t.len() + 1
            &&& t1.take(t.len() as int) == t
        }),
{
    let (t1, id) = intern_spec(t, path, parent, key, depth);
    lemma_intern_spec(t, path, parent, key, depth);
    if !crate::scan::has_path(t, path) {
        assert(t1.take(t.len() as int) =~= t);
    }
}

/// The rows that the first `n` scalar elements of an array add: one each,
/// in order, at the element path, with each element's type and text.
proof fn lemma_scalar_elements_rows(
    v: JsonValue,
    n: nat,
    elem_path: Seq<char>,
    id: int,
    depth: i64,
    file_id: i64,
    rec: i64,
    t: Seq<PathInfo>,
    r: Seq<RowInfo>,
)
    requires
        v is Array,
        n <= v->Array_0@.len(),
        forall|k: int| 0 <= k < v->Array_0@.len() ==> is_scalar(#[trigger] v->Array_0@[k]),
    ensures
        ({
            let w = walk_elements(v, n, elem_path, id, depth, file_id, rec, t, r);
            &&& w.1.len() == r.len() + n
            &&& w.1.take(r.len() as int) == r
            &&& forall|k: int|
                0 <= k < n ==> {
                    let x = #[trigger] w.1[r.len() + k];
                    &&& 1 <= x.path_id <= w.0.len()
                    &&& w.0[x.path_id - 1].path == elem_path
                    &&& x.file_id == file_id
                    &&& x.rec == rec
                    &&& x.vtype == json_type_code(v->Array_0@[k])
                    &&& x.txt == scalar_text(v->Array_0@[k])
                }
        }),
    decreases n,
{
    if n == 0 {
        assert(r.take(r.len() as int) =~= r);
    } else {
        lemma_scalar_elements_rows(v, (n - 1) as nat, elem_path, id, depth, file_id, rec, t, r);
        let prev = walk_elements(v, (n - 1) as nat, elem_path, id, depth, file_id, rec, t, r);
        let xs = v->Array_0@;
        let e = xs[n - 1];
        assert(is_scalar(e));
        let w = walk_elements(v, n, elem_path, id, depth, file_id, rec, t, r);
        assert(w == walk_spec(e, elem_path, Some(id as i64), "[]"@, (depth + 1) as i64, file_id, rec, prev.0, prev.1));
        lemma_walk_scalar_row(e, elem_path, Some(id as i64), "[]"@, (depth + 1) as i64, file_id, rec, prev.0, prev.1);
        crate::scan::lemma_walk_grows(e, elem_path, Some(id as i64), "[]"@, (depth + 1) as i64, file_id, rec, prev.0, prev.1);
        assert(w.1.take(prev.1.len() as int) == prev.1);
        assert(w.1.take(r.len() as int) =~= prev.1.take(r.len() as int));
        assert forall|k: int| 0 <= k < n implies {
            let x = #[trigger] w.1[r.len() + k];
            &&& 1 <= x.path_id <= w.0.len()
            &&& w.0[x.path_id - 1].path == elem_path
            &&& x.file_id == file_id
            &&& x.rec == rec
            &&& x.vtype == json_type_code(xs[k])
            &&& x.txt == scalar_text(xs[k])
        } by {
            if k < n - 1 {
                let x = prev.1[r.len() + k];
                assert(w.1[r.len() + k] == x);
                assert(crate::scan::info_le(prev.0[x.path_id - 1], w.0[x.path_id - 1]));
            } else {
                assert(w.1[r.len() + k] == w.1.last());
            }
        }
    }
}

/// Law: array indices collapse into `[]`. The elements of a non-empty array
/// of scalars are indexed in order, one values row each, all at the entry
/// of the array's path followed by `[]`, each with its element's own type
/// and JSON text; the rows before them stay as they were.
pub proof fn lemma_scalar_array_rows(
    v: JsonValue,
    path: Seq<char>,
    parent: Option<i64>,
    key: Seq<char>,
    depth: i64,
    file_id: i64,
    rec: i64,
    t: Seq<PathInfo>,
    r: Seq<RowInfo>,
)
    requires
        v is Array,
        v->Array_0@.len() > 0,
        forall|k: int| 0 <= k < v->Array_0@.len() ==> is_scalar(#[trigger] v->Array_0@[k]),
    ensures
        ({
            let w = walk_spec(v, path, parent, key, depth, file_id, rec, t, r);
            let xs = v->Array_0@;
            &&& w.1.len() == r.len() + xs.len()
            &&& w.1.take(r.len() as int) == r
            &&& forall|k: int|
                0 <= k < xs.len() ==> {
                    let x = #[trigger] w.1[r.len() + k];
                    &&& 1 <= x.path_id <= w.0.len()
                    &&& w.0[x.path_id - 1].path == path + "[]"@
                    &&& x.vtype == json_type_code(xs[k])
                    &&& x.txt == scalar_text(xs[k])
                }
        }),
{
    let (t1, id) = intern_spec(t, path, parent, key, depth);
    let t2 = bump_spec(t1, id, M_ARR, true, false);
    let xs = v->Array_0@;
    lemma_scalar_elements_rows(v, xs.len(), path + "[]"@, id, depth, file_id, rec, t2, r);
}

/// The rows that the first `n` scalar members of an object add: one each,
/// in order, at the object's path followed by `.` and the member's key.
proof fn lemma_scalar_members_rows(
    v: JsonValue,
    n: nat,
    path: Seq<char>,
    id: int,
    depth: i64,
    file_id: i64,
    rec: i64,
    t: Seq<PathInfo>,
    r: Seq<RowInfo>,
)
    requires
        v is Object,
        n <= v->Object_0@.len(),
        forall|k: int| 0 <= k < v->Object_0@.len() ==> is_scalar(#[trigger] v->Object_0@[k].1),
    ensures
        ({
            let w = walk_members(v, n, path, id, depth, file_id, rec, t, r);
            &&& w.1.len() == r.len() + n
            &&& w.1.take(r.len() as int) == r
            &&& forall|k: int|
                0 <= k < n ==> {
                    let x = #[trigger] w.1[r.len() + k];
                    &&& 1 <= x.path_id <= w.0.len()
                    &&& w.0[x.path_id - 1].path == path + "."@ + v->Object_0@[k].0@
                    &&& x.vtype == json_type_code(v->Object_0@[k].1)
                    &&& x.txt == scalar_text(v->Object_0@[k].1)
                }
        }),
    decreases n,
{
    if n == 0 {
        assert(r.take(r.len() as int) =~= r);
    } else {
        lemma_scalar_members_rows(v, (n - 1) as nat, path, id, depth, file_id, rec, t, r);
        let prev = walk_members(v, (n - 1) as nat, path, id, depth, file_id, rec, t, r);
        let es = v->Object_0@;
        let e = es[n - 1];
        assert(is_scalar(e.1));
        let mp = path + "."@ + e.0@;
        let w = walk_members(v, n, path, id, depth, file_id, rec, t, r);
        assert(w == walk_spec(e.1, mp, Some(id as i64), e.0@, (depth + 1) as i64, file_id, rec, prev.0, prev.1));
        lemma_walk_scalar_row(e.1, mp, Some(id as i64), e.0@, (depth + 1) as i64, file_id, rec, prev.0, prev.1);
        crate::scan::lemma_walk_grows(e.1, mp, Some(id as i64), e.0@, (depth + 1) as i64, file_id, rec, prev.0, prev.1);
        assert(w.1.take(prev.1.len() as int) == prev.1);
        assert(w.1.take(r.len() as int) =~= prev.1.take(r.len() as int));
        assert forall|k: int| 0 <= k < n implies {
            let x = #[trigger] w.1[r.len() + k];
            &&& 1 <= x.path_id <= w.0.len()
            &&& w.0[x.path_id - 1].path == path + "."@ + es[k].0@
            &&& x.vtype == json_type_code(es[k].1)
            &&& x.txt == scalar_text(es[k].1)
        } by {
            if k < n - 1 {
                let x = prev.1[r.len() + k];
                assert(w.1[r.len() + k] == x);
                assert(crate::scan::info_le(prev.0[x.path_id - 1], w.0[x.path_id - 1]));
            } else {
                assert(w.1[r.len() + k] == w.1.last());
            }
        }
    }
}

/// Law: the members of a non-empty object of scalars are indexed in order,
/// one values row each, at the object's path followed by `.` and the
/// member's key, each with its member's own type and JSON text; the rows
/// before them stay as they were.
pub proof fn lemma_scalar_object_rows(
    v: JsonValue,
    path: Seq<char>,
    parent: Option<i64>,
    key: Seq<char>,
    depth: i64,
    file_id: i64,
    rec: i64,
    t: Seq<PathInfo>,
    r: Seq<RowInfo>,
)
    requires
        v is Object,
        v->Object_0@.len() > 0,
        forall|k: int| 0 <= k < v->Object_0@.len() ==> is_scalar(#[trigger] v->Object_0@[k].1),
    ensures
        ({
            let w = walk_spec(v, path, parent, key, depth, file_id, rec, t, r);
            let es = v->Object_0@;
            &&& w.1.len() == r.len() + es.len()
            &&& w.1.take(r.len() as int) == r
            &&& forall|k: int|
                0 <= k < es.len() ==> {
                    let x = #[trigger] w.1[r.len() + k];
                    &&& 1 <= x.path_id <= w.0.len()
                    &&& w.0[x.path_id - 1].path == path + "."@ + es[k].0@
                    &&& x.vtype == json_type_code(es[k].1)
                    &&& x.txt == scalar_text(es[k].1)
                }
        }),
{
    let (t1, id) = intern_spec(t, path, parent, key, depth);
    let t2 = bump_spec(t1, id, M_OBJ, false, false);
    let es = v->Object_0@;
    lemma_scalar_members_rows(v, es.len(), path, id, depth, file_id, rec, t2, r);
}

} // verus!
