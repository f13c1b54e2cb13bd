//! Value-type codes, type masks and the schema of the index.

use vstd::prelude::*;

verus! {

/// Texts longer than this many characters are cut: the index is for search
/// and sorting, not for blobs.
pub const MAX_TEXT: usize = 4096;

pub const T_NULL: i64 = 0;
pub const T_BOOL: i64 = 1;
pub const T_NUM: i64 = 2;
pub const T_STR: i64 = 3;
pub const T_OBJ: i64 = 4;
pub const T_ARR: i64 = 5;

pub const M_NULL: i64 = 1;
pub const M_BOOL: i64 = 2;
pub const M_NUM: i64 = 4;
pub const M_STR: i64 = 8;
pub const M_OBJ: i64 = 16;
pub const M_ARR: i64 = 32;

/// The label of a value-type code.
pub open spec fn type_label(t: i64) -> Seq<char> {
    if t == T_NULL {
        "null"@
    } else if t == T_BOOL {
        "bool"@
    } else if t == T_NUM {
        "number"@
    } else if t == T_STR {
        "string"@
    } else if t == T_OBJ {
        "object"@
    } else if t == T_ARR {
        "array"@
    } else {
        "?"@
    }
}

pub fn vtype_name(t: i64) -> (r: &'static str)
    ensures
        r@ == type_label(t),
{
    if t == T_NULL {
        "null"
    } else if t == T_BOOL {
        "bool"
    } else if t == T_NUM {
        "number"
    } else if t == T_STR {
        "string"
    } else if t == T_OBJ {
        "object"
    } else if t == T_ARR {
        "array"
    } else {
        "?"
    }
}

/// The label of `bit` if `mask` has it, else nothing.
pub open spec fn bit_label(mask: i64, bit: i64, label: Seq<char>) -> Seq<Seq<char>> {
    if mask & bit != 0 {
        seq![label]
    } else {
        Seq::empty()
    }
}

/// The type labels that `mask` holds, in the fixed order
/// null, bool, number, string, object, array.
pub open spec fn mask_labels(mask: i64) -> Seq<Seq<char>> {
    bit_label(mask, M_NULL, "null"@) + bit_label(mask, M_BOOL, "bool"@) + bit_label(
        mask,
        M_NUM,
        "number"@,
    ) + bit_label(mask, M_STR, "string"@) + bit_label(mask, M_OBJ, "object"@) + bit_label(
        mask,
        M_ARR,
        "array"@,
    )
}

/// The mask bit of value-type code `t`.
pub open spec fn type_bit(t: int) -> i64 {
    if t == T_NULL {
        M_NULL
    } else if t == T_BOOL {
        M_BOOL
    } else if t == T_NUM {
        M_NUM
    } else if t == T_STR {
        M_STR
    } else if t == T_OBJ {
        M_OBJ
    } else {
        M_ARR
    }
}

/// The labels of the types that mask `a` or mask `b` has, in the fixed
/// order.
pub open spec fn union_labels(a: i64, b: i64) -> Seq<Seq<char>> {
    either_label(a, b, M_NULL, "null"@) + either_label(a, b, M_BOOL, "bool"@) + either_label(a, b, M_NUM, "number"@)
        + either_label(a, b, M_STR, "string"@) + either_label(a, b, M_OBJ, "object"@) + either_label(
        a,
        b,
        M_ARR,
        "array"@,
    )
}

pub open spec fn either_label(a: i64, b: i64, bit: i64, label: Seq<char>) -> Seq<Seq<char>> {
    if a & bit != 0 || b & bit != 0 {
        seq![label]
    } else {
        Seq::empty()
    }
}

/// The types of two masks together are the types of either: `mask_names`
/// of `a | b` lists, in the fixed order, each type that `a` or `b` has.
pub proof fn lemma_mask_union(a: i64, b: i64)
    ensures
        mask_labels(a | b) == union_labels(a, b),
{
    assert(((a | b) & 1 != 0 <==> (a & 1 != 0 || b & 1 != 0)) && ((a | b) & 2 != 0 <==> (a & 2 != 0 || b & 2 != 0))
        && ((a | b) & 4 != 0 <==> (a & 4 != 0 || b & 4 != 0)) && ((a | b) & 8 != 0 <==> (a & 8 != 0 || b & 8 != 0))
        && ((a | b) & 16 != 0 <==> (a & 16 != 0 || b & 16 != 0)) && ((a | b) & 32 != 0 <==> (a & 32 != 0 || b & 32
        != 0))) by (bit_vector);
}

/// The mask of one type lists just that type's name, and no mask lists
/// more than the six names.
pub proof fn lemma_mask_single(t: int, m: i64)
    requires
        0 <= t <= 5,
    ensures
        mask_labels(type_bit(t)) == seq![type_label(t as i64)],
        mask_labels(m).len() <= 6,
{
    let x = type_bit(t);
    if t == 0 {
        assert(1i64 & 1 != 0 && 1i64 & 2 == 0 && 1i64 & 4 == 0 && 1i64 & 8 == 0 && 1i64 & 16 == 0 && 1i64 & 32 == 0)
            by (bit_vector);
    } else if t == 1 {
        assert(2i64 & 1 == 0 && 2i64 & 2 != 0 && 2i64 & 4 == 0 && 2i64 & 8 == 0 && 2i64 & 16 == 0 && 2i64 & 32 == 0)
            by (bit_vector);
    } else if t == 2 {
        assert(4i64 & 1 == 0 && 4i64 & 2 == 0 && 4i64 & 4 != 0 && 4i64 & 8 == 0 && 4i64 & 16 == 0 && 4i64 & 32 == 0)
            by (bit_vector);
    } else if t == 3 {
        assert(8i64 & 1 == 0 && 8i64 & 2 == 0 && 8i64 & 4 == 0 && 8i64 & 8 != 0 && 8i64 & 16 == 0 && 8i64 & 32 == 0)
            by (bit_vector);
    } else if t == 4 {
        assert(16i64 & 1 == 0 && 16i64 & 2 == 0 && 16i64 & 4 == 0 && 16i64 & 8 == 0 && 16i64 & 16 != 0 && 16i64 & 32
            == 0) by (bit_vector);
    } else {
        assert(32i64 & 1 == 0 && 32i64 & 2 == 0 && 32i64 & 4 == 0 && 32i64 & 8 == 0 && 32i64 & 16 == 0 && 32i64 & 32
            != 0) by (bit_vector);
    }
    assert(mask_labels(x) =~= seq![type_label(t as i64)]);
}

/// The views of a vector of strings.
pub open spec fn string_views(v: Seq<String>) -> Seq<Seq<char>> {
    v.map_values(|s: String| s@)
}

fn push_label(out: &mut Vec<String>, mask: i64, bit: i64, label: &str)
    ensures
        string_views(final(out)@) == string_views(old(out)@) + bit_label(mask, bit, label@),
{
    if mask & bit != 0 {
        out.push(label.to_owned());
        proof {
            assert(string_views(final(out)@) =~= string_views(old(out)@) + seq![label@]);
        }
    } else {
        proof {
            assert(string_views(final(out)@) =~= string_views(old(out)@) + Seq::<Seq<char>>::empty());
        }
    }
}

pub fn mask_names(mask: i64) -> (out: Vec<String>)
    ensures
        string_views(out@) == mask_labels(mask),
{
    let mut out: Vec<String> = Vec::new();
    proof {
        assert(string_views(out@) =~= Seq::<Seq<char>>::empty());
    }
    push_label(&mut out, mask, M_NULL, "null");
    push_label(&mut out, mask, M_BOOL, "bool");
    push_label(&mut out, mask, M_NUM, "number");
    push_label(&mut out, mask, M_STR, "string");
    push_label(&mut out, mask, M_OBJ, "object");
    push_label(&mut out, mask, M_ARR, "array");
    proof {
        assert(string_views(out@) =~= mask_labels(mask));
    }
    out
}

/// The schema of the index. The database is created anew at every scan and
/// lives outside the user's folder.
pub const SCHEMA: &'static str = "
PRAGMA journal_mode = MEMORY;
PRAGMA synchronous = OFF;
PRAGMA temp_store = MEMORY;
PRAGMA cache_size = -262144;

CREATE TABLE files (
    id       INTEGER PRIMARY KEY,
    abs_path TEXT    NOT NULL,
    rel_path TEXT    NOT NULL,
    kind     TEXT    NOT NULL,
    bytes    INTEGER NOT NULL DEFAULT 0,
    records  INTEGER NOT NULL DEFAULT 0
);

CREATE TABLE paths (
    id        INTEGER PRIMARY KEY,
    path      TEXT    NOT NULL UNIQUE,
    parent_id INTEGER,
    key       TEXT    NOT NULL,
    depth     INTEGER NOT NULL,
    is_array  INTEGER NOT NULL DEFAULT 0,
    cnt       INTEGER NOT NULL DEFAULT 0,
    nonempty  INTEGER NOT NULL DEFAULT 0,
    mask      INTEGER NOT NULL DEFAULT 0
);

CREATE TABLE vals (
    path_id INTEGER NOT NULL,
    file_id INTEGER NOT NULL,
    rec     INTEGER NOT NULL,
    vtype   INTEGER NOT NULL,
    txt     TEXT,
    num     REAL,
    trunc   INTEGER NOT NULL DEFAULT 0
);

CREATE TABLE errors (
    id      INTEGER PRIMARY KEY,
    file    TEXT NOT NULL,
    line    INTEGER,
    message TEXT NOT NULL
);

CREATE TABLE meta (
    k TEXT PRIMARY KEY,
    v TEXT NOT NULL
);
";

/// Indexes are built after the bulk insert: the insert is many times faster.
pub const INDEXES: &'static str = "
CREATE INDEX idx_vals_path ON vals(path_id);
CREATE INDEX idx_vals_rec  ON vals(file_id, rec);
";

pub const INSERT_VAL: &'static str = "INSERT INTO vals (path_id, file_id, rec, vtype, txt, num, trunc) VALUES (?1,?2,?3,?4,?5,?6,?7)";

pub const INSERT_FILE: &'static str = "INSERT INTO files (id, abs_path, rel_path, kind, bytes, records) VALUES (?1,?2,?3,?4,?5,?6)";

pub const INSERT_ERROR: &'static str = "INSERT INTO errors (file, line, message) VALUES (?1,?2,?3)";

pub const INSERT_PATH: &'static str = "INSERT INTO paths (id, path, parent_id, key, depth, is_array, cnt, nonempty, mask) VALUES (?1,?2,?3,?4,?5,?6,?7,?8,?9)";

pub const SAVE_SUMMARY: &'static str = "INSERT OR REPLACE INTO meta (k, v) VALUES ('summary', ?1)";

pub const SAVE_ROOT: &'static str = "INSERT OR REPLACE INTO meta (k, v) VALUES ('root', ?1)";

} // verus!
