//! The values the library hands to the user interface.

use vstd::prelude::*;

use crate::db::string_views;

verus! {

/// Totals of the last scan.
#[derive(Clone, Debug)]
pub struct ScanSummary {
    pub root: String,
    pub files_scanned: u64,
    pub files_failed: u64,
    pub records: u64,
    pub keys: u64,
    pub values: u64,
    pub bytes: u64,
    pub elapsed_ms: u64,
}

impl Default for ScanSummary {
    fn default() -> (s: Self)
        ensures
            s.root@ == Seq::<char>::empty(),
            s.files_scanned == 0,
            s.files_failed == 0,
            s.records == 0,
            s.keys == 0,
            s.values == 0,
            s.bytes == 0,
            s.elapsed_ms == 0,
    {
        ScanSummary {
            root: String::new(),
            files_scanned: 0,
            files_failed: 0,
            records: 0,
            keys: 0,
            values: 0,
            bytes: 0,
            elapsed_ms: 0,
        }
    }
}

/// Progress of a running scan.
#[derive(Clone, Debug)]
pub struct ScanProgress {
    pub files_done: u64,
    pub files_total: u64,
    pub records: u64,
    pub current: String,
}

/// A node of the structure tree. `path_ids` are all the canonical paths
/// merged into the node (in `byName` mode there may be several).
#[derive(Debug)]
pub struct TreeNode {
    pub id: String,
    pub key: String,
    pub path: String,
    pub is_array: bool,
    pub is_leaf: bool,
    pub count: i64,
    /// How many values of the subtree are not empty. 0: the key exists but
    /// is always empty (null, "", {} or []); the interface hides such keys.
    pub non_empty: i64,
    pub types: Vec<String>,
    pub path_ids: Vec<i64>,
    pub paths: Vec<String>,
    pub children: Vec<TreeNode>,
}

/// The views of a list of nodes.
pub open spec fn forest_view(v: Seq<TreeNode>) -> Seq<NodeV> {
    v.map_values(|t: TreeNode| t@)
}

/// The mathematical content of a [`TreeNode`].
pub struct NodeV {
    pub id: Seq<char>,
    pub key: Seq<char>,
    pub path: Seq<char>,
    pub is_array: bool,
    pub is_leaf: bool,
    pub count: i64,
    pub non_empty: int,
    pub types: Seq<Seq<char>>,
    pub path_ids: Seq<i64>,
    pub paths: Seq<Seq<char>>,
    pub children: Seq<NodeV>,
}

pub open spec fn node_view(t: TreeNode) -> NodeV
    decreases t, 1nat, 0nat,
{
    NodeV {
        id: t.id@,
        key: t.key@,
        path: t.path@,
        is_array: t.is_array,
        is_leaf: t.is_leaf,
        count: t.count,
        non_empty: t.non_empty as int,
        types: string_views(t.types@),
        path_ids: t.path_ids@,
        paths: string_views(t.paths@),
        children: children_view(t, t.children@.len()),
    }
}

/// The views of the first `k` children of `t`.
pub open spec fn children_view(t: TreeNode, k: nat) -> Seq<NodeV>
    decreases t, 0nat, k,
{
    if k == 0 || k > t.children@.len() {
        Seq::empty()
    } else {
        children_view(t, (k - 1) as nat).push(node_view(t.children@[k - 1]))
    }
}

pub proof fn lemma_children_view(t: TreeNode, k: nat)
    requires
        k <= t.children@.len(),
    ensures
        children_view(t, k) == forest_view(t.children@).take(k as int),
    decreases k,
{
    if k > 0 {
        lemma_children_view(t, (k - 1) as nat);
        assert(children_view(t, k) =~= forest_view(t.children@).take(k as int));
    } else {
        assert(children_view(t, k) =~= forest_view(t.children@).take(k as int));
    }
}

impl View for TreeNode {
    type V = NodeV;

    open spec fn view(&self) -> NodeV {
        node_view(*self)
    }
}

/// One value of a path, as a row of the values table.
#[derive(Clone, Debug)]
pub struct ValueRow {
    pub file_id: i64,
    pub file: String,
    pub rec: i64,
    pub path: String,
    pub vtype: String,
    pub value: Option<String>,
    pub truncated: bool,
}

/// A page of values; `total` does not depend on the page.
#[derive(Clone, Debug)]
pub struct ValuePage {
    pub total: i64,
    pub offset: i64,
    pub rows: Vec<ValueRow>,
}

/// A file that did not parse, or a line of it.
#[derive(Clone, Debug)]
pub struct ErrorRow {
    pub file: String,
    pub line: Option<i64>,
    pub message: String,
}

/// A record: the file and its number inside the file.
#[derive(Clone, Debug)]
pub struct RecordRef {
    pub file_id: i64,
    pub file: String,
    pub rec: i64,
}

/// A page of records.
#[derive(Clone, Debug)]
pub struct RecordPage {
    pub total: i64,
    pub offset: i64,
    pub rows: Vec<RecordRef>,
}

/// Parameters of a values query, sent by the interface as one object.
#[derive(Clone, Debug)]
pub struct ValueQuery {
    pub path_ids: Vec<i64>,
    pub filter: Option<String>,
    pub file_id: Option<i64>,
    /// `file` | `rec` | `value` | `type` | `path`
    pub sort: String,
    /// `asc` | `desc`
    pub order: String,
    pub offset: i64,
    pub limit: i64,
}

/// The sort a query has when it names none.
pub fn default_sort() -> (s: String)
    ensures
        s@ == "rec"@,
{
    "rec".to_owned()
}

/// The order a query has when it names none.
pub fn default_order() -> (s: String)
    ensures
        s@ == "asc"@,
{
    "asc".to_owned()
}

/// The page size a query has when it names none.
pub fn default_limit() -> (n: i64)
    ensures
        n == 200,
{
    200
}

/// A file of the scanned set, for the file filter.
#[derive(Clone, Debug)]
pub struct FileRow {
    pub id: i64,
    pub path: String,
    pub records: i64,
}

} // verus!
