//! The structure tree and its Markdown report on hand-made path tables.

use structuraj::db::{M_ARR, M_NULL, M_OBJ, M_STR};
use structuraj::model::{ScanSummary, TreeNode};
use structuraj::tree::{build, find_row, rows_valid, to_markdown, Row};

fn row(id: i64, path: &str, parent: Option<i64>, key: &str, is_array: bool, cnt: i64, nonempty: i64, mask: i64) -> Row {
    Row {
        id,
        path: path.to_string(),
        parent,
        key: key.to_string(),
        is_array,
        cnt,
        nonempty,
        mask,
    }
}

/// Records that are objects with a list of tags and a key that is always null.
fn tagged() -> Vec<Row> {
    vec![
        row(1, "$", None, "$", true, 2, 0, M_ARR),
        row(2, "$[]", Some(1), "[]", false, 2, 0, M_OBJ),
        row(3, "$[].tags", Some(2), "tags", true, 2, 0, M_ARR),
        row(4, "$[].tags[]", Some(3), "[]", false, 3, 3, M_STR),
        row(5, "$[].k", Some(2), "k", false, 2, 0, M_NULL),
    ]
}

fn keys(nodes: &[TreeNode]) -> Vec<String> {
    nodes.iter().map(|n| n.key.clone()).collect()
}

#[test]
fn by_path_folds_the_records_of_an_array_of_objects() {
    let nodes = build(tagged(), "byPath");
    assert_eq!(keys(&nodes), vec!["$"]);
    let root = &nodes[0];
    assert_eq!(root.id, "p1");
    assert_eq!(keys(&root.children), vec!["tags", "k"]);
    let tags = &root.children[0];
    assert_eq!(tags.id, "p3");
    assert_eq!(keys(&tags.children), vec!["[]"], "an array of texts keeps its [] node");
    assert_eq!(tags.children[0].types, vec!["string"]);
    assert!(tags.children[0].is_leaf);
    assert!(!tags.is_leaf);
    assert_eq!(root.non_empty, 3, "a node counts the values of its subtree");
    assert_eq!(tags.non_empty, 3);
    assert_eq!(root.children[1].non_empty, 0);
    assert_eq!(root.children[1].path_ids, vec![5]);
    assert_eq!(root.children[1].paths, vec!["$[].k"]);
}

#[test]
fn by_name_names_array_elements_after_the_array() {
    let nodes = build(tagged(), "byName");
    assert_eq!(keys(&nodes), vec!["$"]);
    assert_eq!(nodes[0].id, "n:$");
    assert_eq!(keys(&nodes[0].children), vec!["tags", "k"]);
    assert_eq!(keys(&nodes[0].children[0].children), vec!["tags[]"]);
    assert_eq!(nodes[0].non_empty, 3);
}

/// `a` holds `b` and `b` holds `a`, each more often under the other.
fn cycle() -> Vec<Row> {
    vec![
        row(1, "$", None, "$", false, 1, 0, M_OBJ),
        row(2, "$.a", Some(1), "a", false, 1, 0, M_OBJ),
        row(3, "$.a.b", Some(2), "b", false, 5, 0, M_OBJ),
        row(4, "$.b", Some(1), "b", false, 1, 0, M_OBJ),
        row(5, "$.b.a", Some(4), "a", false, 5, 0, M_OBJ),
    ]
}

#[test]
fn by_name_breaks_cycles_at_the_top() {
    let nodes = build(cycle(), "byName");
    // `a` moves to the top; `b` stays under it.
    assert_eq!(keys(&nodes), vec!["$", "a"]);
    assert!(nodes[0].children.is_empty());
    let a = &nodes[1];
    assert_eq!(keys(&a.children), vec!["b"]);
    assert!(a.children[0].children.is_empty());
    assert_eq!(a.path_ids, vec![2, 5]);
    assert_eq!(a.paths, vec!["$.a", "$.b.a"]);
    assert_eq!(a.count, 6);
    assert_eq!(a.children[0].count, 6);
    assert_eq!(a.path, "$.a", "the path shown is the first one");
}

#[test]
fn by_name_follows_the_heaviest_parent() {
    // `x` occurs once under `p` and three times under `q`; `q` wins.
    let rows = vec![
        row(1, "$", None, "$", false, 1, 0, M_OBJ),
        row(2, "$.p", Some(1), "p", false, 1, 0, M_OBJ),
        row(3, "$.p.x", Some(2), "x", false, 1, 1, M_STR),
        row(4, "$.q", Some(1), "q", false, 3, 0, M_OBJ),
        row(5, "$.q.x", Some(4), "x", false, 3, 3, M_STR),
    ];
    let nodes = build(rows, "byName");
    let root = &nodes[0];
    assert_eq!(keys(&root.children), vec!["p", "q"]);
    assert!(root.children[0].children.is_empty());
    assert_eq!(keys(&root.children[1].children), vec!["x"]);
    assert_eq!(root.children[1].children[0].non_empty, 4);
    assert_eq!(root.non_empty, 4);
    // equal weights: the parent name that sorts first wins
    let tie = vec![
        row(1, "$", None, "$", false, 1, 0, M_OBJ),
        row(2, "$.q", Some(1), "q", false, 1, 0, M_OBJ),
        row(3, "$.q.x", Some(2), "x", false, 2, 0, M_STR),
        row(4, "$.p", Some(1), "p", false, 1, 0, M_OBJ),
        row(5, "$.p.x", Some(4), "x", false, 2, 0, M_STR),
    ];
    let nodes = build(tie, "byName");
    assert_eq!(keys(&nodes[0].children), vec!["q", "p"]);
    assert!(nodes[0].children[0].children.is_empty());
    assert_eq!(keys(&nodes[0].children[1].children), vec!["x"]);
}

#[test]
fn rows_are_found_by_id() {
    let rows = tagged();
    assert_eq!(find_row(&rows, 4), Some(3));
    assert_eq!(find_row(&rows, 1), Some(0));
    assert_eq!(find_row(&rows, 9), None);
    assert_eq!(find_row(&vec![], 1), None);
}

#[test]
fn markdown_report_of_a_small_tree() {
    let nodes = build(tagged(), "byPath");
    let mut s = ScanSummary::default();
    s.files_scanned = 1;
    s.records = 2;
    s.keys = 5;
    s.values = 1234;
    let md = to_markdown(&nodes, "R", "byPath", &s);
    let expect = [
        "# Структура JSON\n\n",
        "Папка: `R`\n\n",
        "Файлов: 1 · записей: 2 · уникальных ключей: 5 · значений: 1\u{202f}234\n\n",
        "Режим дерева: по полному пути\n\n",
        "---\n\n",
        "- **$** — `массив` · 2\n",
        "  - **tags** — `массив` · 2\n",
        "    - **[]** — `string` · 3\n",
        "  - **k** — `null` · 2 · пусто\n",
    ]
    .concat();
    assert_eq!(md, expect);
    let by_name = to_markdown(&build(tagged(), "byName"), "R", "byName", &s);
    assert!(by_name.contains("Режим дерева: по имени ключа (дубликаты слиты)\n"));
    assert!(by_name.contains("    - **tags[]** — `string` · 3\n"));
}

#[test]
fn merged_paths_are_counted_in_the_report() {
    let nodes = build(cycle(), "byName");
    let md = to_markdown(&nodes, "R", "byName", &ScanSummary::default());
    assert!(md.ends_with("- **$** — `object` · 1 · пусто\n- **a** — `object` · 6 · путей: 2 · пусто\n  - **b** — `object` · 6 · путей: 2 · пусто\n"));
    let bare = build(vec![row(1, "$", None, "$", false, 0, 0, 0)], "byPath");
    let md = to_markdown(&bare, "R", "byPath", &ScanSummary::default());
    assert!(md.ends_with("---\n\n- **$** — `объект` · 0 · пусто\n"), "no type at all reads as an object");
}

#[test]
fn rows_are_checked_before_building() {
    assert!(rows_valid(&tagged()));
    assert!(rows_valid(&vec![]));
    let mut swapped = tagged();
    swapped.swap(1, 2);
    assert!(!rows_valid(&swapped), "ids must increase");
    let mut late_parent = tagged();
    late_parent[1].parent = Some(3);
    assert!(!rows_valid(&late_parent), "a parent comes before its children");
    let mut missing = tagged();
    missing.remove(1);
    assert!(!rows_valid(&missing), "every parent is a row");
}
