//! End-to-end checks of the core on a small set of files: scan, tree,
//! values, record. The files live in memory; the index is an in-memory
//! SQLite database built with the statements of the library.

use rusqlite::types::Value as SqlValue;
use rusqlite::Connection;
use structuraj::db::{vtype_name, INDEXES, INSERT_ERROR, INSERT_FILE, INSERT_PATH, INSERT_VAL, SAVE_SUMMARY, SCHEMA, T_BOOL, T_NUM};
use structuraj::json::JsonValue;
use structuraj::model::{ErrorRow, RecordPage, RecordRef, ScanSummary, TreeNode, ValuePage, ValueQuery};
use structuraj::query::{
    record_index_plan, record_not_found, record_page, records_plan, value_page, value_row, values_plan,
    empty_value_page, RecordSeek, SqlArg, ERRORS_SQL, FILE_SQL, PATHS_SQL, SUMMARY_SQL,
};
use structuraj::scan::{add_file, kind_for_extension, read_mode, FileOutcome, Interner, Kind, ReadMode, ValRow};
use structuraj::text::first_meaningful;
use structuraj::tree::{build, to_markdown, Row};

const A_JSON: &str = r#"[
  {"id": 1, "name": "alpha", "note": null, "blank": "   ", "emptyBox": {"x": null},
   "user": {"name": "u-ann"}, "items": [{"sku": "s1", "qty": 2}, {"sku": "s2", "qty": 1}]},
  {"id": 2, "name": "beta", "note": null, "order": {"name": "ord-1"}},
  {"id": 3, "name": "gamma", "note": null, "user": {"name": "u-bob"}}
]
"#;

const B_JSONL: &str = "{\"id\": 4, \"name\": \"delta\", \"tags\": [\"x\", \"y\"]}\n\
{\"id\": 5, \"name\": \"epsilon\", \"order\": {\"name\": \"ord-2\"}}\n\
\n\
{\"id\": 6, \"user\": {\"name\": \"u-cid\"}}\n";

const C_JSON: &str = "{\"name\": \"solo\", \"id\": 7}\n";

const BROKEN_JSON: &str = "{\"broken\": ";

/// The files of the set, by relative path, as the scan finds them.
fn fixtures() -> Vec<(&'static str, &'static str)> {
    let mut files = vec![
        ("a.json", A_JSON),
        ("sub/b.jsonl", B_JSONL),
        ("c.json", C_JSON),
        ("broken.json", BROKEN_JSON),
        ("readme.txt", "not data"),
    ];
    files.sort_by(|a, b| a.0.cmp(b.0));
    files
}

fn content_of(rel: &str) -> &'static str {
    fixtures().into_iter().find(|f| f.0 == rel).map(|f| f.1).unwrap()
}

fn to_json(v: &serde_json::Value) -> JsonValue {
    match v {
        serde_json::Value::Null => JsonValue::Null,
        serde_json::Value::Bool(b) => JsonValue::Bool(*b),
        serde_json::Value::Number(n) => JsonValue::Number(n.to_string()),
        serde_json::Value::String(s) => JsonValue::Text(s.clone()),
        serde_json::Value::Array(xs) => JsonValue::Array(xs.iter().map(to_json).collect()),
        serde_json::Value::Object(m) => JsonValue::Object(m.iter().map(|(k, x)| (k.clone(), to_json(x))).collect()),
    }
}

fn to_serde(v: &JsonValue) -> serde_json::Value {
    match v {
        JsonValue::Null => serde_json::Value::Null,
        JsonValue::Bool(b) => serde_json::Value::Bool(*b),
        JsonValue::Number(n) => serde_json::from_str(n).unwrap(),
        JsonValue::Text(t) => serde_json::Value::String(t.clone()),
        JsonValue::Array(xs) => serde_json::Value::Array(xs.iter().map(to_serde).collect()),
        JsonValue::Object(es) => serde_json::Value::Object(es.iter().map(|(k, x)| (k.clone(), to_serde(x))).collect()),
    }
}

fn sql_args(args: &[SqlArg]) -> Vec<SqlValue> {
    args.iter()
        .map(|a| match a {
            SqlArg::Int(i) => SqlValue::Integer(*i),
            SqlArg::Text(s) => SqlValue::Text(s.clone()),
        })
        .collect()
}

fn insert_rows(conn: &Connection, rows: &[ValRow]) {
    for r in rows {
        let num = if r.vtype == T_NUM {
            r.txt.as_deref().and_then(|t| t.parse::<f64>().ok()).map(SqlValue::Real).unwrap_or(SqlValue::Null)
        } else if r.vtype == T_BOOL {
            SqlValue::Real(if r.txt.as_deref() == Some("true") { 1.0 } else { 0.0 })
        } else {
            SqlValue::Null
        };
        let txt = match &r.txt {
            Some(t) => SqlValue::Text(t.clone()),
            None => SqlValue::Null,
        };
        let args = vec![
            SqlValue::Integer(r.path_id),
            SqlValue::Integer(r.file_id),
            SqlValue::Integer(r.rec),
            SqlValue::Integer(r.vtype),
            txt,
            num,
            SqlValue::Integer(if r.trunc { 1 } else { 0 }),
        ];
        conn.execute(INSERT_VAL, rusqlite::params_from_iter(args)).unwrap();
    }
}

/// Reads one file into the interner and the database, as the scan does.
fn scan_file(conn: &Connection, text: &str, kind: Kind, file_id: i64, interner: &mut Interner) -> FileOutcome {
    let mut out = FileOutcome::new();
    let mode = match kind {
        Kind::Jsonl => read_mode(kind, 0),
        Kind::Json => match first_meaningful(text.as_bytes()) {
            Some(b) => read_mode(kind, b),
            None => {
                out.note_empty();
                return out;
            }
        },
    };
    match mode {
        ReadMode::Lines => {
            for (i, line) in text.lines().enumerate() {
                let rows = out.read_line(i as i64 + 1, line, interner, file_id).expect("the record fits");
                insert_rows(conn, &rows);
            }
        }
        ReadMode::Elements => {
            interner.count_root_array();
            match serde_json::from_str::<Vec<serde_json::Value>>(text) {
                Ok(items) => {
                    for v in &items {
                        let rows = out.add_record(&to_json(v), true, interner, file_id);
                        insert_rows(conn, &rows);
                    }
                }
                Err(e) => {
                    out.note_parse_error(mode, None, e.to_string());
                }
            }
        }
        ReadMode::Values => {
            let stream = serde_json::Deserializer::from_str(text).into_iter::<serde_json::Value>();
            for item in stream {
                match item {
                    Ok(v) => {
                        let rows = out.add_record(&to_json(&v), false, interner, file_id);
                        insert_rows(conn, &rows);
                    }
                    Err(e) => {
                        if out.note_parse_error(mode, Some(e.line() as i64), e.to_string()) {
                            break;
                        }
                    }
                }
            }
        }
    }
    out
}

struct ScanTotals {
    files_scanned: u64,
    records: u64,
    files_failed: u64,
}

struct Scanned {
    conn: Connection,
    summary: ScanSummary,
}

fn scan_fixtures() -> Scanned {
    let conn = Connection::open_in_memory().unwrap();
    conn.execute_batch(SCHEMA).unwrap();
    let mut summary = ScanSummary::default();
    summary.root = "C:/тест".to_string();
    let mut interner = Interner::new();
    let mut file_id = 0i64;
    for (rel, text) in fixtures() {
        let ext = rel.rsplit('.').next().unwrap_or("");
        let kind = match kind_for_extension(ext) {
            Some(k) => k,
            None => continue,
        };
        file_id += 1;
        let outcome = scan_file(&conn, text, kind, file_id, &mut interner);
        let args = vec![
            SqlValue::Integer(file_id),
            SqlValue::Text(format!("/data/{rel}")),
            SqlValue::Text(rel.to_string()),
            SqlValue::Text(kind.as_str().to_string()),
            SqlValue::Integer(text.len() as i64),
            SqlValue::Integer(outcome.records as i64),
        ];
        conn.execute(INSERT_FILE, rusqlite::params_from_iter(args)).unwrap();
        for (line, msg) in &outcome.errors {
            let args = vec![
                SqlValue::Text(rel.to_string()),
                match line {
                    Some(l) => SqlValue::Integer(*l),
                    None => SqlValue::Null,
                },
                SqlValue::Text(msg.clone()),
            ];
            conn.execute(INSERT_ERROR, rusqlite::params_from_iter(args)).unwrap();
        }
        add_file(&mut summary, &outcome, text.len() as u64);
    }
    for (r, m) in interner.rows().iter().zip(interner.meta.iter()) {
        let args = vec![
            SqlValue::Integer(r.id),
            SqlValue::Text(r.path.clone()),
            match r.parent {
                Some(p) => SqlValue::Integer(p),
                None => SqlValue::Null,
            },
            SqlValue::Text(r.key.clone()),
            SqlValue::Integer(m.depth),
            SqlValue::Integer(if r.is_array { 1 } else { 0 }),
            SqlValue::Integer(r.cnt),
            SqlValue::Integer(r.nonempty),
            SqlValue::Integer(r.mask),
        ];
        conn.execute(INSERT_PATH, rusqlite::params_from_iter(args)).unwrap();
    }
    conn.execute_batch(INDEXES).unwrap();
    summary.keys = interner.meta.len() as u64;
    let saved = format!(
        "{{\"root\":{},\"filesScanned\":{},\"filesFailed\":{},\"records\":{},\"keys\":{},\"values\":{},\"bytes\":{},\"elapsedMs\":{}}}",
        serde_json::Value::String(summary.root.clone()),
        summary.files_scanned,
        summary.files_failed,
        summary.records,
        summary.keys,
        summary.values,
        summary.bytes,
        summary.elapsed_ms
    );
    conn.execute(SAVE_SUMMARY, rusqlite::params_from_iter(vec![SqlValue::Text(saved)])).unwrap();
    Scanned { conn, summary }
}

fn load_rows(conn: &Connection) -> Vec<Row> {
    let mut stmt = conn.prepare(PATHS_SQL).unwrap();
    let rows = stmt
        .query_map([], |r| {
            Ok(Row {
                id: r.get(0)?,
                path: r.get(1)?,
                parent: r.get(2)?,
                key: r.get(3)?,
                is_array: r.get::<_, i64>(4)? != 0,
                cnt: r.get(5)?,
                nonempty: r.get(6)?,
                mask: r.get(7)?,
            })
        })
        .unwrap()
        .collect::<rusqlite::Result<Vec<_>>>()
        .unwrap();
    rows
}

fn tree_of(s: &Scanned, mode: &str) -> Vec<TreeNode> {
    build(load_rows(&s.conn), mode)
}

fn errors(conn: &Connection) -> Vec<ErrorRow> {
    let mut stmt = conn.prepare(ERRORS_SQL).unwrap();
    let rows = stmt
        .query_map([], |r| Ok(ErrorRow { file: r.get(0)?, line: r.get(1)?, message: r.get(2)? }))
        .unwrap()
        .collect::<rusqlite::Result<Vec<_>>>()
        .unwrap();
    rows
}

fn values(conn: &Connection, q: &ValueQuery) -> ValuePage {
    let plan = match values_plan(q) {
        Some(p) => p,
        None => return empty_value_page(q.offset),
    };
    let total: i64 = conn
        .query_row(&plan.count_sql, rusqlite::params_from_iter(sql_args(&plan.count_args)), |r| r.get(0))
        .unwrap();
    let mut stmt = conn.prepare(&plan.page_sql).unwrap();
    let rows = stmt
        .query_map(rusqlite::params_from_iter(sql_args(&plan.page_args)), |r| {
            Ok(value_row(r.get(0)?, r.get(1)?, r.get(2)?, r.get(3)?, r.get(4)?, r.get(5)?, r.get(6)?))
        })
        .unwrap()
        .collect::<rusqlite::Result<Vec<_>>>()
        .unwrap();
    value_page(q, total, rows)
}

fn records(conn: &Connection, path_ids: &Vec<i64>, offset: i64, limit: i64) -> RecordPage {
    let plan = records_plan(path_ids, offset, limit);
    let total: i64 = conn
        .query_row(&plan.count_sql, rusqlite::params_from_iter(sql_args(&plan.count_args)), |r| r.get(0))
        .unwrap();
    let mut stmt = conn.prepare(&plan.page_sql).unwrap();
    let rows = stmt
        .query_map(rusqlite::params_from_iter(sql_args(&plan.page_args)), |r| {
            Ok(RecordRef { file_id: r.get(0)?, file: r.get(1)?, rec: r.get(2)? })
        })
        .unwrap()
        .collect::<rusqlite::Result<Vec<_>>>()
        .unwrap();
    record_page(total, offset, rows)
}

fn record_index(conn: &Connection, path_ids: &Vec<i64>, file_id: i64, rec: i64) -> i64 {
    let (sql, args) = record_index_plan(path_ids, file_id, rec);
    conn.query_row(&sql, rusqlite::params_from_iter(sql_args(&args)), |r| r.get(0)).unwrap()
}

/// Reads record `rec` of a file back from its source text.
fn record(conn: &Connection, file_id: i64, rec: i64) -> Result<serde_json::Value, String> {
    let (_abs, rel, kind): (String, String, String) = conn
        .query_row(FILE_SQL, rusqlite::params_from_iter(vec![SqlValue::Integer(file_id)]), |r| {
            Ok((r.get(0)?, r.get(1)?, r.get(2)?))
        })
        .map_err(|e| e.to_string())?;
    let text = content_of(&rel);
    let mut seek = RecordSeek::new(rec);
    if structuraj::scan::kind_from_name(&kind) == Kind::Jsonl {
        for line in text.lines() {
            if let Some(v) = seek.offer_line(line) {
                return Ok(to_serde(&v));
            }
        }
        return Err(record_not_found(rec));
    }
    if let Ok(items) = serde_json::from_str::<Vec<serde_json::Value>>(text) {
        for v in items {
            if seek.offer() {
                return Ok(v);
            }
        }
        return Err(record_not_found(rec));
    }
    let mut seek = RecordSeek::new(rec);
    for item in serde_json::Deserializer::from_str(text).into_iter::<serde_json::Value>() {
        let v = item.map_err(|e| e.to_string())?;
        if seek.offer() {
            return Ok(v);
        }
    }
    Err(record_not_found(rec))
}

fn find<'a>(nodes: &'a [TreeNode], key: &str) -> Option<&'a TreeNode> {
    for n in nodes {
        if n.key == key {
            return Some(n);
        }
        if let Some(f) = find(&n.children, key) {
            return Some(f);
        }
    }
    None
}

fn count_nodes(nodes: &[TreeNode]) -> usize {
    nodes.iter().map(|n| 1 + count_nodes(&n.children)).sum()
}

fn occurrences(nodes: &[TreeNode], key: &str) -> usize {
    nodes.iter().map(|n| (n.key == key) as usize + occurrences(&n.children, key)).sum()
}

fn name_query(path_ids: Vec<i64>, filter: Option<&str>, sort: &str, offset: i64, limit: i64) -> ValueQuery {
    ValueQuery {
        path_ids,
        filter: filter.map(|f| f.to_string()),
        file_id: None,
        sort: sort.to_string(),
        order: "asc".to_string(),
        offset,
        limit,
    }
}

#[test]
fn scan_reads_every_supported_file() {
    let s = scan_fixtures();
    // the summary as the index keeps it
    let saved: String = s.conn.query_row(SUMMARY_SQL, [], |r| r.get(0)).expect("the summary is saved");
    let sum: serde_json::Value = serde_json::from_str(&saved).unwrap();
    let sum = ScanTotals {
        files_scanned: sum["filesScanned"].as_u64().unwrap(),
        records: sum["records"].as_u64().unwrap(),
        files_failed: sum["filesFailed"].as_u64().unwrap(),
    };

    // a.json (3) + sub/b.jsonl (3) + c.json (1) = 7; broken.json gives no record.
    assert_eq!(sum.files_scanned, 4, "four files are found");
    assert_eq!(sum.records, 7, "seven records are parsed");
    assert_eq!(sum.files_failed, 1, "the broken file is reported");

    let errs = errors(&s.conn);
    assert_eq!(errs.len(), 1);
    assert!(errs[0].file.contains("broken.json"));
}

#[test]
fn by_path_keeps_namesakes_apart() {
    let s = scan_fixtures();
    let nodes = tree_of(&s, "byPath");

    let user = find(&nodes, "user").expect("no user node");
    let order = find(&nodes, "order").expect("no order node");
    assert!(find(&user.children, "name").is_some());
    assert!(find(&order.children, "name").is_some());

    // The root is both an array of records and a standalone object, so it
    // has two `name` children: `$[].name` (5) and `$.name` (1).
    let root = &nodes[0];
    let top_names: Vec<&TreeNode> = root.children.iter().filter(|n| n.key == "name").collect();
    assert_eq!(top_names.len(), 2, "byPath does not merge different paths");
    let total: i64 = top_names.iter().map(|n| n.count).sum();
    assert_eq!(total, 6, "six root names in all");
    assert!(top_names.iter().any(|n| n.path == "$[].name" && n.count == 5));
    assert!(top_names.iter().any(|n| n.path == "$.name" && n.count == 1));
    assert!(top_names.iter().all(|n| n.path_ids.len() == 1));
}

#[test]
fn by_name_merges_namesakes_into_one_node() {
    let s = scan_fixtures();
    let nodes = tree_of(&s, "byName");

    let name = find(&nodes, "name").expect("no name node");
    assert!(name.paths.len() >= 3, "every name merges in byName, paths: {:?}", name.paths);
    assert_eq!(name.path_ids.len(), name.paths.len(), "as many path ids as paths");

    assert_eq!(occurrences(&nodes, "name"), 1, "the key shows once");
    assert!(count_nodes(&nodes) > 5);
}

#[test]
fn arrays_of_objects_show_keys_directly() {
    let s = scan_fixtures();
    let nodes = tree_of(&s, "byPath");

    let items = find(&nodes, "items").expect("no items node");
    assert!(items.is_array);
    assert!(find(&items.children, "sku").is_some());
    assert!(find(&items.children, "qty").is_some());
    assert!(items.children.iter().all(|c| c.key != "[]"), "the [] node of an array of objects folds away");

    let tags = find(&nodes, "tags").expect("no tags node");
    assert!(tags.is_array);
    let elem = find(&tags.children, "[]").expect("no element node under tags");
    assert!(elem.types.contains(&"string".to_string()));
}

#[test]
fn values_paginate_filter_and_sort() {
    let s = scan_fixtures();
    let nodes = tree_of(&s, "byName");
    let name = find(&nodes, "name").unwrap();

    let all = values(&s.conn, &name_query(name.path_ids.clone(), None, "value", 0, 100));
    assert!(all.total >= 7);
    let sorted: Vec<_> = all.rows.iter().filter_map(|r| r.value.clone()).collect();
    let mut expect = sorted.clone();
    expect.sort();
    assert_eq!(sorted, expect, "sorting by value");

    let page = values(&s.conn, &name_query(name.path_ids.clone(), None, "value", 2, 3));
    assert_eq!(page.rows.len(), 3, "a page of exactly three rows");
    assert_eq!(page.total, all.total, "the total does not depend on the page");

    let filtered = values(&s.conn, &name_query(name.path_ids.clone(), Some("ord-"), "rec", 0, 100));
    assert_eq!(filtered.total, 2, "two values match ord-");
}

#[test]
fn record_is_read_back_from_source_file() {
    let s = scan_fixtures();
    let nodes = tree_of(&s, "byName");
    let name = find(&nodes, "name").unwrap();

    let recs = records(&s.conn, &name.path_ids, 0, 10);
    assert_eq!(recs.total, 7, "name is in seven records");

    let first = &recs.rows[0];
    let view = record(&s.conn, first.file_id, first.rec).expect("the record reads back");
    assert!(view.is_object());

    let idx = record_index(&s.conn, &name.path_ids, first.file_id, first.rec);
    assert_eq!(idx, 0);
    let third = &recs.rows[2];
    let idx3 = record_index(&s.conn, &name.path_ids, third.file_id, third.rec);
    assert_eq!(idx3, 2);
}

#[test]
fn markdown_export_lists_keys_with_counts() {
    let s = scan_fixtures();
    let nodes = tree_of(&s, "byName");
    let md = to_markdown(&nodes, "C:/тест", "byName", &s.summary);

    assert!(md.starts_with("# Структура JSON"));
    assert!(md.contains("C:/тест"));
    assert!(md.contains("**name**"), "name is listed");
    assert!(md.contains("**id**"), "id is listed");
    assert!(md.contains("массив"), "arrays are marked");
    assert!(md.contains("путей: "), "merged paths are counted");
}

#[test]
fn always_empty_keys_are_marked() {
    let s = scan_fixtures();
    let nodes = tree_of(&s, "byPath");

    let note = find(&nodes, "note").expect("no note node");
    assert_eq!(note.count, 3);
    assert_eq!(note.non_empty, 0, "a key that is always null is empty");

    let blank = find(&nodes, "blank").expect("no blank node");
    assert_eq!(blank.non_empty, 0, "a text of spaces is empty");

    let boxed = find(&nodes, "emptyBox").expect("no emptyBox node");
    assert_eq!(boxed.non_empty, 0, "an object of nulls is empty as a whole");

    let id = find(&nodes, "id").expect("no id node");
    assert!(id.non_empty > 0, "id is never empty");

    let user = find(&nodes, "user").expect("no user node");
    assert!(user.non_empty > 0, "user holds a non-empty name");
}

#[test]
fn record_of_a_standalone_value_and_a_missing_record() {
    let s = scan_fixtures();
    // c.json is the third file found (a.json, broken.json, c.json, sub/b.jsonl).
    let v = record(&s.conn, 3, 0).unwrap();
    assert_eq!(v["name"], "solo");
    assert_eq!(record(&s.conn, 3, 1).unwrap_err(), "запись 1 не найдена");
    let line = record(&s.conn, 4, 2).unwrap();
    assert_eq!(line["id"], 6, "the blank line of the JSONL file is not a record");
}

#[test]
fn scan_counts_keys_and_values() {
    let s = scan_fixtures();
    // 20 canonical paths, from `$` to `$[].tags[]`.
    assert_eq!(s.summary.keys, 20);
    let n: i64 = s.conn.query_row("SELECT COUNT(*) FROM vals", [], |r| r.get(0)).unwrap();
    assert_eq!(s.summary.values as i64, n);
    let rows = load_rows(&s.conn);
    assert_eq!(rows[0].path, "$");
    assert_eq!(rows[0].cnt, 5, "the root: one array file, three lines, one standalone value");
    assert!(rows.iter().all(|r| r.parent.map_or(true, |p| p < r.id)));
    assert!(rows.iter().all(|r| 0 <= r.nonempty && r.nonempty <= r.cnt));
    // a value has no text exactly when it is null
    let odd: i64 = s
        .conn
        .query_row("SELECT COUNT(*) FROM vals WHERE (txt IS NULL) <> (vtype = 0)", [], |r| r.get(0))
        .unwrap();
    assert_eq!(odd, 0);
    let dangling: i64 = s
        .conn
        .query_row("SELECT COUNT(*) FROM vals WHERE path_id NOT IN (SELECT id FROM paths)", [], |r| r.get(0))
        .unwrap();
    assert_eq!(dangling, 0, "every value points at a path");
    assert_eq!(vtype_name(3), "string");
}

fn all_keys(nodes: &[TreeNode], out: &mut Vec<String>) {
    for n in nodes {
        out.push(n.key.clone());
        all_keys(&n.children, out);
    }
}

#[test]
fn by_name_shows_every_key_once() {
    let s = scan_fixtures();
    let nodes = tree_of(&s, "byName");
    let mut keys = Vec::new();
    all_keys(&nodes, &mut keys);
    let mut unique = keys.clone();
    unique.sort();
    unique.dedup();
    assert_eq!(keys.len(), unique.len(), "keys: {:?}", keys);
    // `$`, id, name, note, blank, emptyBox, x, user, items, sku, qty, order, tags, tags[]
    assert_eq!(keys.len(), 14);
}

fn all_ids(nodes: &[TreeNode], out: &mut Vec<i64>) {
    for n in nodes {
        out.extend(n.path_ids.iter().copied());
        all_ids(&n.children, out);
    }
}

#[test]
fn by_path_shows_every_path_once() {
    let s = scan_fixtures();
    let nodes = tree_of(&s, "byPath");
    let mut ids = Vec::new();
    all_ids(&nodes, &mut ids);
    ids.sort();
    // every path but the folded `$[]` (2) and `$[].items[]` (8), once each
    let expect: Vec<i64> = (1..=20).filter(|i| *i != 2 && *i != 8).collect();
    assert_eq!(ids, expect);
}

#[test]
fn the_value_filter_is_a_plain_substring() {
    let s = scan_fixtures();
    let nodes = tree_of(&s, "byName");
    let name = find(&nodes, "name").unwrap();
    let upper = values(&s.conn, &name_query(name.path_ids.clone(), Some("ORD-"), "rec", 0, 100));
    assert_eq!(upper.total, 0, "the case of letters counts");
    let wild = values(&s.conn, &name_query(name.path_ids.clone(), Some("ord_"), "rec", 0, 100));
    assert_eq!(wild.total, 0, "_ is no wildcard");
    let part = values(&s.conn, &name_query(name.path_ids.clone(), Some(" -cid "), "rec", 0, 100));
    assert_eq!(part.total, 1, "the filter is trimmed");
}
