//! Checks of the library's functions on concrete values.

use structuraj::db::{mask_names, vtype_name, M_ARR, M_BOOL, M_NULL, M_NUM, M_OBJ, M_STR, MAX_TEXT, T_ARR, T_BOOL, T_NULL, T_NUM, T_OBJ, T_STR};
use structuraj::json::JsonValue;
use structuraj::model::{default_limit, default_order, default_sort, ScanSummary, ValueQuery};
use structuraj::query::{
    order_clause, placeholders, record_index_plan, record_not_found, records_plan, value_row, values_plan, RecordSeek,
    SqlArg,
};
use structuraj::scan::{
    add_file, commit_due, enters_entry, kind_for_extension, kind_from_name, progress_due, read_mode, FileOutcome,
    Interner, Kind, ReadMode, COMMIT_EVERY, MAX_ERRORS_PER_FILE, ROOT_ID,
};
use structuraj::text::{
    eq_ignore_ascii_case, first_meaningful, fmt_int, is_whitespace_char, line_text, not_blank, prefixed_number, str_equal,
    str_less, trim_text, truncate_utf8,
};

fn ints(args: &[SqlArg]) -> Vec<i64> {
    args.iter()
        .map(|a| match a {
            SqlArg::Int(i) => *i,
            SqlArg::Text(_) => panic!("a text parameter"),
        })
        .collect()
}

fn query(path_ids: Vec<i64>) -> ValueQuery {
    ValueQuery {
        path_ids,
        filter: None,
        file_id: None,
        sort: default_sort(),
        order: default_order(),
        offset: 0,
        limit: default_limit(),
    }
}

#[test]
fn type_codes_have_names() {
    assert_eq!(vtype_name(T_NULL), "null");
    assert_eq!(vtype_name(T_BOOL), "bool");
    assert_eq!(vtype_name(T_NUM), "number");
    assert_eq!(vtype_name(T_STR), "string");
    assert_eq!(vtype_name(T_OBJ), "object");
    assert_eq!(vtype_name(T_ARR), "array");
    assert_eq!(vtype_name(6), "?");
    assert_eq!(vtype_name(-1), "?");
}

#[test]
fn masks_list_their_types_in_order() {
    assert_eq!(mask_names(M_ARR | M_NULL | M_STR), vec!["null", "string", "array"]);
    assert_eq!(mask_names(0), Vec::<String>::new());
    assert_eq!(
        mask_names(M_NULL | M_BOOL | M_NUM | M_STR | M_OBJ | M_ARR),
        vec!["null", "bool", "number", "string", "object", "array"]
    );
    assert_eq!(mask_names(64 | M_BOOL), vec!["bool"]);
}

#[test]
fn long_texts_are_cut_after_4096_characters() {
    assert_eq!(truncate_utf8("short"), ("short".to_string(), false));
    let exact = "a".repeat(MAX_TEXT);
    assert_eq!(truncate_utf8(&exact), (exact.clone(), false));
    let long = "a".repeat(5000);
    let (cut, t) = truncate_utf8(&long);
    assert_eq!((cut.len(), t), (4096, true));
    // characters are counted, not bytes: 4096 Cyrillic letters stay whole
    let cyr = "я".repeat(4096);
    assert_eq!(truncate_utf8(&cyr), (cyr.clone(), false));
    let (cut, t) = truncate_utf8(&"€".repeat(4097));
    assert_eq!((cut.chars().count(), cut.len(), t), (4096, 3 * 4096, true));
    assert_eq!(cut, "€".repeat(4096));
}

#[test]
fn integers_are_grouped_by_thousands() {
    assert_eq!(fmt_int(0), "0");
    assert_eq!(fmt_int(999), "999");
    assert_eq!(fmt_int(1000), "1\u{202f}000");
    assert_eq!(fmt_int(1234567), "1\u{202f}234\u{202f}567");
    assert_eq!(fmt_int(-1000), "-1\u{202f}000");
    assert_eq!(fmt_int(-12), "-12");
    assert_eq!(fmt_int(i64::MAX), "9\u{202f}223\u{202f}372\u{202f}036\u{202f}854\u{202f}775\u{202f}807");
    assert_eq!(prefixed_number("p", 42), "p42");
    assert_eq!(prefixed_number("p", -7), "p-7");
}

#[test]
fn placeholders_are_comma_separated() {
    assert_eq!(placeholders(0), "");
    assert_eq!(placeholders(1), "?");
    assert_eq!(placeholders(3), "?,?,?");
}

#[test]
fn sort_orders() {
    assert_eq!(order_clause("value", "DESC"), "(v.num IS NULL) DESC, v.num DESC, v.txt DESC");
    assert_eq!(order_clause("value", "asc"), "(v.num IS NULL) ASC, v.num ASC, v.txt ASC");
    assert_eq!(order_clause("file", "Desc"), "f.rel_path DESC, v.rec DESC");
    assert_eq!(order_clause("type", "up"), "v.vtype ASC, v.txt ASC");
    assert_eq!(order_clause("path", "desc"), "p.path DESC, v.file_id DESC, v.rec DESC");
    assert_eq!(order_clause("rec", "asc"), "v.file_id ASC, v.rec ASC");
    assert_eq!(order_clause("anything", "asc"), "v.file_id ASC, v.rec ASC");
}

#[test]
fn query_defaults() {
    assert_eq!(default_sort(), "rec");
    assert_eq!(default_order(), "asc");
    assert_eq!(default_limit(), 200);
}

#[test]
fn a_query_without_paths_has_no_statement() {
    assert!(values_plan(&query(vec![])).is_none());
}

#[test]
fn values_statement_with_file_and_filter() {
    let mut q = query(vec![3, 7]);
    q.file_id = Some(2);
    q.filter = Some("  50%_a\\ ".to_string());
    q.sort = "type".to_string();
    q.offset = -5;
    q.limit = 0;
    let plan = values_plan(&q).unwrap();
    let w = "v.path_id IN (?,?) AND v.file_id = ? AND instr(v.txt, ?) > 0";
    let from = " FROM vals v JOIN files f ON f.id = v.file_id JOIN paths p ON p.id = v.path_id WHERE ";
    assert_eq!(plan.count_sql, format!("SELECT COUNT(*){from}{w}"));
    assert_eq!(
        plan.page_sql,
        format!(
            "SELECT v.file_id, f.rel_path, v.rec, p.path, v.vtype, v.txt, v.trunc{from}{w} ORDER BY v.vtype ASC, v.txt ASC LIMIT ? OFFSET ?"
        )
    );
    assert_eq!(plan.count_args.len(), 4);
    assert_eq!(ints(&plan.count_args[..3]), vec![3, 7, 2]);
    match &plan.count_args[3] {
        // the filter is trimmed and passed as it is: `%`, `_` and `\` are plain characters
        SqlArg::Text(p) => assert_eq!(p, "50%_a\\"),
        SqlArg::Int(_) => panic!("the filter is a text"),
    }
    // the page size is at least 1, the offset at least 0
    assert_eq!(ints(&plan.page_args[4..]), vec![1, 0]);
}

#[test]
fn page_sizes_are_clamped() {
    let mut q = query(vec![1]);
    q.limit = 9999;
    q.offset = 40;
    let plan = values_plan(&q).unwrap();
    assert_eq!(ints(&plan.page_args), vec![1, 5000, 40]);
    q.limit = 25;
    let plan = values_plan(&q).unwrap();
    assert_eq!(ints(&plan.page_args), vec![1, 25, 40]);
}

#[test]
fn the_total_ignores_the_page() {
    let mut q1 = query(vec![4, 5]);
    q1.filter = Some("ord-".to_string());
    let mut q2 = q1.clone();
    q2.offset = 200;
    q2.limit = 3;
    q2.sort = "value".to_string();
    let (p1, p2) = (values_plan(&q1).unwrap(), values_plan(&q2).unwrap());
    assert_eq!(p1.count_sql, p2.count_sql);
    assert_eq!(p1.count_args.len(), p2.count_args.len());
    assert_ne!(p1.page_sql, p2.page_sql);
    let r1 = records_plan(&vec![4, 5], 0, 10);
    let r2 = records_plan(&vec![4, 5], 30, 2);
    assert_eq!(r1.count_sql, r2.count_sql);
    assert_eq!(ints(&r1.count_args), ints(&r2.count_args));
}

#[test]
fn blank_filters_are_ignored() {
    let mut q = query(vec![1]);
    q.filter = Some(" \t ".to_string());
    let plan = values_plan(&q).unwrap();
    assert!(!plan.count_sql.contains("instr"));
    assert_eq!(plan.count_args.len(), 1);
}

#[test]
fn records_statements() {
    let all = records_plan(&vec![], -3, 100000);
    assert_eq!(all.count_sql, "SELECT COUNT(*) FROM (SELECT DISTINCT v.file_id, v.rec FROM vals v WHERE 1=1)");
    assert_eq!(
        all.page_sql,
        "SELECT DISTINCT v.file_id, f.rel_path, v.rec FROM vals v JOIN files f ON f.id = v.file_id WHERE 1=1 ORDER BY v.file_id, v.rec LIMIT ? OFFSET ?"
    );
    assert_eq!(ints(&all.page_args), vec![5000, 0]);
    let some = records_plan(&vec![9], 2, 10);
    assert_eq!(
        some.count_sql,
        "SELECT COUNT(*) FROM (SELECT DISTINCT v.file_id, v.rec FROM vals v WHERE v.path_id IN (?))"
    );
    assert_eq!(ints(&some.page_args), vec![9, 10, 2]);
    let (sql, args) = record_index_plan(&vec![9, 10], 3, 4);
    assert_eq!(
        sql,
        "SELECT COUNT(*) FROM (SELECT DISTINCT v.file_id, v.rec FROM vals v WHERE v.path_id IN (?,?) AND (v.file_id < ? OR (v.file_id = ? AND v.rec < ?)))"
    );
    assert_eq!(ints(&args), vec![9, 10, 3, 3, 4]);
}

#[test]
fn value_rows_name_their_type() {
    let r = value_row(1, "a.json".to_string(), 0, "$[].id".to_string(), T_NUM, Some("1".to_string()), 0);
    assert_eq!(r.vtype, "number");
    assert!(!r.truncated);
    let r = value_row(1, "a.json".to_string(), 0, "$[].s".to_string(), T_STR, Some("x".to_string()), 1);
    assert_eq!(r.vtype, "string");
    assert!(r.truncated);
}

#[test]
fn record_seek_stops_at_the_target() {
    let mut s = RecordSeek::new(2);
    assert!(!s.offer());
    assert!(!s.offer());
    assert!(s.offer());
    assert_eq!(s.seen, 2);
    assert_eq!(record_not_found(12), "запись 12 не найдена");
    assert_eq!(record_not_found(-1), "запись -1 не найдена");
}

#[test]
fn file_kinds_by_extension() {
    assert_eq!(kind_for_extension("json"), Some(Kind::Json));
    assert_eq!(kind_for_extension("JSON"), Some(Kind::Json));
    assert_eq!(kind_for_extension("jsonl"), Some(Kind::Jsonl));
    assert_eq!(kind_for_extension("NdJson"), Some(Kind::Jsonl));
    assert_eq!(kind_for_extension("txt"), None);
    assert_eq!(kind_for_extension("jso"), None);
    assert_eq!(Kind::Json.as_str(), "json");
    assert_eq!(Kind::Jsonl.as_str(), "jsonl");
    assert_eq!(kind_from_name("jsonl"), Kind::Jsonl);
    assert_eq!(kind_from_name("json"), Kind::Json);
    assert_eq!(kind_from_name("JSONL"), Kind::Json);
}

#[test]
fn the_git_folder_is_skipped() {
    assert!(!enters_entry(true, ".git"));
    assert!(enters_entry(false, ".git"));
    assert!(enters_entry(true, ".github"));
    assert!(enters_entry(true, "data"));
}

#[test]
fn lines_and_heads_of_files() {
    assert_eq!(line_text("\u{feff}\u{feff}  {\"a\":1} \r"), "{\"a\":1}");
    assert_eq!(line_text("   "), "");
    assert_eq!(line_text(" \u{feff}x"), "\u{feff}x");
    assert_eq!(trim_text("\u{3000} a b\t"), "a b");
    assert_eq!(first_meaningful(b"\xEF\xBB\xBF \n [1]"), Some(b'['));
    assert_eq!(first_meaningful(b" \t\r\n"), None);
    assert_eq!(first_meaningful(b""), None);
    assert_eq!(first_meaningful(b"{}"), Some(b'{'));
}

#[test]
fn texts_and_white_space() {
    assert!(!not_blank(""));
    assert!(!not_blank(" \t\u{a0}\u{2003}"));
    assert!(not_blank("  x "));
    assert!(is_whitespace_char('\u{85}'));
    assert!(!is_whitespace_char('\u{feff}'));
    assert!(eq_ignore_ascii_case("DeSc", "desc"));
    assert!(!eq_ignore_ascii_case("Ё", "ё"));
    assert!(str_equal("byPath", "byPath"));
    assert!(!str_equal("byPath", "bypath"));
    assert!(str_less("$", "a"));
    assert!(str_less("ab", "abc"));
    assert!(!str_less("b", "abc"));
    assert!(!str_less("", ""));
}

#[test]
fn the_interner_keeps_one_id_per_path() {
    let mut it = Interner::new();
    assert_eq!(it.meta.len(), 1);
    assert_eq!(it.meta[0].path, "$");
    let a = it.intern("$[]", Some(ROOT_ID), "[]", 1);
    assert_eq!(a, 2);
    let b = it.intern("$[].x", Some(a), "x", 2);
    assert_eq!(b, 3);
    assert_eq!(it.intern("$[]", Some(7), "other", 9), 2, "a known path keeps its id");
    assert_eq!(it.meta.len(), 3);
    assert_eq!(it.meta[1].key, "[]");
    it.bump(b, M_STR, false, true);
    it.bump(b, M_NULL, false, false);
    it.bump(a, M_OBJ, true, false);
    let m = &it.meta[2];
    assert_eq!((m.cnt, m.nonempty, m.mask, m.is_array), (2, 1, M_STR | M_NULL, false));
    assert!(it.meta[1].is_array);
    let rows = it.rows();
    assert_eq!(rows.iter().map(|r| r.id).collect::<Vec<_>>(), vec![1, 2, 3]);
    assert_eq!(rows[2].parent, Some(2));
}

#[test]
fn a_record_walk_writes_one_row_per_leaf() {
    let mut it = Interner::new();
    let mut out = FileOutcome::new();
    let rec = JsonValue::Object(vec![
        ("a".to_string(), JsonValue::Number("1.5".to_string())),
        ("b".to_string(), JsonValue::Array(vec![JsonValue::Bool(true), JsonValue::Null])),
        ("c".to_string(), JsonValue::Object(vec![])),
        ("d".to_string(), JsonValue::Text(" ".to_string())),
        ("e".to_string(), JsonValue::Array(vec![])),
    ]);
    let rows = out.add_record(&rec, true, &mut it, 9);
    assert_eq!((out.records, out.values), (1, 6));
    let got: Vec<(i64, i64, Option<String>)> = rows.iter().map(|r| (r.path_id, r.vtype, r.txt.clone())).collect();
    assert_eq!(
        got,
        vec![
            (3, T_NUM, Some("1.5".to_string())),
            (5, T_BOOL, Some("true".to_string())),
            (5, T_NULL, None),
            (6, T_OBJ, Some("{}".to_string())),
            (7, T_STR, Some(" ".to_string())),
            (8, T_ARR, Some("[]".to_string())),
        ]
    );
    assert!(rows.iter().all(|r| r.file_id == 9 && r.rec == 0 && !r.trunc));
    let paths: Vec<&str> = it.meta.iter().map(|m| m.path.as_str()).collect();
    assert_eq!(paths, vec!["$", "$[]", "$[].a", "$[].b", "$[].b[]", "$[].c", "$[].d", "$[].e"]);
    // a blank text and empty containers carry no value
    let ne: Vec<i64> = it.meta.iter().map(|m| m.nonempty).collect();
    assert_eq!(ne, vec![0, 0, 1, 0, 1, 0, 0, 0]);
    assert_eq!(it.meta[4].mask, M_BOOL | M_NULL);
    assert_eq!(it.meta[4].depth, 3);
    // the next record of the file has the next number
    let rows = out.add_line_record(&JsonValue::Null, &mut it, 9);
    assert_eq!(rows[0].rec, 1);
    assert_eq!(it.meta[0].cnt, 1, "a line counts the root as an array");
    assert_eq!(it.meta[1].cnt, 2);
}

#[test]
fn a_standalone_value_sits_at_the_root() {
    let mut it = Interner::new();
    let mut out = FileOutcome::new();
    let long = "ж".repeat(5000);
    let rows = out.add_record(&JsonValue::Text(long), false, &mut it, 1);
    assert_eq!(rows.len(), 1);
    assert_eq!(rows[0].path_id, 1);
    assert!(rows[0].trunc);
    assert_eq!(rows[0].txt.as_ref().unwrap().chars().count(), 4096);
    assert_eq!((it.meta[0].cnt, it.meta[0].nonempty, it.meta[0].mask), (1, 1, M_STR));
}

#[test]
fn errors_of_a_file_are_capped() {
    let mut out = FileOutcome::new();
    for i in 0..(MAX_ERRORS_PER_FILE as i64 + 5) {
        out.note_error(Some(i + 1), format!("e{i}"));
    }
    assert_eq!(out.errors.len(), 100);
    out.note_unreadable_line(500, "broken pipe");
    assert_eq!(out.errors.len(), 100);
    out.note_failure(None, "stop".to_string());
    assert_eq!(out.errors.len(), 100, "no more than 100 errors reach the report");
    out.note_unopenable("gone");
    out.note_empty();
    assert_eq!(out.errors.len(), 100);
    let mut out = FileOutcome::new();
    out.note_unopenable("no access");
    out.note_empty();
    out.note_unreadable_line(3, "bad");
    assert_eq!(
        out.errors,
        vec![
            (None, "не открывается: no access".to_string()),
            (None, "файл пустой".to_string()),
            (Some(3), "не читается строка: bad".to_string()),
        ]
    );
}

#[test]
fn totals_of_a_scan() {
    let mut s = ScanSummary::default();
    assert_eq!((s.files_scanned, s.records, s.root.as_str()), (0, 0, ""));
    let mut ok = FileOutcome::new();
    ok.records = 3;
    ok.values = 10;
    add_file(&mut s, &ok, 100);
    let mut bad = FileOutcome::new();
    bad.note_empty();
    add_file(&mut s, &bad, 0);
    assert_eq!((s.files_scanned, s.files_failed, s.records, s.values, s.bytes), (2, 1, 3, 10, 100));
}

#[test]
fn commits_and_progress() {
    assert_eq!(commit_due(0, 10), (10, false));
    assert_eq!(commit_due(COMMIT_EVERY, 0), (COMMIT_EVERY, false));
    assert_eq!(commit_due(COMMIT_EVERY, 1), (0, true));
    assert!(progress_due(5, 5, 0));
    assert!(!progress_due(4, 5, 50));
    assert!(progress_due(4, 5, 51));
}

#[test]
fn files_are_read_by_their_first_byte() {
    assert_eq!(read_mode(Kind::Jsonl, b'['), ReadMode::Lines);
    assert_eq!(read_mode(Kind::Json, b'['), ReadMode::Elements);
    assert_eq!(read_mode(Kind::Json, b'{'), ReadMode::Values);
    assert_eq!(read_mode(Kind::Json, b'1'), ReadMode::Values);
}

#[test]
fn parse_errors_stop_or_skip_by_mode() {
    let mut out = FileOutcome::new();
    assert!(!out.note_parse_error(ReadMode::Lines, Some(4), "bad line".to_string()), "a bad line is skipped");
    assert!(out.note_parse_error(ReadMode::Values, Some(9), "bad value".to_string()));
    assert!(out.note_parse_error(ReadMode::Elements, Some(2), "bad array".to_string()));
    assert_eq!(
        out.errors,
        vec![
            (Some(4), "bad line".to_string()),
            (Some(9), "bad value".to_string()),
            (None, "bad array".to_string()),
        ]
    );
    let mut full = FileOutcome::new();
    for i in 0..100 {
        full.note_parse_error(ReadMode::Lines, Some(i), "x".to_string());
    }
    full.note_parse_error(ReadMode::Values, Some(200), "y".to_string());
    assert_eq!(full.errors.len(), 100, "within the cap only");
    assert!(full.note_parse_error(ReadMode::Elements, None, "z".to_string()));
    assert_eq!(full.errors.len(), 100, "a broken array is within the cap too");
}

#[test]
fn the_root_counts_arrays_of_records() {
    let mut it = Interner::new();
    it.count_root_array();
    it.count_root_array();
    assert_eq!((it.meta[0].cnt, it.meta[0].mask, it.meta[0].is_array, it.meta[0].nonempty), (2, 32, true, 0));
}

#[test]
fn jsonl_lines_are_read_in_the_library() {
    let mut it = Interner::new();
    let mut out = FileOutcome::new();
    let rows = out.read_line(1, "\u{feff}   ", &mut it, 3).unwrap();
    assert!(rows.is_empty());
    assert_eq!((out.records, out.errors.len(), it.meta[0].cnt), (0, 0, 0), "a blank line changes nothing");
    let rows = out.read_line(2, "\u{feff} {\"b\": [1, \"x\"]} ", &mut it, 3).unwrap();
    assert_eq!(rows.len(), 2);
    assert_eq!((rows[0].rec, rows[0].vtype, rows[0].txt.clone()), (0, T_NUM, Some("1".to_string())));
    assert_eq!((out.records, out.values, it.meta[0].cnt), (1, 2, 1));
    let rows = out.read_line(3, "{\"b\": ", &mut it, 3).unwrap();
    assert!(rows.is_empty());
    assert_eq!(out.errors.len(), 1);
    assert_eq!(out.errors[0].0, Some(3), "a parse error names its line");
    assert_eq!(out.records, 1);
    let rows = out.read_line(4, "null", &mut it, 3).unwrap();
    assert_eq!((rows[0].rec, rows[0].vtype), (1, T_NULL), "the next record has the next number");
}

#[test]
fn a_record_is_found_by_the_same_skipping() {
    let lines = ["", "{\"a\": 1}", "not json", "  ", "[true]", "\"last\""];
    let mut seek = RecordSeek::new(1);
    let mut found = None;
    for l in lines {
        if let Some(v) = seek.offer_line(l) {
            found = Some(v);
            break;
        }
    }
    match found {
        Some(JsonValue::Array(xs)) => assert!(matches!(xs.as_slice(), [JsonValue::Bool(true)])),
        _ => panic!("record 1 is the array"),
    }
    let mut seek = RecordSeek::new(5);
    assert!(lines.iter().all(|l| seek.offer_line(l).is_none()));
    assert_eq!(seek.seen, 3, "three lines hold records");
}

#[test]
fn records_that_would_overflow_are_refused() {
    let mut it = Interner::new();
    let mut out = FileOutcome::new();
    assert!(out.fits(&it, &JsonValue::Null, 1));
    out.records = i64::MAX as u64;
    assert!(!out.fits(&it, &JsonValue::Null, 0));
    assert!(out.read_line(1, "1", &mut it, 1).is_none());
    assert_eq!(it.meta[0].cnt, 0, "nothing changed");
    out.records = 0;
    it.meta[0].cnt = i64::MAX;
    assert!(!it.has_room(1));
    assert!(it.has_room(0));
    assert!(out.read_line(1, "", &mut it, 1).is_some(), "a blank line still reads");
}

#[test]
fn grouped_integers_read_back() {
    for n in [0i64, 7, 999, 1000, 123456789, -42, -1000000, i64::MAX] {
        assert_eq!(fmt_int(n).replace('\u{202f}', ""), n.to_string());
    }
}

#[test]
fn masks_combine_by_union() {
    let a = M_NULL | M_OBJ;
    let b = M_OBJ | M_ARR;
    let mut both = mask_names(a);
    for n in mask_names(b) {
        if !both.contains(&n) {
            both.push(n);
        }
    }
    let expect = mask_names(a | b);
    assert_eq!(expect, vec!["null", "object", "array"]);
    assert!(both.iter().all(|n| expect.contains(n)) && expect.len() == both.len());
    for (t, name) in ["null", "bool", "number", "string", "object", "array"].iter().enumerate() {
        assert_eq!(mask_names(1 << t), vec![*name]);
        assert_eq!(vtype_name(t as i64), *name);
    }
}

#[test]
fn the_interner_only_grows() {
    let mut it = Interner::new();
    let a = it.intern("$.a", Some(ROOT_ID), "a", 1);
    it.bump(a, M_STR, true, true);
    let before: Vec<(i64, i64, i64, bool)> = it.meta.iter().map(|m| (m.cnt, m.nonempty, m.mask, m.is_array)).collect();
    it.bump(a, M_NULL, false, false);
    it.intern("$.b", Some(ROOT_ID), "b", 1);
    assert_eq!(it.meta[0].path, "$");
    for (i, (c, n, mk, arr)) in before.iter().enumerate() {
        let m = &it.meta[i];
        assert!(m.cnt >= *c && m.nonempty >= *n && (m.mask & mk) == *mk && (!arr || m.is_array));
        assert!(0 <= m.nonempty && m.nonempty <= m.cnt);
    }
    assert_eq!(it.meta[1].mask, M_STR | M_NULL);
    assert!(it.meta[1].is_array, "an array stays an array");
}
