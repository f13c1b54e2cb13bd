//! Reading back from the index: the SQL of the values page, of the records
//! list and of a record's position, and the rows they return.

use vstd::prelude::*;
use vstd::string::*;

use crate::db::{type_label, vtype_name};
use crate::model::{RecordPage, RecordRef, ValuePage, ValueQuery, ValueRow};
use crate::text::{eq_ignore_ascii_case, lower_all, str_equal, trim_end, trim_start, trim_text};

verus! {

/// A parameter bound to a `?` of a statement.
pub enum SqlArg {
    Int(i64),
    Text(String),
}

/// The mathematical content of a [`SqlArg`].
pub enum SqlArgV {
    Int(i64),
    Text(Seq<char>),
}

impl View for SqlArg {
    type V = SqlArgV;

    open spec fn view(&self) -> SqlArgV {
        match self {
            SqlArg::Int(i) => SqlArgV::Int(*i),
            SqlArg::Text(s) => SqlArgV::Text(s@),
        }
    }
}

pub open spec fn args_view(v: Seq<SqlArg>) -> Seq<SqlArgV> {
    v.map_values(|a: SqlArg| a@)
}

pub open spec fn int_args(ids: Seq<i64>) -> Seq<SqlArgV> {
    ids.map_values(|i: i64| SqlArgV::Int(i))
}

/// A statement that counts, with its parameters, and a statement that reads
/// one page, with its parameters.
pub struct QueryPlan {
    pub count_sql: String,
    pub count_args: Vec<SqlArg>,
    pub page_sql: String,
    pub page_args: Vec<SqlArg>,
}

/// `n` placeholders separated by commas.
pub open spec fn placeholders_text(n: nat) -> Seq<char>
    decreases n,
{
    if n == 0 {
        Seq::empty()
    } else if n == 1 {
        "?"@
    } else {
        placeholders_text((n - 1) as nat) + ",?"@
    }
}

pub fn placeholders(n: usize) -> (r: String)
    ensures
        r@ == placeholders_text(n as nat),
{
    let mut out = String::new();
    let mut k: usize = 0;
    proof {
        reveal_strlit("?");
        assert(out@ =~= placeholders_text(0));
    }
    while k < n
        invariant
            0 <= k <= n,
            out@ == placeholders_text(k as nat),
        decreases n - k,
    {
        if k == 0 {
            out.append("?");
        } else {
            out.append(",?");
        }
        k = k + 1;
    }
    out
}

/// The direction of a sort: descending only for `desc` in any ASCII case.
pub open spec fn direction(order: Seq<char>) -> Seq<char> {
    if lower_all(order) == "desc"@ {
        "DESC"@
    } else {
        "ASC"@
    }
}

/// The `ORDER BY` terms of a values page. Sorting by value puts numbers
/// first, in increasing order, then texts.
pub open spec fn order_text(sort: Seq<char>, order: Seq<char>) -> Seq<char> {
    let d = direction(order);
    if sort == "file"@ {
        "f.rel_path "@ + d + ", v.rec "@ + d
    } else if sort == "value"@ {
        "(v.num IS NULL) "@ + d + ", v.num "@ + d + ", v.txt "@ + d
    } else if sort == "type"@ {
        "v.vtype "@ + d + ", v.txt "@ + d
    } else if sort == "path"@ {
        "p.path "@ + d + ", v.file_id "@ + d + ", v.rec "@ + d
    } else {
        "v.file_id "@ + d + ", v.rec "@ + d
    }
}

pub fn order_clause(sort: &str, order: &str) -> (r: String)
    ensures
        r@ == order_text(sort@, order@),
{
    proof {
        reveal_strlit("desc");
        assert(lower_all("desc"@) =~= "desc"@);
    }
    let dir = if eq_ignore_ascii_case(order, "desc") {
        "DESC"
    } else {
        "ASC"
    };
    let mut out = String::new();
    if str_equal(sort, "file") {
        out.append("f.rel_path ");
        out.append(dir);
        out.append(", v.rec ");
        out.append(dir);
    } else if str_equal(sort, "value") {
        out.append("(v.num IS NULL) ");
        out.append(dir);
        out.append(", v.num ");
        out.append(dir);
        out.append(", v.txt ");
        out.append(dir);
    } else if str_equal(sort, "type") {
        out.append("v.vtype ");
        out.append(dir);
        out.append(", v.txt ");
        out.append(dir);
    } else if str_equal(sort, "path") {
        out.append("p.path ");
        out.append(dir);
        out.append(", v.file_id ");
        out.append(dir);
        out.append(", v.rec ");
        out.append(dir);
    } else {
        out.append("v.file_id ");
        out.append(dir);
        out.append(", v.rec ");
        out.append(dir);
    }
    proof {
        assert(out@ =~= order_text(sort@, order@));
    }
    out
}

/// Limits a page size to the range 1 to 5000.
pub open spec fn page_limit(limit: i64) -> i64 {
    if limit < 1 {
        1
    } else if limit > 5000 {
        5000
    } else {
        limit
    }
}

/// Negative offsets read from the start.
pub open spec fn page_offset(offset: i64) -> i64 {
    if offset < 0 {
        0
    } else {
        offset
    }
}

/// The selection of a values query, and its parameters: the paths, then
/// the file if one is chosen, then the text filter if it is not blank. The
/// filter keeps the values whose text holds it as a substring, with the
/// case of its letters (`instr` takes `%`, `_` and `\` literally).
pub open spec fn values_where(q: ValueQuery) -> (Seq<char>, Seq<SqlArgV>) {
    let w0 = "v.path_id IN ("@ + placeholders_text(q.path_ids@.len()) + ")"@;
    let a0 = int_args(q.path_ids@);
    let (w1, a1) = match q.file_id {
        Some(f) => (w0 + " AND v.file_id = ?"@, a0.push(SqlArgV::Int(f))),
        None => (w0, a0),
    };
    let filter = match q.filter {
        Some(f) => trim_end(trim_start(f@)),
        None => Seq::empty(),
    };
    if filter.len() > 0 {
        (w1 + " AND instr(v.txt, ?) > 0"@, a1.push(SqlArgV::Text(filter)))
    } else {
        (w1, a1)
    }
}

pub open spec fn values_from() -> Seq<char> {
    " FROM vals v JOIN files f ON f.id = v.file_id JOIN paths p ON p.id = v.path_id WHERE "@
}

/// The statements of a values page.
pub open spec fn values_sql(q: ValueQuery) -> (Seq<char>, Seq<SqlArgV>, Seq<char>, Seq<SqlArgV>) {
    let (w, a) = values_where(q);
    (
        "SELECT COUNT(*)"@ + values_from() + w,
        a,
        "SELECT v.file_id, f.rel_path, v.rec, p.path, v.vtype, v.txt, v.trunc"@ + values_from() + w
            + " ORDER BY "@ + order_text(q.sort@, q.order@) + " LIMIT ? OFFSET ?"@,
        a.push(SqlArgV::Int(page_limit(q.limit))).push(SqlArgV::Int(page_offset(q.offset))),
    )
}

pub open spec fn plan_view(p: QueryPlan) -> (Seq<char>, Seq<SqlArgV>, Seq<char>, Seq<SqlArgV>) {
    (p.count_sql@, args_view(p.count_args@), p.page_sql@, args_view(p.page_args@))
}

fn path_args(ids: &Vec<i64>) -> (r: Vec<SqlArg>)
    ensures
        args_view(r@) == int_args(ids@),
{
    let mut out: Vec<SqlArg> = Vec::new();
    let mut k: usize = 0;
    while k < ids.len()
        invariant
            0 <= k <= ids@.len(),
            args_view(out@) == int_args(ids@.take(k as int)),
        decreases ids@.len() - k,
    {
        let ghost before = out@;
        out.push(SqlArg::Int(ids[k]));
        proof {
            assert(args_view(out@) =~= args_view(before).push(SqlArgV::Int(ids@[k as int])));
            assert(int_args(ids@.take(k + 1)) =~= int_args(ids@.take(k as int)).push(SqlArgV::Int(ids@[k as int])));
            assert(args_view(out@) =~= int_args(ids@.take(k + 1)));
        }
        k = k + 1;
    }
    assert(ids@.take(ids@.len() as int) =~= ids@);
    out
}

fn clone_args(a: &Vec<SqlArg>) -> (r: Vec<SqlArg>)
    ensures
        args_view(r@) == args_view(a@),
{
    let mut out: Vec<SqlArg> = Vec::new();
    let mut k: usize = 0;
    while k < a.len()
        invariant
            0 <= k <= a@.len(),
            args_view(out@) == args_view(a@).take(k as int),
        decreases a@.len() - k,
    {
        let x = match &a[k] {
            SqlArg::Int(i) => SqlArg::Int(*i),
            SqlArg::Text(s) => SqlArg::Text(s.clone()),
        };
        assert(x@ == a@[k as int]@);
        let ghost before = out@;
        out.push(x);
        proof {
            assert(args_view(out@) =~= args_view(before).push(x@));
            assert(args_view(out@) =~= args_view(a@).take(k + 1));
        }
        k = k + 1;
    }
    assert(args_view(a@).take(a@.len() as int) =~= args_view(a@));
    out
}

/// A values page of a query without paths: empty, total 0.
pub fn empty_value_page(offset: i64) -> (p: ValuePage)
    ensures
        p.total == 0,
        p.offset == offset,
        p.rows@.len() == 0,
{
    ValuePage { total: 0, offset, rows: Vec::new() }
}

/// The statements of a values page, or nothing for a query without paths
/// (its page is empty).
pub fn values_plan(q: &ValueQuery) -> (r: Option<QueryPlan>)
    ensures
        r is None <==> q.path_ids@.len() == 0,
        r matches Some(p) ==> plan_view(p) == values_sql(*q),
{
    if q.path_ids.len() == 0 {
        return None;
    }
    let mut w = "v.path_id IN (".to_owned();
    let ph = placeholders(q.path_ids.len());
    w.append(ph.as_str());
    w.append(")");
    let mut args = path_args(&q.path_ids);
    if let Some(fid) = q.file_id {
        w.append(" AND v.file_id = ?");
        args.push(SqlArg::Int(fid));
    }
    let filter = match &q.filter {
        Some(f) => trim_text(f.as_str()),
        None => String::new(),
    };
    if !filter.as_str().is_empty() {
        w.append(" AND instr(v.txt, ?) > 0");
        args.push(SqlArg::Text(filter));
    }
    let ghost (ws, av) = values_where(*q);
    assert(w@ =~= ws);
    assert(args_view(args@) =~= av);
    let mut count_sql = "SELECT COUNT(*)".to_owned();
    count_sql.append(" FROM vals v JOIN files f ON f.id = v.file_id JOIN paths p ON p.id = v.path_id WHERE ");
    count_sql.append(w.as_str());
    let mut page_sql = "SELECT v.file_id, f.rel_path, v.rec, p.path, v.vtype, v.txt, v.trunc".to_owned();
    page_sql.append(" FROM vals v JOIN files f ON f.id = v.file_id JOIN paths p ON p.id = v.path_id WHERE ");
    page_sql.append(w.as_str());
    page_sql.append(" ORDER BY ");
    let oc = order_clause(q.sort.as_str(), q.order.as_str());
    page_sql.append(oc.as_str());
    page_sql.append(" LIMIT ? OFFSET ?");
    let mut page_args = clone_args(&args);
    let limit = if q.limit < 1 {
        1
    } else if q.limit > 5000 {
        5000
    } else {
        q.limit
    };
    let offset = if q.offset < 0 {
        0
    } else {
        q.offset
    };
    page_args.push(SqlArg::Int(limit));
    page_args.push(SqlArg::Int(offset));
    let plan = QueryPlan { count_sql, count_args: args, page_sql, page_args };
    proof {
        assert(args_view(plan.page_args@) =~= av.push(SqlArgV::Int(page_limit(q.limit))).push(
            SqlArgV::Int(page_offset(q.offset)),
        ));
        assert(plan.count_sql@ =~= values_sql(*q).0);
        assert(plan.page_sql@ =~= values_sql(*q).2);
    }
    Some(plan)
}

/// One row of a values page from the columns the page statement reads.
pub fn value_row(
    file_id: i64,
    file: String,
    rec: i64,
    path: String,
    vtype: i64,
    value: Option<String>,
    trunc: i64,
) -> (r: ValueRow)
    ensures
        r.file_id == file_id,
        r.file == file,
        r.rec == rec,
        r.path == path,
        r.vtype@ == type_label(vtype),
        r.value == value,
        r.truncated == (trunc != 0),
{
    ValueRow {
        file_id,
        file,
        rec,
        path,
        vtype: vtype_name(vtype).to_owned(),
        value,
        truncated: trunc != 0,
    }
}

/// The page of a values query: the total counted, the offset asked for
/// (as given), the rows read.
pub fn value_page(q: &ValueQuery, total: i64, rows: Vec<ValueRow>) -> (p: ValuePage)
    ensures
        p.total == total,
        p.offset == q.offset,
        p.rows == rows,
{
    ValuePage { total, offset: q.offset, rows }
}

/// The total of a values page does not depend on the page: queries that
/// differ only in offset, limit or sort order count with the same statement
/// and the same parameters.
pub proof fn lemma_total_ignores_page(q1: ValueQuery, q2: ValueQuery)
    requires
        q1.path_ids@ == q2.path_ids@,
        q1.file_id == q2.file_id,
        crate::scan::opt_view(q1.filter) == crate::scan::opt_view(q2.filter),
    ensures
        values_sql(q1).0 == values_sql(q2).0,
        values_sql(q1).1 == values_sql(q2).1,
{
    assert(values_where(q1) == values_where(q2));
}

/// A page holds between 1 and 5000 rows, as many as asked for within that
/// range; it never starts before the first row, and starts where asked
/// otherwise.
pub proof fn lemma_page_bounds(limit: i64, offset: i64)
    ensures
        1 <= page_limit(limit) <= 5000,
        1 <= limit <= 5000 ==> page_limit(limit) == limit,
        page_offset(offset) >= 0,
        offset >= 0 ==> page_offset(offset) == offset,
{
}

/// The selection of the records that hold one of the paths (all records
/// when no path is given).
pub open spec fn records_where(path_ids: Seq<i64>) -> (Seq<char>, Seq<SqlArgV>) {
    if path_ids.len() == 0 {
        ("1=1"@, Seq::empty())
    } else {
        ("v.path_id IN ("@ + placeholders_text(path_ids.len()) + ")"@, int_args(path_ids))
    }
}

/// The statements of a records page, in the order of file, then record.
pub open spec fn records_sql(path_ids: Seq<i64>, offset: i64, limit: i64) -> (Seq<char>, Seq<SqlArgV>, Seq<char>, Seq<SqlArgV>) {
    let (w, a) = records_where(path_ids);
    (
        "SELECT COUNT(*) FROM (SELECT DISTINCT v.file_id, v.rec FROM vals v WHERE "@ + w + ")"@,
        a,
        "SELECT DISTINCT v.file_id, f.rel_path, v.rec FROM vals v JOIN files f ON f.id = v.file_id WHERE "@
            + w + " ORDER BY v.file_id, v.rec LIMIT ? OFFSET ?"@,
        a.push(SqlArgV::Int(page_limit(limit))).push(SqlArgV::Int(page_offset(offset))),
    )
}

fn records_where_exec(path_ids: &Vec<i64>) -> (r: (String, Vec<SqlArg>))
    ensures
        (r.0@, args_view(r.1@)) == records_where(path_ids@),
{
    if path_ids.len() == 0 {
        let a: Vec<SqlArg> = Vec::new();
        proof {
            assert(args_view(a@) =~= Seq::<SqlArgV>::empty());
        }
        ("1=1".to_owned(), a)
    } else {
        let mut w = "v.path_id IN (".to_owned();
        let ph = placeholders(path_ids.len());
        w.append(ph.as_str());
        w.append(")");
        (w, path_args(path_ids))
    }
}

pub fn records_plan(path_ids: &Vec<i64>, offset: i64, limit: i64) -> (p: QueryPlan)
    ensures
        plan_view(p) == records_sql(path_ids@, offset, limit),
{
    let (w, args) = records_where_exec(path_ids);
    let mut count_sql = "SELECT COUNT(*) FROM (SELECT DISTINCT v.file_id, v.rec FROM vals v WHERE ".to_owned();
    count_sql.append(w.as_str());
    count_sql.append(")");
    let mut page_sql = "SELECT DISTINCT v.file_id, f.rel_path, v.rec FROM vals v JOIN files f ON f.id = v.file_id WHERE ".to_owned();
    page_sql.append(w.as_str());
    page_sql.append(" ORDER BY v.file_id, v.rec LIMIT ? OFFSET ?");
    let mut page_args = clone_args(&args);
    let l = if limit < 1 {
        1
    } else if limit > 5000 {
        5000
    } else {
        limit
    };
    let o = if offset < 0 {
        0
    } else {
        offset
    };
    page_args.push(SqlArg::Int(l));
    page_args.push(SqlArg::Int(o));
    let plan = QueryPlan { count_sql, count_args: args, page_sql, page_args };
    proof {
        let (ws, av) = records_where(path_ids@);
        assert(args_view(plan.page_args@) =~= av.push(SqlArgV::Int(page_limit(limit))).push(
            SqlArgV::Int(page_offset(offset)),
        ));
        assert(plan.count_sql@ =~= records_sql(path_ids@, offset, limit).0);
        assert(plan.page_sql@ =~= records_sql(path_ids@, offset, limit).2);
    }
    plan
}

pub fn record_page(total: i64, offset: i64, rows: Vec<RecordRef>) -> (p: RecordPage)
    ensures
        p.total == total,
        p.offset == offset,
        p.rows == rows,
{
    RecordPage { total, offset, rows }
}

/// The total of a records page does not depend on the page either, and the
/// position of a record is counted over the same selection as the list.
pub proof fn lemma_records_total_ignores_page(path_ids: Seq<i64>, o1: i64, l1: i64, o2: i64, l2: i64, file_id: i64, rec: i64)
    ensures
        records_sql(path_ids, o1, l1).0 == records_sql(path_ids, o2, l2).0,
        records_sql(path_ids, o1, l1).1 == records_sql(path_ids, o2, l2).1,
        record_index_sql(path_ids, file_id, rec).1.take(records_sql(path_ids, o1, l1).1.len() as int)
            == records_sql(path_ids, o1, l1).1,
{
    let a = records_where(path_ids).1;
    assert(a.push(SqlArgV::Int(file_id)).push(SqlArgV::Int(file_id)).push(SqlArgV::Int(rec)).take(a.len() as int) =~= a);
}

/// The statement that counts the records of the selection that come before
/// record `rec` of file `file_id`, in the order of the records list.
pub open spec fn record_index_sql(path_ids: Seq<i64>, file_id: i64, rec: i64) -> (Seq<char>, Seq<SqlArgV>) {
    let (w, a) = records_where(path_ids);
    (
        "SELECT COUNT(*) FROM (SELECT DISTINCT v.file_id, v.rec FROM vals v WHERE "@ + w
            + " AND (v.file_id < ? OR (v.file_id = ? AND v.rec < ?)))"@,
        a.push(SqlArgV::Int(file_id)).push(SqlArgV::Int(file_id)).push(SqlArgV::Int(rec)),
    )
}

pub fn record_index_plan(path_ids: &Vec<i64>, file_id: i64, rec: i64) -> (r: (String, Vec<SqlArg>))
    ensures
        (r.0@, args_view(r.1@)) == record_index_sql(path_ids@, file_id, rec),
{
    let (w, mut args) = records_where_exec(path_ids);
    let ghost a0 = args_view(args@);
    args.push(SqlArg::Int(file_id));
    args.push(SqlArg::Int(file_id));
    args.push(SqlArg::Int(rec));
    let mut sql = "SELECT COUNT(*) FROM (SELECT DISTINCT v.file_id, v.rec FROM vals v WHERE ".to_owned();
    sql.append(w.as_str());
    sql.append(" AND (v.file_id < ? OR (v.file_id = ? AND v.rec < ?)))");
    proof {
        assert(args_view(args@) =~= a0.push(SqlArgV::Int(file_id)).push(SqlArgV::Int(file_id)).push(
            SqlArgV::Int(rec),
        ));
    }
    (sql, args)
}

/// The unparsed files, at most 5000 of them, in the order they were found.
pub const ERRORS_SQL: &'static str = "SELECT file, line, message FROM errors ORDER BY id LIMIT 5000";

/// The files of the set, by relative path.
pub const FILES_SQL: &'static str = "SELECT id, rel_path, records FROM files ORDER BY rel_path";

/// A file row and what a record read needs of it.
pub const FILE_SQL: &'static str = "SELECT abs_path, rel_path, kind FROM files WHERE id = ?1";

/// The summary stored by the last scan.
pub const SUMMARY_SQL: &'static str = "SELECT v FROM meta WHERE k = 'summary'";

/// The folder of the last scan.
pub const ROOT_SQL: &'static str = "SELECT v FROM meta WHERE k = 'root'";

/// The rows of the paths table, by increasing id, as the tree reads them.
pub const PATHS_SQL: &'static str = "SELECT id, path, parent_id, key, is_array, cnt, nonempty, mask FROM paths ORDER BY id";

/// Counts the records of a JSON file while they are read back: the record
/// asked for is the `target`-th record read.
pub struct RecordSeek {
    pub seen: i64,
    pub target: i64,
}

impl RecordSeek {
    pub fn new(target: i64) -> (r: Self)
        ensures
            r.seen == 0,
            r.target == target,
    {
        RecordSeek { seen: 0, target }
    }

    /// One more record was read: whether it is the one asked for.
    pub fn offer(&mut self) -> (found: bool)
        requires
            old(self).seen < i64::MAX || old(self).seen == old(self).target,
        ensures
            found == (old(self).seen == old(self).target),
            final(self).target == old(self).target,
            final(self).seen == if found {
                old(self).seen as int
            } else {
                old(self).seen + 1
            },
    {
        if self.seen == self.target {
            true
        } else {
            self.seen = self.seen + 1;
            false
        }
    }
}

impl RecordSeek {
    /// One more line of a JSONL file, skipped as the scan skips it: a blank
    /// line or one that does not parse is no record. Returns the record when
    /// it is the one asked for.
    pub fn offer_line(&mut self, line: &str) -> (r: Option<crate::json::JsonValue>)
        requires
            old(self).seen < i64::MAX || old(self).seen == old(self).target,
        ensures
            final(self).target == old(self).target,
            match crate::scan::line_parsed(line@) {
                Some(Ok(v)) => {
                    &&& r == if old(self).seen == old(self).target {
                        Some(v)
                    } else {
                        None
                    }
                    &&& final(self).seen == if old(self).seen == old(self).target {
                        old(self).seen as int
                    } else {
                        old(self).seen + 1
                    }
                },
                _ => r is None && final(self).seen == old(self).seen,
            },
    {
        let t = crate::text::line_text(line);
        if t.as_str().is_empty() {
            return None;
        }
        match crate::json::parse_json(t.as_str()) {
            Ok(v) => {
                if self.offer() {
                    Some(v)
                } else {
                    None
                }
            },
            Err(_) => None,
        }
    }
}

/// The error of a record that the file does not hold.
pub fn record_not_found(rec: i64) -> (m: String)
    ensures
        m@ == "запись "@ + crate::text::signed_decimal(rec as int) + " не найдена"@,
{
    let mut m = crate::text::prefixed_number("запись ", rec);
    m.append(" не найдена");
    m
}

} // verus!
