//! Tables split into ranges of a column's values.
use crate::catalog::Catalog;
use crate::error::{outcome, ErrorView, ForgeError, Result};
use crate::keywords::{
    bare_statement, begins_with_word, between, between_text, contains_word, find_word,
    find_word_from, has_word, make_plain_name, opens_with, plain_name, statement_text, strip_word,
    without_word, word_at, word_from,
};
use crate::scan::table_of;
use crate::state::{find_named, named_from};
use crate::text::{
    begins, chars_of, eq_ignore_ascii_case, find_from, find_text, int_value_in, is_white,
    join_texts, joined, list_text, lower_text, occurs_at, parse_i64, pieces, replace, replaced,
    same_name, same_text, split_char, starts_with, tail, tail_text, trim, trim_both, trim_both_text,
    trim_end, trim_end_text, trim_start, trim_start_text, trimmed, white, CharSet,
};
use vstd::prelude::*;

verus! {

/// A table split into ranges: rows whose value in the column is below a partition's bound, and
/// not below that of an earlier one, belong to that partition.
#[derive(Debug)]
pub struct PartitionMeta {
    pub column: String,
    /// Names and upper bounds, in order. The greatest bound stands for MAXVALUE.
    pub range_partitions: Vec<(String, i64)>,
    /// The column definitions of the tables that hold the partitions.
    pub columns_sql: String,
}

/// [`PartitionMeta`] as mathematical values.
pub struct MetaView {
    pub column: Seq<char>,
    pub ranges: Seq<(Seq<char>, i64)>,
    pub columns_sql: Seq<char>,
}

impl DeepView for PartitionMeta {
    type V = MetaView;

    open spec fn deep_view(&self) -> MetaView {
        MetaView {
            column: self.column@,
            ranges: self.range_partitions.deep_view(),
            columns_sql: self.columns_sql@,
        }
    }
}

// ---------------------------------------------------------------------------
// Definitions
// ---------------------------------------------------------------------------

/// The first white space of a text, from `i` on; its end, if there is none.
pub open spec fn white_from(s: Seq<char>, i: int) -> int
    decreases s.len() - i,
{
    if i < 0 || i >= s.len() {
        s.len() as int
    } else if white(s[i]) {
        i
    } else {
        white_from(s, i + 1)
    }
}

fn find_white(s: &str, i: usize) -> (r: usize)
    requires
        i <= s@.len(),
    ensures
        r == white_from(s@, i as int),
        i <= r <= s@.len() <= usize::MAX,
{
    let c = chars_of(s);
    let mut k: usize = i;
    while k < c.len()
        invariant
            c@ == s@,
            i <= k <= c.len(),
            white_from(s@, i as int) == white_from(s@, k as int),
        decreases c.len() - k,
    {
        if is_white(c[k]) {
            return k;
        }
        k += 1;
    }
    k
}

/// The bound that a text denotes: a number, or else the greatest.
pub open spec fn bound_of(s: Seq<char>) -> i64 {
    if same_name(s, "MAXVALUE"@) {
        i64::MAX
    } else {
        match int_value_in(s, i64::MIN as int, i64::MAX as int) {
            Some(n) => n as i64,
            None => i64::MAX,
        }
    }
}

fn read_bound(s: &str) -> (r: i64)
    ensures
        r == bound_of(s@),
{
    if eq_ignore_ascii_case(s, "MAXVALUE") {
        return i64::MAX;
    }
    match parse_i64(s) {
        Some(n) => n,
        None => i64::MAX,
    }
}

/// One partition of a list, and where reading goes on.
pub struct RangeRead {
    pub range: Option<(Seq<char>, i64)>,
    pub next: int,
}

/// The partition whose keyword stands at `p`: PARTITION name VALUES LESS THAN (bound).
pub open spec fn range_at(list: Seq<char>, p: int) -> RangeRead {
    let at = p + 10;
    let end = white_from(list, at);
    let name = plain_name(trimmed(between(list, at, end)));
    match word_from(list, "VALUES LESS THAN"@, end) {
        None => RangeRead { range: None, next: end },
        Some(v) => match find_from(list, "("@, v + 16) {
            Some(o) => {
                let close = match find_from(list, ")"@, o + 1) {
                    Some(c) => c,
                    None => list.len() as int,
                };
                RangeRead {
                    range: Some((name, bound_of(trimmed(between(list, o + 1, close))))),
                    next: close,
                }
            },
            None => if opens_with(trimmed(tail(list, v + 16)), "MAXVALUE"@) {
                RangeRead { range: Some((name, i64::MAX)), next: v + 16 }
            } else {
                RangeRead { range: None, next: v + 16 }
            },
        },
    }
}

/// The partitions of a list from a position on, behind `acc`.
pub open spec fn ranges_from(list: Seq<char>, pos: int, acc: Seq<(Seq<char>, i64)>) -> Seq<
    (Seq<char>, i64),
>
    decreases list.len() - pos,
    via ranges_decreases
{
    match word_from(list, "PARTITION "@, pos) {
        None => acc,
        Some(p) => {
            let r = range_at(list, p);
            ranges_from(
                list,
                r.next,
                match r.range {
                    Some(x) => acc.push(x),
                    None => acc,
                },
            )
        },
    }
}

#[via_fn]
proof fn ranges_decreases(list: Seq<char>, pos: int, acc: Seq<(Seq<char>, i64)>) {
    if let Some(p) = word_from(list, "PARTITION "@, pos) {
        lemma_word_from(list, "PARTITION "@, pos);
        reveal_strlit("PARTITION ");
        reveal_strlit("VALUES LESS THAN");
        reveal_strlit("(");
        reveal_strlit(")");
        lemma_white_from(list, p + 10);
        let end = white_from(list, p + 10);
        lemma_word_from(list, "VALUES LESS THAN"@, end);
        if let Some(v) = word_from(list, "VALUES LESS THAN"@, end) {
            lemma_find_from(list, "("@, v + 16);
            if let Some(o) = find_from(list, "("@, v + 16) {
                lemma_find_from(list, ")"@, o + 1);
            }
        }
    }
}

proof fn lemma_word_from(s: Seq<char>, w: Seq<char>, i: int)
    ensures
        word_from(s, w, i) matches Some(k) ==> 0 <= i <= k && k + w.len() <= s.len(),
    decreases s.len() + 1 - i,
{
    if !(i < 0 || i + w.len() > s.len()) && !word_at(s, w, i) {
        lemma_word_from(s, w, i + 1);
    }
}

proof fn lemma_find_from(s: Seq<char>, w: Seq<char>, i: int)
    ensures
        find_from(s, w, i) matches Some(k) ==> 0 <= i <= k && k + w.len() <= s.len(),
    decreases s.len() + 1 - i,
{
    if !(i < 0 || i + w.len() > s.len()) && !occurs_at(s, w, i) {
        lemma_find_from(s, w, i + 1);
    }
}

proof fn lemma_white_from(s: Seq<char>, i: int)
    ensures
        white_from(s, i) <= s.len(),
        0 <= i <= s.len() ==> i <= white_from(s, i),
    decreases s.len() - i,
{
    if !(i < 0 || i >= s.len()) && !white(s[i]) {
        lemma_white_from(s, i + 1);
    }
}

fn read_range(list: &str, p: usize) -> (r: (Option<(String, i64)>, usize))
    requires
        p + 10 <= list@.len() <= usize::MAX,
    ensures
        r.0.deep_view() == range_at(list@, p as int).range,
        r.1 == range_at(list@, p as int).next,
        p < r.1 <= list@.len(),
{
    proof {
        reveal_strlit("VALUES LESS THAN");
        reveal_strlit("(");
        reveal_strlit(")");
    }
    let at: usize = p + 10;
    let end: usize = find_white(list, at);
    let name = make_plain_name(trim(between_text(list, at, end).as_str()).as_str());
    match find_word_from(list, "VALUES LESS THAN", end) {
        None => (None, end),
        Some(v) => match find_text(list, "(", v + 16) {
            Some(o) => {
                let close: usize = match find_text(list, ")", o + 1) {
                    Some(c) => c,
                    None => list.unicode_len(),
                };
                let bound: i64 = read_bound(
                    trim(between_text(list, o + 1, close).as_str()).as_str(),
                );
                (Some((name, bound)), close)
            },
            None => {
                if begins_with_word(trim(tail_text(list, v + 16).as_str()).as_str(), "MAXVALUE") {
                    (Some((name, i64::MAX)), v + 16)
                } else {
                    (None, v + 16)
                }
            },
        },
    }
}

fn read_ranges(list: &str) -> (r: Vec<(String, i64)>)
    ensures
        r.deep_view() == ranges_from(list@, 0, Seq::empty()),
{
    proof {
        reveal_strlit("PARTITION ");
    }
    let mut out: Vec<(String, i64)> = Vec::new();
    assert(out.deep_view() =~= Seq::<(Seq<char>, i64)>::empty());
    let mut pos: usize = 0;
    loop
        invariant
            "PARTITION "@.len() == 10,
            pos <= list@.len(),
            ranges_from(list@, 0, Seq::empty()) == ranges_from(
                list@,
                pos as int,
                out.deep_view(),
            ),
        decreases list@.len() - pos,
    {
        match find_word_from(list, "PARTITION ", pos) {
            None => {
                return out;
            },
            Some(p) => {
                let (range, next) = read_range(list, p);
                if let Some(x) = range {
                    let ghost had = out.deep_view();
                    let ghost xv = x.deep_view();
                    out.push(x);
                    assert(out.deep_view() =~= had.push(xv));
                }
                pos = next;
            },
        }
    }
}

/// The name of a table and what its CREATE TABLE has behind it.
pub open spec fn table_head(sql: Seq<char>) -> (Seq<char>, Seq<char>) {
    let a = trimmed(without_word(statement_text(sql), "CREATE TABLE"@));
    let b = if opens_with(a, "IF NOT EXISTS"@) {
        trimmed(without_word(a, "IF NOT EXISTS"@))
    } else {
        a
    };
    let end = match find_from(b, "("@, 0) {
        Some(e) => e,
        None => b.len() as int,
    };
    (plain_name(trimmed(between(b, 0, end))), tail(b, end))
}

/// A text without one parenthesis at each end.
pub open spec fn unwrapped(s: Seq<char>) -> Seq<char> {
    let a = if begins(s, "("@) {
        trimmed(s.skip(1))
    } else {
        s
    };
    if a.len() > 0 && a.last() == ')' {
        trimmed(a.drop_last())
    } else {
        a
    }
}

/// The table that a CREATE TABLE ... PARTITION BY RANGE names, and how it is split.
pub open spec fn partition_reading(sql: Seq<char>) -> std::result::Result<
    (Seq<char>, MetaView),
    ErrorView,
> {
    let (table, rest) = table_head(sql);
    match word_from(rest, "PARTITION BY RANGE"@, 0) {
        None => Err(ErrorView::Parse("missing PARTITION BY RANGE clause"@)),
        Some(p) => {
            let columns_sql = trimmed(
                trim_end(unwrapped(trimmed(between(rest, 0, p))), CharSet::One(',')),
            );
            match find_from(rest, "("@, p + 18) {
                None => Err(ErrorView::Parse("missing partition column"@)),
                Some(open) => match find_from(rest, ")"@, open) {
                    None => Err(
                        ErrorView::Parse("missing closing paren for partition column"@),
                    ),
                    Some(close) => match find_from(rest, "("@, close + 1) {
                        None => Err(ErrorView::Parse("missing partition list"@)),
                        Some(list) => {
                            let ranges = ranges_from(tail(rest, list + 1), 0, Seq::empty());
                            if ranges.len() == 0 {
                                Err(ErrorView::Parse("no partitions defined"@))
                            } else {
                                Ok(
                                    (
                                        table,
                                        MetaView {
                                            column: plain_name(
                                                trimmed(between(rest, open + 1, close)),
                                            ),
                                            ranges,
                                            columns_sql,
                                        },
                                    ),
                                )
                            }
                        },
                    },
                },
            }
        },
    }
}

fn parse_error<T: DeepView>(text: &str) -> (r: Result<T>)
    ensures
        outcome(r) == Err::<T::V, ErrorView>(ErrorView::Parse(text@)),
{
    Err(ForgeError::Parse(text.to_owned()))
}

fn read_table_head(sql: &str) -> (r: (String, String))
    ensures
        table_head(sql@) == (r.0@, r.1@),
{
    let a = trim(strip_word(bare_statement(sql).as_str(), "CREATE TABLE").as_str());
    let b = if begins_with_word(a.as_str(), "IF NOT EXISTS") {
        trim(strip_word(a.as_str(), "IF NOT EXISTS").as_str())
    } else {
        a
    };
    let end: usize = match find_text(b.as_str(), "(", 0) {
        Some(e) => e,
        None => b.as_str().unicode_len(),
    };
    let name = make_plain_name(trim(between_text(b.as_str(), 0, end).as_str()).as_str());
    (name, tail_text(b.as_str(), end))
}

fn unwrap_text(s: &str) -> (r: String)
    ensures
        r@ == unwrapped(s@),
{
    proof {
        reveal_strlit("(");
    }
    let a = if starts_with(s, "(") {
        trim(tail_text(s, 1).as_str())
    } else {
        s.to_owned()
    };
    let c = chars_of(a.as_str());
    if c.len() > 0 && c[c.len() - 1] == ')' {
        let inner = between_text(a.as_str(), 0, c.len() - 1);
        assert(a@.subrange(0, c.len() - 1) =~= a@.drop_last());
        trim(inner.as_str())
    } else {
        a
    }
}

/// Reads CREATE TABLE ... PARTITION BY RANGE(col) (PARTITION p1 VALUES LESS THAN (100), ...).
pub fn read_partitioned_table(sql: &str) -> (r: Result<(String, PartitionMeta)>)
    ensures
        outcome(r) == partition_reading(sql@),
{
    proof {
        reveal_strlit("PARTITION BY RANGE");
        reveal_strlit("(");
        reveal_strlit(")");
    }
    let (table, rest) = read_table_head(sql);
    let p: usize = match find_word(rest.as_str(), "PARTITION BY RANGE") {
        None => {
            return parse_error("missing PARTITION BY RANGE clause");
        },
        Some(p) => p,
    };
    let inner = unwrap_text(trim(between_text(rest.as_str(), 0, p).as_str()).as_str());
    let columns_sql = trim(trim_end_text(inner.as_str(), CharSet::One(',')).as_str());
    let open: usize = match find_text(rest.as_str(), "(", p + 18) {
        None => {
            return parse_error("missing partition column");
        },
        Some(k) => k,
    };
    let close: usize = match find_text(rest.as_str(), ")", open) {
        None => {
            return parse_error("missing closing paren for partition column");
        },
        Some(k) => k,
    };
    let list: usize = match find_text(rest.as_str(), "(", close + 1) {
        None => {
            return parse_error("missing partition list");
        },
        Some(k) => k,
    };
    let range_partitions = read_ranges(tail_text(rest.as_str(), list + 1).as_str());
    assert(range_partitions.deep_view().len() == range_partitions.len());
    if range_partitions.len() == 0 {
        return parse_error("no partitions defined");
    }
    let column = make_plain_name(
        trim(between_text(rest.as_str(), open + 1, close).as_str()).as_str(),
    );
    Ok((table, PartitionMeta { column, range_partitions, columns_sql }))
}

/// The table that holds a partition.
pub open spec fn part_table(base: Seq<char>, part: Seq<char>) -> Seq<char> {
    base + "__p_"@ + part
}

/// The table that holds a partition.
pub fn make_part_table(base: &str, part: &str) -> (r: String)
    ensures
        r@ == part_table(base@, part@),
{
    let mut s = base.to_owned();
    s.append("__p_");
    s.append(part);
    s
}

/// The statement that makes the table of a partition.
pub open spec fn part_statement(base: Seq<char>, m: MetaView, i: int) -> Seq<char> {
    "CREATE TABLE IF NOT EXISTS "@ + part_table(base, m.ranges[i].0) + " ("@ + m.columns_sql
        + ")"@
}

/// The statements that make the tables of all partitions.
pub open spec fn part_statements(base: Seq<char>, m: MetaView) -> Seq<Seq<char>> {
    Seq::new(m.ranges.len(), |i: int| part_statement(base, m, i))
}

/// The statements that make the tables of all partitions.
pub fn make_part_statements(base: &str, m: &PartitionMeta) -> (r: Vec<String>)
    ensures
        r.deep_view() == part_statements(base@, m.deep_view()),
{
    let ghost mv = m.deep_view();
    let mut out: Vec<String> = Vec::new();
    let mut i: usize = 0;
    while i < m.range_partitions.len()
        invariant
            0 <= i <= m.range_partitions.len(),
            mv == m.deep_view(),
            out.len() == i,
            forall|k: int| 0 <= k < i ==> (#[trigger] out@[k])@ == part_statement(base@, mv, k),
        decreases m.range_partitions.len() - i,
    {
        assert(mv.ranges[i as int].0 == m.range_partitions@[i as int].0@);
        let mut s = "CREATE TABLE IF NOT EXISTS ".to_owned();
        s.append(make_part_table(base, m.range_partitions[i].0.as_str()).as_str());
        s.append(" (");
        s.append(m.columns_sql.as_str());
        s.append(")");
        out.push(s);
        i += 1;
    }
    assert(out.deep_view() =~= part_statements(base@, mv));
    out
}

// ---------------------------------------------------------------------------
// Queries
// ---------------------------------------------------------------------------

/// The query for the rows of one partition.
pub open spec fn part_query(base: Seq<char>, m: MetaView, i: int) -> Seq<char> {
    "SELECT * FROM "@ + part_table(base, m.ranges[i].0)
}

/// The query for the rows of all partitions, in parentheses.
pub open spec fn union_query(base: Seq<char>, m: MetaView) -> Seq<char> {
    "("@ + list_text(
        Seq::new(m.ranges.len(), |i: int| part_query(base, m, i)),
        " UNION ALL "@,
    ) + ")"@
}

fn make_union_query(base: &str, m: &PartitionMeta) -> (r: String)
    ensures
        r@ == union_query(base@, m.deep_view()),
{
    let ghost mv = m.deep_view();
    let ghost all = Seq::new(mv.ranges.len(), |i: int| part_query(base@, mv, i));
    let mut parts: Vec<String> = Vec::new();
    let mut i: usize = 0;
    while i < m.range_partitions.len()
        invariant
            0 <= i <= m.range_partitions.len(),
            mv == m.deep_view(),
            parts.len() == i,
            forall|k: int| 0 <= k < i ==> (#[trigger] parts@[k])@ == part_query(base@, mv, k),
        decreases m.range_partitions.len() - i,
    {
        assert(mv.ranges[i as int].0 == m.range_partitions@[i as int].0@);
        let mut s = "SELECT * FROM ".to_owned();
        s.append(make_part_table(base, m.range_partitions[i].0.as_str()).as_str());
        parts.push(s);
        i += 1;
    }
    assert(parts.deep_view() =~= all);
    let mut s = "(".to_owned();
    s.append(join_texts(&parts, " UNION ALL ").as_str());
    s.append(")");
    s
}

/// Whether a clause, or the end of the statement, follows a table in a FROM clause; else an
/// alias does.
pub open spec fn clause_follows(rest: Seq<char>) -> bool {
    let t = trim_start(rest, CharSet::White);
    t.len() == 0 || begins(t, "WHERE"@) || begins(t, "where"@) || begins(t, "ORDER"@) || begins(
        t,
        "order"@,
    ) || begins(t, "GROUP"@) || begins(t, "group"@) || begins(t, "LIMIT"@) || begins(t, "limit"@)
        || begins(t, "HAVING"@) || begins(t, "having"@) || begins(t, ";"@)
}

fn does_clause_follow(rest: &str) -> (r: bool)
    ensures
        r == clause_follows(rest@),
{
    let owned = trim_start_text(rest, CharSet::White);
    let t = owned.as_str();
    t.unicode_len() == 0 || starts_with(t, "WHERE") || starts_with(t, "where") || starts_with(
        t,
        "ORDER",
    ) || starts_with(t, "order") || starts_with(t, "GROUP") || starts_with(t, "group")
        || starts_with(t, "LIMIT") || starts_with(t, "limit") || starts_with(t, "HAVING")
        || starts_with(t, "having") || starts_with(t, ";")
}

/// A query with a table replaced by its partitions. Its FROM stands at a position, and the table
/// ends at another.
pub open spec fn from_rewritten(
    sql: Seq<char>,
    at: int,
    end: int,
    base: Seq<char>,
    m: MetaView,
) -> Seq<char> {
    let rest = tail(sql, end);
    let start = between(sql, 0, at + 5) + union_query(base, m);
    if clause_follows(rest) {
        start + " AS "@ + base + rest
    } else {
        start + rest
    }
}

/// Where a FROM with a table stands in a query, and where the table ends: the name is plain, or
/// in quotation marks.
pub open spec fn from_place(sql: Seq<char>, base: Seq<char>) -> Option<(int, int)> {
    match word_from(sql, "from "@ + base, 0) {
        Some(p) => Some((p, p + 5 + base.len())),
        None => match word_from(sql, "from `"@ + base + "`"@, 0) {
            Some(p) => Some((p, p + 7 + base.len())),
            None => match word_from(sql, "from \""@ + base + "\""@, 0) {
                Some(p) => Some((p, p + 7 + base.len())),
                None => None,
            },
        },
    }
}

fn find_from_place(sql: &str, base: &str) -> (r: Option<(usize, usize)>)
    ensures
        match r {
            Some(p) => from_place(sql@, base@) == Some((p.0 as int, p.1 as int)) && p.0 + 5 <= p.1
                <= sql@.len() <= usize::MAX,
            None => from_place(sql@, base@) is None,
        },
{
    proof {
        reveal_strlit("from ");
        reveal_strlit("from `");
        reveal_strlit("`");
        reveal_strlit("from \"");
        reveal_strlit("\"");
    }
    let n: usize = base.unicode_len();
    if let Some(p) = find_word(sql, joined("from ", base).as_str()) {
        return Some((p, p + 5 + n));
    }
    let mut tick = joined("from `", base);
    tick.append("`");
    if let Some(p) = find_word(sql, tick.as_str()) {
        return Some((p, p + 7 + n));
    }
    let mut quoted = joined("from \"", base);
    quoted.append("\"");
    match find_word(sql, quoted.as_str()) {
        Some(p) => Some((p, p + 7 + n)),
        None => None,
    }
}

/// A query with the first of the partitioned tables from `i` on that it reads from replaced by
/// its partitions.
pub open spec fn query_rewritten(sql: Seq<char>, parts: Seq<(Seq<char>, MetaView)>, i: int) -> Seq<
    char,
>
    decreases parts.len() - i,
{
    if i < 0 || i >= parts.len() {
        sql
    } else {
        match from_place(sql, parts[i].0) {
            Some(p) => from_rewritten(sql, p.0, p.1, parts[i].0, parts[i].1),
            None => query_rewritten(sql, parts, i + 1),
        }
    }
}

fn rewrite_query(sql: &str, parts: &Vec<(String, PartitionMeta)>) -> (r: String)
    ensures
        r@ == query_rewritten(sql@, parts.deep_view(), 0),
{
    let ghost pv = parts.deep_view();
    let mut i: usize = 0;
    while i < parts.len()
        invariant
            0 <= i <= parts.len(),
            pv == parts.deep_view(),
            query_rewritten(sql@, pv, 0) == query_rewritten(sql@, pv, i as int),
        decreases parts.len() - i,
    {
        assert(pv[i as int] == (parts@[i as int].0@, parts@[i as int].1.deep_view()));
        let base: &str = parts[i].0.as_str();
        if let Some((at, end)) = find_from_place(sql, base) {
            let rest = tail_text(sql, end);
            let mut out = between_text(sql, 0, at + 5);
            out.append(make_union_query(base, &parts[i].1).as_str());
            if does_clause_follow(rest.as_str()) {
                out.append(" AS ");
                out.append(base);
            }
            out.append(rest.as_str());
            return out;
        }
        i += 1;
    }
    sql.to_owned()
}

// ---------------------------------------------------------------------------
// Insertions
// ---------------------------------------------------------------------------

/// The columns that an INSERT lists behind the table, if it does, and what is behind them.
pub open spec fn listed_columns(after: Seq<char>) -> (Option<Seq<Seq<char>>>, Seq<char>) {
    if begins(after, "("@) && !opens_with(after, "(SELECT"@) {
        let close = match find_from(after, ")"@, 0) {
            Some(c) => c,
            None => 0,
        };
        let cols = pieces(between(after, 1, close), ',');
        (
            Some(Seq::new(cols.len(), |i: int| plain_name(trimmed(cols[i])))),
            tail(after, close + 1),
        )
    } else {
        (None, after)
    }
}

fn read_listed_columns(after: &str) -> (r: (Option<Vec<String>>, String))
    ensures
        r.0.deep_view() == listed_columns(after@).0,
        r.1@ == listed_columns(after@).1,
{
    proof {
        reveal_strlit(")");
    }
    if starts_with(after, "(") && !begins_with_word(after, "(SELECT") {
        let close: usize = match find_text(after, ")", 0) {
            Some(c) => c,
            None => 0,
        };
        let cols = split_char(between_text(after, 1, close).as_str(), ',');
        let ghost cv = cols.deep_view();
        let mut out: Vec<String> = Vec::new();
        let mut i: usize = 0;
        while i < cols.len()
            invariant
                0 <= i <= cols.len(),
                cv == cols.deep_view(),
                out.len() == i,
                forall|k: int| 0 <= k < i ==> (#[trigger] out@[k])@ == plain_name(trimmed(cv[k])),
            decreases cols.len() - i,
        {
            assert(cv[i as int] == cols@[i as int]@);
            out.push(make_plain_name(trim(cols[i].as_str()).as_str()));
            i += 1;
        }
        assert(out.deep_view() =~= Seq::new(cv.len(), |i: int| plain_name(trimmed(cv[i]))));
        (Some(out), tail_text(after, close + 1))
    } else {
        (None, after.to_owned())
    }
}

/// The first place of a name in a list, from `i` on.
pub open spec fn name_place(list: Seq<Seq<char>>, name: Seq<char>, i: int) -> Option<int>
    decreases list.len() - i,
{
    if i < 0 || i >= list.len() {
        None
    } else if list[i] == name {
        Some(i)
    } else {
        name_place(list, name, i + 1)
    }
}

fn find_name_place(list: &Vec<String>, name: &str) -> (r: Option<usize>)
    ensures
        match r {
            Some(k) => name_place(list.deep_view(), name@, 0) == Some(k as int),
            None => name_place(list.deep_view(), name@, 0) is None,
        },
{
    let ghost lv = list.deep_view();
    let mut i: usize = 0;
    while i < list.len()
        invariant
            0 <= i <= list.len(),
            lv == list.deep_view(),
            name_place(lv, name@, 0) == name_place(lv, name@, i as int),
        decreases list.len() - i,
    {
        assert(lv[i as int] == list@[i as int]@);
        if same_text(list[i].as_str(), name) {
            return Some(i);
        }
        i += 1;
    }
    None
}

/// The names of a table's columns in lowercase; none, if there is no such table.
pub open spec fn lower_columns(c: Catalog, table: Seq<char>) -> Seq<Seq<char>> {
    match table_of(c, table) {
        None => Seq::empty(),
        Some(info) => Seq::new(
            info.schema.names().len(),
            |i: int| lower_text(info.schema.names()[i]),
        ),
    }
}

fn read_lower_columns(catalog: &Catalog, table: &str) -> (r: Vec<String>)
    ensures
        r.deep_view() == lower_columns(*catalog, table@),
{
    let mut out: Vec<String> = Vec::new();
    match catalog.get_table(table) {
        None => {
            assert(out.deep_view() =~= Seq::<Seq<char>>::empty());
        },
        Some(info) => {
            let mut i: usize = 0;
            while i < info.schema.columns.len()
                invariant
                    0 <= i <= info.schema.columns.len(),
                    out.len() == i,
                    forall|k: int|
                        0 <= k < i ==> (#[trigger] out@[k])@ == lower_text(
                            info.schema.names()[k],
                        ),
                decreases info.schema.columns.len() - i,
            {
                out.push(info.schema.columns[i].name.as_str().to_lowercase());
                i += 1;
            }
            assert(out.deep_view() =~= lower_columns(*catalog, table@));
        },
    }
    out
}

/// The value at a place of the first row behind VALUES, if there is one.
pub open spec fn value_at(values: Seq<char>, idx: int) -> Option<i64> {
    match word_from(values, "VALUES"@, 0) {
        None => None,
        Some(v) => {
            let after = trimmed(tail(values, v + 6));
            match find_from(after, "("@, 0) {
                None => None,
                Some(o) => {
                    let inner = tail(after, o + 1);
                    let close = match find_from(inner, ")"@, 0) {
                        Some(c) => c,
                        None => inner.len() as int,
                    };
                    let vals = pieces(between(inner, 0, close), ',');
                    if idx < vals.len() {
                        let s = trim_both(
                            trim_both(trimmed(vals[idx]), CharSet::One('\'')),
                            CharSet::One('"'),
                        );
                        Some(
                            match int_value_in(s, i64::MIN as int, i64::MAX as int) {
                                Some(n) => n as i64,
                                None => 0,
                            },
                        )
                    } else {
                        None
                    }
                },
            }
        },
    }
}

fn read_value_at(values: &str, idx: usize) -> (r: Option<i64>)
    ensures
        r == value_at(values@, idx as int),
{
    proof {
        reveal_strlit("VALUES");
        reveal_strlit("(");
    }
    match find_word(values, "VALUES") {
        None => None,
        Some(v) => {
            let after = trim(tail_text(values, v + 6).as_str());
            match find_text(after.as_str(), "(", 0) {
                None => None,
                Some(o) => {
                    let inner = tail_text(after.as_str(), o + 1);
                    let close: usize = match find_text(inner.as_str(), ")", 0) {
                        Some(c) => c,
                        None => inner.as_str().unicode_len(),
                    };
                    let vals = split_char(between_text(inner.as_str(), 0, close).as_str(), ',');
                    let ghost vv = vals.deep_view();
                    if idx < vals.len() {
                        assert(vv[idx as int] == vals@[idx as int]@);
                        let t = trim(vals[idx].as_str());
                        let t = trim_both_text(t.as_str(), CharSet::One('\''));
                        let t = trim_both_text(t.as_str(), CharSet::One('"'));
                        match parse_i64(t.as_str()) {
                            Some(n) => Some(n),
                            None => Some(0),
                        }
                    } else {
                        None
                    }
                },
            }
        },
    }
}

/// The partition of a value: the first whose bound is above it, from `i` on; the last, if
/// there is none.
pub open spec fn range_of(ranges: Seq<(Seq<char>, i64)>, v: i64, i: int) -> int
    decreases ranges.len() - i,
{
    if i < 0 || i >= ranges.len() {
        ranges.len() - 1
    } else if v < ranges[i].1 {
        i
    } else {
        range_of(ranges, v, i + 1)
    }
}

/// A statement with the first occurrence of a table's name replaced.
pub open spec fn renamed(sql: Seq<char>, base: Seq<char>, target: Seq<char>) -> Seq<char> {
    let p = match word_from(sql, base, 0) {
        Some(p) => p,
        None => 0,
    };
    between(sql, 0, p) + target + tail(sql, p + base.len())
}

fn rename_table(sql: &str, base: &str, target: &str) -> (r: String)
    ensures
        r@ == renamed(sql@, base@, target@),
{
    let p: usize = match find_word(sql, base) {
        Some(p) => p,
        None => 0,
    };
    let mut out = between_text(sql, 0, p);
    out.append(target);
    out.append(tail_text(sql, p + base.unicode_len()).as_str());
    out
}

/// An INSERT into a partitioned table as one into the table of the partition that its first
/// row belongs to; the first partition, where that cannot be told.
pub open spec fn insert_routed(sql: Seq<char>, base: Seq<char>, m: MetaView, c: Catalog) -> Seq<char> {
    let into = match word_from(sql, "into "@ + base, 0) {
        Some(p) => p,
        None => match word_from(sql, "into `"@ + base + "`"@, 0) {
            Some(p) => p,
            None => 0,
        },
    };
    let after = trimmed(
        trim_start(
            trim_start(tail(sql, into + 5 + base.len()), CharSet::One('`')),
            CharSet::One('"'),
        ),
    );
    let (cols, values) = listed_columns(after);
    let first = part_table(base, m.ranges[0].0);
    let idx = match cols {
        Some(list) => name_place(list, m.column, 0),
        None => name_place(lower_columns(c, first), m.column, 0),
    };
    match idx {
        None => replaced(sql, base, first),
        Some(k) => match value_at(values, k) {
            Some(v) => renamed(
                sql,
                base,
                part_table(base, m.ranges[range_of(m.ranges, v, 0)].0),
            ),
            None => if word_from(sql, base, 0) is Some {
                renamed(sql, base, first)
            } else {
                sql
            },
        },
    }
}

fn route_insert_to_partition(sql: &str, base: &str, m: &PartitionMeta, catalog: &Catalog) -> (r:
    String)
    requires
        m.range_partitions.len() > 0,
    ensures
        r@ == insert_routed(sql@, base@, m.deep_view(), *catalog),
{
    let ghost mv = m.deep_view();
    proof {
        reveal_strlit("into ");
        reveal_strlit("into `");
        reveal_strlit("`");
    }
    let into: usize = match find_word(sql, joined("into ", base).as_str()) {
        Some(p) => p,
        None => {
            let mut tick = joined("into `", base);
            tick.append("`");
            match find_word(sql, tick.as_str()) {
                Some(p) => p,
                None => 0,
            }
        },
    };
    let n: usize = base.unicode_len();
    let total: usize = sql.unicode_len();
    assert(sql@.len() == total);
    let rest = if n <= usize::MAX - 5 && into <= usize::MAX - 5 - n {
        tail_text(sql, into + 5 + n)
    } else {
        let e = String::new();
        assert(e@ =~= Seq::<char>::empty());
        e
    };
    let rest = trim_start_text(rest.as_str(), CharSet::One('`'));
    let rest = trim_start_text(rest.as_str(), CharSet::One('"'));
    let after = trim(rest.as_str());
    let (cols, values) = read_listed_columns(after.as_str());
    assert(mv.ranges[0].0 == m.range_partitions@[0].0@);
    let first = make_part_table(base, m.range_partitions[0].0.as_str());
    let idx: Option<usize> = match &cols {
        Some(list) => find_name_place(list, m.column.as_str()),
        None => {
            let list = read_lower_columns(catalog, first.as_str());
            find_name_place(&list, m.column.as_str())
        },
    };
    match idx {
        None => replace(sql, base, first.as_str()),
        Some(k) => match read_value_at(values.as_str(), k) {
            Some(v) => {
                let p = find_range(&m.range_partitions, v);
                assert(mv.ranges[p as int].0 == m.range_partitions@[p as int].0@);
                let target = make_part_table(base, m.range_partitions[p].0.as_str());
                rename_table(sql, base, target.as_str())
            },
            None => if find_word(sql, base).is_some() {
                rename_table(sql, base, first.as_str())
            } else {
                sql.to_owned()
            },
        },
    }
}

fn find_range(ranges: &Vec<(String, i64)>, v: i64) -> (r: usize)
    requires
        ranges.len() > 0,
    ensures
        r < ranges.len(),
        r == range_of(ranges.deep_view(), v, 0),
{
    let ghost rv = ranges.deep_view();
    let mut i: usize = 0;
    while i < ranges.len()
        invariant
            0 <= i <= ranges.len(),
            rv == ranges.deep_view(),
            range_of(rv, v, 0) == range_of(rv, v, i as int),
        decreases ranges.len() - i,
    {
        assert(rv[i as int].1 == ranges@[i as int].1);
        if v < ranges[i].1 {
            return i;
        }
        i += 1;
    }
    ranges.len() - 1
}

/// The first parenthesis or white space of a text, from `i` on; its end, if there is none.
pub open spec fn name_end(s: Seq<char>, i: int) -> int
    decreases s.len() - i,
{
    if i < 0 || i >= s.len() {
        s.len() as int
    } else if white(s[i]) || s[i] == '(' {
        i
    } else {
        name_end(s, i + 1)
    }
}

fn find_name_end(s: &str) -> (r: usize)
    ensures
        r == name_end(s@, 0),
{
    let c = chars_of(s);
    let mut k: usize = 0;
    while k < c.len()
        invariant
            c@ == s@,
            k <= c.len(),
            name_end(s@, 0) == name_end(s@, k as int),
        decreases c.len() - k,
    {
        if is_white(c[k]) || c[k] == '(' {
            return k;
        }
        k += 1;
    }
    k
}

/// The table that an INSERT names, if it is one.
pub open spec fn insert_target(sql: Seq<char>) -> Option<Seq<char>> {
    if opens_with(sql, "INSERT "@) {
        match word_from(sql, "INTO "@, 0) {
            None => None,
            Some(p) => {
                let after = tail(sql, p + 5);
                Some(plain_name(trimmed(between(after, 0, name_end(after, 0)))))
            },
        }
    } else {
        None
    }
}

fn find_insert_target(sql: &str) -> (r: Option<String>)
    ensures
        r.deep_view() == insert_target(sql@),
{
    proof {
        reveal_strlit("INTO ");
    }
    if !begins_with_word(sql, "INSERT ") {
        return None;
    }
    match find_word(sql, "INTO ") {
        None => None,
        Some(p) => {
            let after = tail_text(sql, p + 5);
            let end = find_name_end(after.as_str());
            Some(make_plain_name(trim(between_text(after.as_str(), 0, end).as_str()).as_str()))
        },
    }
}

/// Whether every partitioned table has a partition.
pub open spec fn all_split(parts: Seq<(Seq<char>, MetaView)>) -> bool {
    forall|i: int| 0 <= i < parts.len() ==> (#[trigger] parts[i]).1.ranges.len() > 0
}

/// A statement on partitioned tables as one on the tables of their partitions.
pub open spec fn partitions_resolved(
    sql: Seq<char>,
    parts: Seq<(Seq<char>, MetaView)>,
    c: Catalog,
) -> Seq<char> {
    let target = match insert_target(sql) {
        Some(t) => named_from(parts, t, 0),
        None => None,
    };
    match target {
        Some(k) => insert_routed(sql, parts[k].0, parts[k].1, c),
        None => if opens_with(sql, "INSERT "@) && word_from(sql, "INTO "@, 0) is None {
            sql
        } else if opens_with(sql, "SELECT "@) || has_word(sql, " FROM "@) {
            query_rewritten(sql, parts, 0)
        } else {
            sql
        },
    }
}

/// Resolve INSERT/SELECT on partitioned tables to actual sub-tables.
pub fn resolve_partitioned_sql(
    sql: &str,
    parts: &Vec<(String, PartitionMeta)>,
    catalog: &Catalog,
) -> (r: String)
    requires
        all_split(parts.deep_view()),
    ensures
        r@ == partitions_resolved(sql@, parts.deep_view(), *catalog),
{
    let ghost pv = parts.deep_view();
    if begins_with_word(sql, "INSERT ") && find_word(sql, "INTO ").is_none() {
        return sql.to_owned();
    }
    if let Some(t) = find_insert_target(sql) {
        if let Some(k) = find_named(parts, t.as_str()) {
            assert(pv[k as int] == (parts@[k as int].0@, parts@[k as int].1.deep_view()));
            assert(pv[k as int].1.ranges.len() > 0);
            return route_insert_to_partition(sql, parts[k].0.as_str(), &parts[k].1, catalog);
        }
    }
    if begins_with_word(sql, "SELECT ") || contains_word(sql, " FROM ") {
        rewrite_query(sql, parts)
    } else {
        sql.to_owned()
    }
}

/// Every value belongs to a partition: the first whose bound is above it, or the last.
pub proof fn law_every_value_has_a_partition(ranges: Seq<(Seq<char>, i64)>, v: i64, i: int)
    requires
        ranges.len() > 0,
        0 <= i <= ranges.len(),
    ensures
        ({
            let p = range_of(ranges, v, i);
            &&& 0 <= p < ranges.len()
            &&& forall|k: int| i <= k < p ==> (#[trigger] ranges[k]).1 <= v
            &&& v < ranges[p].1 || p == ranges.len() - 1
        }),
    decreases ranges.len() - i,
{
    if i < ranges.len() && v >= ranges[i].1 {
        law_every_value_has_a_partition(ranges, v, i + 1);
    }
}

} // verus!
