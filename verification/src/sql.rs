//! Snowflake SQL statement handling: the `SELECT * FROM parquet_scan('<path>') LIMIT <n>`
//! shape, and single-statement validation with the Snowflake dialect of `sqlparser`.

use vstd::prelude::*;

use crate::error::{IntErrorKind, OpenSnowError};
use crate::text::{
    chars_of, find_chars, first_occurrence, lower, occurs_at, parse_digits, trim_end, trim_start, lower_chars, parse_unsigned, parse_unsigned_chars,
    slice_chars, starts_with, starts_with_chars, string_from_chars, trim, trim_chars,
    trim_end_char, trim_end_char_chars,
};

verus! {

broadcast use vstd::string::group_string_axioms;

/// A statement of `sqlparser`'s abstract syntax tree.
#[verifier::external_type_specification]
#[verifier::external_body]
pub struct ExStatement(sqlparser::ast::Statement);

/// The error of `sqlparser`'s parser.
#[verifier::external_type_specification]
#[verifier::external_body]
pub struct ExParserError(sqlparser::parser::ParserError);

/// The statements that `sqlparser` reads from a text in the Snowflake dialect, or
/// `None` when it reports a syntax error.
pub uninterp spec fn snowflake_statements(sql: Seq<char>) -> Option<Seq<sqlparser::ast::Statement>>;

/// `Parser::parse_sql` with the Snowflake dialect: a deterministic function of the text.
#[verifier::external_body]
fn parse_snowflake_sql(sql: &str) -> (r: Result<Vec<sqlparser::ast::Statement>, sqlparser::parser::ParserError>)
    ensures
        match r {
            Ok(v) => snowflake_statements(sql@) == Some(v@),
            Err(_) => snowflake_statements(sql@) is None,
        },
{
    sqlparser::parser::Parser::parse_sql(&sqlparser::dialect::SnowflakeDialect {}, sql)
}

/// The supported scan shape: `SELECT * FROM parquet_scan('<path>') LIMIT <n>`.
#[derive(Debug, Clone, PartialEq, Eq)]
pub struct SelectParquetScan {
    pub path: String,
    pub limit: usize,
}

/// Why a text is not the supported scan shape.
#[derive(Debug, Clone, Copy, PartialEq, Eq, Structural)]
pub enum ScanShapeError {
    NotSelectStar,
    MissingScanCall,
    MissingCloseParen,
    PathNotQuoted,
    EmptyPath,
    MissingLimit,
    BadLimit,
}

pub open spec fn shape_error_message(e: ScanShapeError) -> Seq<char> {
    match e {
        ScanShapeError::NotSelectStar => "only `SELECT * FROM parquet_scan('<path>') LIMIT <n>` is supported in this slice"@,
        ScanShapeError::MissingScanCall => "missing `parquet_scan(...)` call"@,
        ScanShapeError::MissingCloseParen => "missing `)` after parquet_scan"@,
        ScanShapeError::PathNotQuoted => "parquet_scan argument must be single-quoted path"@,
        ScanShapeError::EmptyPath => "parquet_scan path must not be empty"@,
        ScanShapeError::MissingLimit => "statement must end with `LIMIT <n>`"@,
        ScanShapeError::BadLimit => "limit must be a positive integer"@,
    }
}

/// A statement text with surrounding white space and trailing `;`s removed.
pub open spec fn stripped(sql: Seq<char>) -> Seq<char> {
    trim(trim_end_char(trim(sql), ';'))
}

/// Path and limit of a `SELECT * FROM parquet_scan('<path>') LIMIT <n>` statement.
/// Keywords match in any case; the path is the text between the quotes that follow
/// `parquet_scan(` up to the first `)`; the limit is a decimal `usize`.
pub open spec fn parquet_scan_shape(sql: Seq<char>) -> Result<(Seq<char>, int), ScanShapeError> {
    let s = stripped(sql);
    let low = lower(s);
    if !starts_with(low, "select * from "@) {
        Err(ScanShapeError::NotSelectStar)
    } else if !exists|i: int| first_occurrence(low, "parquet_scan("@, i) {
        Err(ScanShapeError::MissingScanCall)
    } else {
        let arg_start = (choose|i: int| first_occurrence(low, "parquet_scan("@, i)) + 13;
        let rest = s.subrange(arg_start, s.len() as int);
        if !exists|j: int| first_occurrence(rest, ")"@, j) {
            Err(ScanShapeError::MissingCloseParen)
        } else {
            let arg_end = arg_start + choose|j: int| first_occurrence(rest, ")"@, j);
            let raw = trim(s.subrange(arg_start, arg_end));
            if raw.len() < 2 || raw[0] != '\'' || raw.last() != '\'' {
                Err(ScanShapeError::PathNotQuoted)
            } else if raw.len() == 2 {
                Err(ScanShapeError::EmptyPath)
            } else {
                let path = raw.subrange(1, raw.len() - 1);
                let trailing = trim(s.subrange(arg_end + 1, s.len() as int));
                if !starts_with(lower(trailing), "limit "@) {
                    Err(ScanShapeError::MissingLimit)
                } else {
                    match parse_unsigned(
                        trim(trailing.subrange(6, trailing.len() as int)),
                        usize::MAX as int,
                    ) {
                        Ok(v) => Ok((path, v)),
                        Err(_) => Err(ScanShapeError::BadLimit),
                    }
                }
            }
        }
    }
}

fn shape_error(e: ScanShapeError) -> (r: OpenSnowError)
    ensures
        r matches OpenSnowError::InvalidStatement(m) && m@ == shape_error_message(e),
{
    let m = match e {
        ScanShapeError::NotSelectStar => "only `SELECT * FROM parquet_scan('<path>') LIMIT <n>` is supported in this slice",
        ScanShapeError::MissingScanCall => "missing `parquet_scan(...)` call",
        ScanShapeError::MissingCloseParen => "missing `)` after parquet_scan",
        ScanShapeError::PathNotQuoted => "parquet_scan argument must be single-quoted path",
        ScanShapeError::EmptyPath => "parquet_scan path must not be empty",
        ScanShapeError::MissingLimit => "statement must end with `LIMIT <n>`",
        ScanShapeError::BadLimit => "limit must be a positive integer",
    };
    OpenSnowError::InvalidStatement(m.to_string())
}

/// The statement text with white space and trailing `;`s removed.
fn strip_statement(sql: &str) -> (r: Vec<char>)
    ensures
        r@ == stripped(sql@),
{
    trim_chars(&trim_end_char_chars(&trim_chars(&chars_of(sql)), ';'))
}

/// Parses the minimal `SELECT * FROM parquet_scan('<path>') LIMIT <n>` statement.
pub fn parse_select_parquet_scan(sql: &str) -> (r: Result<SelectParquetScan, OpenSnowError>)
    ensures
        match parquet_scan_shape(sql@) {
            Ok((path, limit)) => r matches Ok(v) && v.path@ == path && v.limit == limit,
            Err(e) => r matches Err(OpenSnowError::InvalidStatement(m)) && m@ == shape_error_message(e),
        },
{
    let s = strip_statement(sql);
    let n = s.len();
    let low = lower_chars(&s);
    if !starts_with_chars(&low, &chars_of("select * from ")) {
        return Err(shape_error(ScanShapeError::NotSelectStar));
    }
    let scan_start = match find_chars(&low, &chars_of("parquet_scan(")) {
        Some(i) => i,
        None => {
            return Err(shape_error(ScanShapeError::MissingScanCall));
        },
    };
    proof {
        reveal_strlit("parquet_scan(");
        let c = choose|i: int| first_occurrence(low@, "parquet_scan("@, i);
        assert(first_occurrence(low@, "parquet_scan("@, c));
        if c < scan_start {
        } else if c > scan_start {
        }
        assert(c == scan_start);
    }
    let arg_start = scan_start + 13;
    assert(low@.len() == s@.len());
    let rest = slice_chars(&s, arg_start, s.len());
    let close = match find_chars(&rest, &chars_of(")")) {
        Some(j) => j,
        None => {
            return Err(shape_error(ScanShapeError::MissingCloseParen));
        },
    };
    proof {
        reveal_strlit(")");
        let c = choose|j: int| first_occurrence(rest@, ")"@, j);
        assert(first_occurrence(rest@, ")"@, c));
        if c < close {
        } else if c > close {
        }
        assert(c == close);
    }
    let arg_end = arg_start + close;
    let raw = trim_chars(&slice_chars(&s, arg_start, arg_end));
    if raw.len() < 2 || raw[0] != '\'' || raw[raw.len() - 1] != '\'' {
        return Err(shape_error(ScanShapeError::PathNotQuoted));
    }
    if raw.len() == 2 {
        return Err(shape_error(ScanShapeError::EmptyPath));
    }
    let path = slice_chars(&raw, 1, raw.len() - 1);
    let trailing = trim_chars(&slice_chars(&s, arg_end + 1, s.len()));
    if !starts_with_chars(&lower_chars(&trailing), &chars_of("limit ")) {
        return Err(shape_error(ScanShapeError::MissingLimit));
    }
    proof {
        reveal_strlit("limit ");
    }
    let digits = trim_chars(&slice_chars(&trailing, 6, trailing.len()));
    match parse_unsigned_chars(&digits, usize::MAX as u64) {
        Ok(v) => Ok(SelectParquetScan { path: string_from_chars(&path), limit: v as usize }),
        Err(_) => Err(shape_error(ScanShapeError::BadLimit)),
    }
}

/// Whether a text is exactly one statement in the Snowflake dialect (after stripping
/// white space and trailing `;`s), and that statement.
pub open spec fn one_statement(sql: Seq<char>) -> Option<sqlparser::ast::Statement> {
    match snowflake_statements(stripped(sql)) {
        Some(v) => if v.len() == 1 {
            Some(v[0])
        } else {
            None
        },
        None => None,
    }
}

/// Parses exactly one statement with the Snowflake dialect.
pub fn parse_one_statement(sql: &str) -> (r: Result<sqlparser::ast::Statement, OpenSnowError>)
    ensures
        match one_statement(sql@) {
            Some(st) => r == Ok::<sqlparser::ast::Statement, OpenSnowError>(st),
            None => r matches Err(OpenSnowError::InvalidStatement(_)),
        },
        snowflake_statements(stripped(sql@)) matches Some(v) && v.len() == 0 ==> (r matches Err(
            OpenSnowError::InvalidStatement(m),
        ) && m@ == "empty statement"@),
        snowflake_statements(stripped(sql@)) matches Some(v) && v.len() > 1 ==> (r matches Err(
            OpenSnowError::InvalidStatement(m),
        ) && m@ == "exactly one SQL statement is supported"@),
{
    let s = string_from_chars(&strip_statement(sql));
    let mut stmts = match parse_snowflake_sql(s.as_str()) {
        Ok(v) => v,
        Err(e) => {
            return Err(OpenSnowError::InvalidStatement(e.to_string()));
        },
    };
    if stmts.len() == 0 {
        return Err(OpenSnowError::InvalidStatement("empty statement".to_string()));
    }
    if stmts.len() > 1 {
        return Err(OpenSnowError::InvalidStatement("exactly one SQL statement is supported".to_string()));
    }
    Ok(stmts.remove(0))
}

/// A statement is accepted when, after trimming, it is non-empty and either has the
/// `parquet_scan` shape or is exactly one statement of the Snowflake dialect.
pub open spec fn statement_valid(sql: Seq<char>) -> bool {
    let t = trim(sql);
    t.len() > 0 && (parquet_scan_shape(t) is Ok || one_statement(t) is Some)
}

/// The message a refused statement gets where this library words it: an empty text, or
/// a text that `sqlparser` reads as no statement or as more than one. `None` for an
/// accepted text, and for one that `sqlparser` cannot read, whose message is its own.
pub open spec fn refusal_message(sql: Seq<char>) -> Option<Seq<char>> {
    let t = trim(sql);
    if t.len() == 0 {
        Some("empty statement"@)
    } else if statement_valid(sql) {
        None
    } else {
        match snowflake_statements(stripped(t)) {
            Some(v) => if v.len() == 0 {
                Some("empty statement"@)
            } else {
                Some("exactly one SQL statement is supported"@)
            },
            None => None,
        }
    }
}

/// Accepts the `parquet_scan` shape or any single statement of the Snowflake dialect.
pub fn validate_statement(sql: &str) -> (r: Result<(), OpenSnowError>)
    ensures
        r is Ok <==> statement_valid(sql@),
        r matches Err(e) ==> e matches OpenSnowError::InvalidStatement(_),
        refusal_message(sql@) matches Some(m0) ==> (r matches Err(OpenSnowError::InvalidStatement(m))
            && m@ == m0),
{
    let t = string_from_chars(&trim_chars(&chars_of(sql)));
    if t.as_str().is_empty() {
        return Err(OpenSnowError::InvalidStatement("empty statement".to_string()));
    }
    if parse_select_parquet_scan(t.as_str()).is_ok() {
        return Ok(());
    }
    match parse_one_statement(t.as_str()) {
        Ok(_) => Ok(()),
        Err(e) => Err(e),
    }
}

/// The scan path is the text between the quotes exactly as written, in its own letter
/// case: for any non-empty path `p` without `)`, the statement
/// `SELECT * FROM parquet_scan('<p>') LIMIT 1` scans `p` with limit 1.
pub proof fn law_scan_path_is_taken_verbatim(p: Seq<char>)
    requires
        p.len() > 0,
        forall|k: int| 0 <= k < p.len() ==> #[trigger] p[k] != ')',
    ensures
        parquet_scan_shape("SELECT * FROM parquet_scan('"@ + p + "') LIMIT 1"@) == Ok::<
            (Seq<char>, int),
            ScanShapeError,
        >((p, 1)),
{
    reveal_strlit("SELECT * FROM parquet_scan('");
    reveal_strlit("') LIMIT 1");
    reveal_strlit("select * from ");
    reveal_strlit("parquet_scan(");
    reveal_strlit(")");
    reveal_strlit("limit ");
    let pre = "SELECT * FROM parquet_scan('"@;
    let post = "') LIMIT 1"@;
    let sql = pre + p + post;
    let n = sql.len() as int;
    assert(pre.len() == 28);
    assert(post.len() == 10);
    assert(sql[0] == 'S');
    assert(sql[n - 1] == '1');
    // No white space or `;` to strip.
    assert(trim_start(sql) == sql);
    assert(trim_end(sql) == sql);
    assert(trim_end_char(sql, ';') == sql);
    assert(stripped(sql) == sql);
    let low = lower(sql);
    assert(low.subrange(0, 14) =~= "select * from "@);
    assert(starts_with(low, "select * from "@));
    let pat = "parquet_scan("@;
    assert(low.subrange(14, 27) =~= pat);
    assert(occurs_at(low, pat, 14));
    assert forall|j: int| 0 <= j < 14 implies !occurs_at(low, pat, j) by {
        if occurs_at(low, pat, j) {
            assert(low.subrange(j, j + 13)[0] == 'p');
            assert(low[j] == 'p');
        }
    }
    assert(first_occurrence(low, pat, 14));
    let c = choose|i: int| first_occurrence(low, pat, i);
    assert(first_occurrence(low, pat, c));
    if c < 14 {
    } else if c > 14 {
    }
    assert(c == 14);
    let rest = sql.subrange(27, n);
    let q = p.len() as int;
    assert(rest[q + 2] == ')');
    assert(rest.subrange(q + 2, q + 3) =~= ")"@);
    assert(occurs_at(rest, ")"@, q + 2));
    assert forall|j: int| 0 <= j < q + 2 implies !occurs_at(rest, ")"@, j) by {
        if occurs_at(rest, ")"@, j) {
            assert(rest.subrange(j, j + 1)[0] == ')');
            assert(rest[j] == ')');
            if 1 <= j <= q {
                assert(rest[j] == p[j - 1]);
            }
        }
    }
    assert(first_occurrence(rest, ")"@, q + 2));
    let c2 = choose|j: int| first_occurrence(rest, ")"@, j);
    assert(first_occurrence(rest, ")"@, c2));
    if c2 < q + 2 {
    } else if c2 > q + 2 {
    }
    assert(c2 == q + 2);
    let quoted = sql.subrange(27, 29 + q);
    assert(quoted =~= seq!['\''] + p + seq!['\'']);
    assert(trim_start(quoted) == quoted);
    assert(trim_end(quoted) == quoted);
    assert(quoted.subrange(1, quoted.len() - 1) =~= p);
    let after = sql.subrange(30 + q, n);
    assert(after =~= " LIMIT 1"@.subrange(0, 8)) by {
        reveal_strlit(" LIMIT 1");
    }
    let trailing = after.drop_first();
    assert(trim_start(after) == trim_start(trailing));
    assert(trim_start(trailing) == trailing);
    assert(trim_end(trailing) == trailing);
    assert(lower(trailing).subrange(0, 6) =~= "limit "@);
    let digits = trailing.subrange(6, 7);
    assert(digits =~= seq!['1']);
    assert(trim_start(digits) == digits);
    assert(trim_end(digits) == digits);
    assert(parse_digits(digits.drop_first(), 1, usize::MAX as int) == Ok::<int, IntErrorKind>(1));
}

} // verus!
