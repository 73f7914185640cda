//! Decisions of SQL execution around the query engine: which path a statement takes,
//! how a `COPY INTO` target name resolves to catalog, schema and table, the text
//! columns built from loaded rows, and how storage failures are reported.

use vstd::prelude::*;

use crate::error::{error_text, OpenSnowError};
use crate::order::texts;
use crate::pgwire::rows::{entry_get, sorted_keys, sorted_names, Cell, Row};
use crate::sql::{
    one_statement, parquet_scan_shape, parse_one_statement, parse_select_parquet_scan, stripped,
    SelectParquetScan,
};
use crate::text::{chars_of, concat_chars, slice_chars, string_from_chars, trim, trim_chars};

verus! {

broadcast use vstd::string::group_string_axioms;

/// The path a statement takes.
pub enum SqlRoute {
    /// Read rows of a local parquet file.
    ParquetScan(SelectParquetScan),
    /// A statement of the Snowflake dialect, with the text to run (white space and
    /// trailing `;`s removed).
    Statement(sqlparser::ast::Statement, String),
}

/// Decides the path of a statement: an empty text is refused, the `parquet_scan`
/// shape reads a file, anything else must be exactly one statement.
pub fn route_sql(sql: &str) -> (r: Result<SqlRoute, OpenSnowError>)
    ensures
        trim(sql@).len() == 0 ==> (r matches Err(OpenSnowError::InvalidStatement(m)) && m@ == "empty statement"@),
        trim(sql@).len() > 0 ==> match parquet_scan_shape(trim(sql@)) {
            Ok((path, limit)) => r matches Ok(SqlRoute::ParquetScan(s)) && s.path@ == path && s.limit == limit,
            Err(_) => match one_statement(trim(sql@)) {
                Some(st) => r matches Ok(SqlRoute::Statement(x, run)) && x == st && run@ == stripped(trim(sql@)),
                None => r matches Err(OpenSnowError::InvalidStatement(_)),
            },
        },
{
    let t = trim_chars(&chars_of(sql));
    if t.len() == 0 {
        return Err(OpenSnowError::InvalidStatement("empty statement".to_string()));
    }
    let text = string_from_chars(&t);
    match parse_select_parquet_scan(text.as_str()) {
        Ok(scan) => {
            return Ok(SqlRoute::ParquetScan(scan));
        },
        Err(_) => {},
    }
    let stmt = parse_one_statement(text.as_str())?;
    let run = string_from_chars(&trim_chars(&crate::text::trim_end_char_chars(&trim_chars(&t), ';')));
    Ok(SqlRoute::Statement(stmt, run))
}

/// A failure of the storage layer as the engine reports it: storage and I/O errors
/// as they are, anything else as an execution error with its message.
pub fn storage_failure(e: OpenSnowError) -> (r: OpenSnowError)
    ensures
        (e is Storage || e is Io) ==> r == e,
        !(e is Storage || e is Io) ==> (r matches OpenSnowError::Execution(m) && m@ == error_text(e)),
{
    match e {
        OpenSnowError::Storage(_) | OpenSnowError::Io(_) => e,
        other => OpenSnowError::Execution(other.to_string()),
    }
}

/// The non-empty parts of a name split at `.`.
pub open spec fn name_parts(name: Seq<char>) -> Seq<Seq<char>>
    decreases name.len(),
{
    if name.len() == 0 {
        seq![]
    } else {
        let i = dot_index(name);
        let head = name.take(i);
        let rest = if i < name.len() {
            name.skip(i + 1)
        } else {
            seq![]
        };
        proof {
            lemma_dot_index(name);
        }
        if head.len() == 0 {
            name_parts(rest)
        } else {
            seq![head] + name_parts(rest)
        }
    }
}

/// The index of the first `.` in `name`, or its length when there is none.
pub open spec fn dot_index(name: Seq<char>) -> int
    decreases name.len(),
{
    if name.len() == 0 {
        0
    } else if name[0] == '.' {
        0
    } else {
        1 + dot_index(name.drop_first())
    }
}

pub proof fn lemma_dot_index(name: Seq<char>)
    ensures
        0 <= dot_index(name) <= name.len(),
        dot_index(name) < name.len() ==> name[dot_index(name)] == '.',
        forall|k: int| 0 <= k < dot_index(name) ==> name[k] != '.',
    decreases name.len(),
{
    if name.len() > 0 && name[0] != '.' {
        lemma_dot_index(name.drop_first());
        assert forall|k: int| 0 <= k < dot_index(name) implies name[k] != '.' by {
            if k > 0 {
                assert(name[k] == name.drop_first()[k - 1]);
            }
        }
    }
}

pub open spec fn invalid_reference_message(name: Seq<char>) -> Seq<char> {
    "invalid table reference '"@ + name + "'; expected 1-3 dot-separated parts"@
}

/// Catalog, schema and table of a `COPY INTO` target: `catalog.schema.table`,
/// `schema.table` in the default catalog, or `table` in the default catalog and
/// schema; empty parts are skipped and any other count is refused.
pub open spec fn table_reference_of(name: Seq<char>, default_catalog: Seq<char>, default_schema: Seq<char>) -> Option<
    (Seq<char>, Seq<char>, Seq<char>),
> {
    let p = name_parts(name);
    if p.len() == 3 {
        Some((p[0], p[1], p[2]))
    } else if p.len() == 2 {
        Some((default_catalog, p[0], p[1]))
    } else if p.len() == 1 {
        Some((default_catalog, default_schema, p[0]))
    } else {
        None
    }
}

/// The non-empty parts of `name[from..]` split at `.`.
fn parts_from(name: &[char], from: usize) -> (r: Vec<Vec<char>>)
    requires
        from <= name@.len(),
    ensures
        r@.map_values(|v: Vec<char>| v@) == name_parts(name@.skip(from as int)),
    decreases name@.len() - from,
{
    let n = name.len();
    if from == n {
        assert(name@.skip(from as int) =~= Seq::<char>::empty());
        let r: Vec<Vec<char>> = Vec::new();
        assert(r@.map_values(|v: Vec<char>| v@) =~= Seq::<Seq<char>>::empty());
        return r;
    }
    let ghost s = name@.skip(from as int);
    let mut j = from;
    while j < n && name[j] != '.'
        invariant
            from <= j <= n,
            n == name@.len(),
            forall|k: int| from <= k < j ==> name@[k] != '.',
        decreases n - j,
    {
        j += 1;
    }
    proof {
        lemma_dot_index(s);
        let d = dot_index(s);
        if d < j - from {
            assert(s[d] == name@[from + d]);
        }
        if j < n {
            assert(s[j - from] == '.');
        }
        assert(dot_index(s) == j - from);
    }
    let head = slice_chars(name, from, j);
    let mut rest = if j < n {
        parts_from(name, j + 1)
    } else {
        let e: Vec<Vec<char>> = Vec::new();
        e
    };
    proof {
        assert(head@ =~= s.take(j - from));
        if j < n {
            assert(name@.skip(j + 1) =~= s.skip(j - from + 1));
        } else {
            assert(rest@.map_values(|v: Vec<char>| v@) =~= Seq::<Seq<char>>::empty());
        }
    }
    proof {
        let d = j - from;
        let rs = if d < s.len() {
            s.skip(d + 1)
        } else {
            Seq::<char>::empty()
        };
        assert(rest@.map_values(|v: Vec<char>| v@) == name_parts(rs));
        if head@.len() == 0 {
            assert(name_parts(s) == name_parts(rs));
        } else {
            assert(name_parts(s) == seq![head@] + name_parts(rs));
        }
    }
    if head.len() == 0 {
        return rest;
    }
    let ghost tail = rest@;
    rest.insert(0, head);
    assert(rest@.map_values(|v: Vec<char>| v@) =~= seq![head@] + tail.map_values(|v: Vec<char>| v@));
    rest
}

/// Resolves a `COPY INTO` target name to catalog, schema and table.
pub fn table_reference(name: &str, default_catalog: &str, default_schema: &str) -> (r: Result<
    (String, String, String),
    OpenSnowError,
>)
    ensures
        match table_reference_of(name@, default_catalog@, default_schema@) {
            Some((c, s, t)) => r matches Ok((x, y, z)) && x@ == c && y@ == s && z@ == t,
            None => r matches Err(OpenSnowError::InvalidStatement(m)) && m@ == invalid_reference_message(name@),
        },
{
    let c = chars_of(name);
    let parts = parts_from(&c, 0);
    assert(c@.skip(0) =~= c@);
    let ghost pv = parts@.map_values(|v: Vec<char>| v@);
    if parts.len() == 3 {
        assert(pv[0] == parts@[0]@ && pv[1] == parts@[1]@ && pv[2] == parts@[2]@);
        Ok((string_from_chars(&parts[0]), string_from_chars(&parts[1]), string_from_chars(&parts[2])))
    } else if parts.len() == 2 {
        assert(pv[0] == parts@[0]@ && pv[1] == parts@[1]@);
        Ok((string_from_chars(&chars_of(default_catalog)), string_from_chars(&parts[0]), string_from_chars(&parts[1])))
    } else if parts.len() == 1 {
        assert(pv[0] == parts@[0]@);
        Ok((
            string_from_chars(&chars_of(default_catalog)),
            string_from_chars(&chars_of(default_schema)),
            string_from_chars(&parts[0]),
        ))
    } else {
        let m = concat_chars(
            &concat_chars(&chars_of("invalid table reference '"), &c),
            &chars_of("'; expected 1-3 dot-separated parts"),
        );
        Err(OpenSnowError::InvalidStatement(string_from_chars(&m)))
    }
}

/// The files a `COPY INTO` loads: only into a table, and only from a non-empty
/// `FILES` list.
pub fn copy_into_files(into_table: bool, files: Option<Vec<String>>) -> (r: Result<Vec<String>, OpenSnowError>)
    ensures
        !into_table ==> (r matches Err(OpenSnowError::InvalidStatement(m)) && m@
            == "COPY INTO <location> is not supported yet"@),
        into_table && files is None ==> (r matches Err(OpenSnowError::InvalidStatement(m)) && m@
            == "COPY INTO requires FILES = ('/path/to/file.parquet') for local loads"@),
        into_table ==> match files {
            Some(f) => if f@.len() == 0 {
                r matches Err(OpenSnowError::InvalidStatement(m)) && m@ == "FILES list must not be empty"@
            } else {
                r == Ok::<Vec<String>, OpenSnowError>(f)
            },
            None => true,
        },
{
    if !into_table {
        return Err(OpenSnowError::InvalidStatement("COPY INTO <location> is not supported yet".to_string()));
    }
    match files {
        None => Err(
            OpenSnowError::InvalidStatement(
                "COPY INTO requires FILES = ('/path/to/file.parquet') for local loads".to_string(),
            ),
        ),
        Some(f) => if f.len() == 0 {
            Err(OpenSnowError::InvalidStatement("FILES list must not be empty".to_string()))
        } else {
            Ok(f)
        },
    }
}

/// The refusal to load into a table that already exists.
pub fn copy_into_existing(dest: &str) -> (r: OpenSnowError)
    ensures
        r matches OpenSnowError::InvalidStatement(m) && m@ == "COPY INTO append is not implemented yet; table '"@
            + dest@ + "' already exists"@,
{
    let m = concat_chars(
        &concat_chars(&chars_of("COPY INTO append is not implemented yet; table '"), &chars_of(dest)),
        &chars_of("' already exists"),
    );
    OpenSnowError::InvalidStatement(string_from_chars(&m))
}

/// The value a loaded row gives a text column: the string stored under the column,
/// else null (missing, null, or not a string; and for a row that is not an object).
pub open spec fn copy_value(row: Row, col: Seq<char>) -> Option<Seq<char>> {
    match row {
        Row::Object(e) => match entry_get(e@, col) {
            Some(Cell::Text(s)) => Some(s@),
            _ => None,
        },
        Row::NotObject => None,
    }
}

/// The index of the first row that is an object.
pub open spec fn first_object(rows: Seq<Row>, i: int) -> bool {
    0 <= i < rows.len() && rows[i] is Object && forall|j: int| 0 <= j < i ==> !(#[trigger] rows[j] is Object)
}

pub open spec fn opt_texts(v: Seq<Option<String>>) -> Seq<Option<Seq<char>>> {
    v.map_values(|o: Option<String>| match o {
        Some(s) => Some(s@),
        None => None,
    })
}

/// The text columns built from loaded rows: the sorted keys of the first object row,
/// and for each column the value of every row.
pub fn copy_columns(rows: &[Row]) -> (r: Result<(Vec<String>, Vec<Vec<Option<String>>>), OpenSnowError>)
    ensures
        (forall|j: int| 0 <= j < rows@.len() ==> !(#[trigger] rows@[j] is Object)) ==> (r matches Err(
            OpenSnowError::InvalidStatement(m),
        ) && m@ == "COPY INTO parquet file produced no rows"@),
        r matches Ok((names, cols)) ==> {
            &&& exists|i: int| #[trigger] first_object(rows@, i) && sorted_keys(texts(names@), rows@[i]->Object_0@)
            &&& cols@.len() == names@.len()
            &&& forall|c: int|
                0 <= c < cols@.len() ==> opt_texts((#[trigger] cols@[c])@) == rows@.map_values(
                    |row: Row| copy_value(row, names@[c]@),
                )
        },
        (exists|j: int| 0 <= j < rows@.len() && #[trigger] rows@[j] is Object) ==> r is Ok,
{
    let mut i: usize = 0;
    while i < rows.len()
        invariant
            i <= rows@.len(),
            forall|j: int| 0 <= j < i ==> !(#[trigger] rows@[j] is Object),
        ensures
            i <= rows@.len(),
            forall|j: int| 0 <= j < i ==> !(#[trigger] rows@[j] is Object),
            i < rows@.len() ==> rows@[i as int] is Object,
        decreases rows.len() - i,
    {
        if let Row::Object(_) = &rows[i] {
            break;
        }
        i += 1;
    }
    if i == rows.len() {
        return Err(OpenSnowError::InvalidStatement("COPY INTO parquet file produced no rows".to_string()));
    }
    let names = match &rows[i] {
        Row::Object(e) => sorted_names(e.as_slice()),
        Row::NotObject => {
            return Err(OpenSnowError::InvalidStatement("COPY INTO parquet file produced no rows".to_string()));
        },
    };
    assert(first_object(rows@, i as int));
    let mut cols: Vec<Vec<Option<String>>> = Vec::new();
    let mut c: usize = 0;
    while c < names.len()
        invariant
            c <= names@.len(),
            cols@.len() == c,
            forall|k: int|
                0 <= k < c ==> opt_texts((#[trigger] cols@[k])@) == rows@.map_values(
                    |row: Row| copy_value(row, names@[k]@),
                ),
        decreases names.len() - c,
    {
        let col = column_values(rows, names[c].as_str());
        cols.push(col);
        c += 1;
    }
    Ok((names, cols))
}

/// The values of one text column for every row.
fn column_values(rows: &[Row], col: &str) -> (r: Vec<Option<String>>)
    ensures
        opt_texts(r@) == rows@.map_values(|row: Row| copy_value(row, col@)),
{
    let mut out: Vec<Option<String>> = Vec::new();
    let mut k: usize = 0;
    while k < rows.len()
        invariant
            k <= rows@.len(),
            opt_texts(out@) == rows@.take(k as int).map_values(|row: Row| copy_value(row, col@)),
        decreases rows.len() - k,
    {
        let v: Option<String> = match &rows[k] {
            Row::Object(e) => match crate::pgwire::rows::find_entry(e.as_slice(), col) {
                Some(x) => match &e[x].1 {
                    Cell::Text(s) => Some(s.clone()),
                    _ => None,
                },
                None => None,
            },
            Row::NotObject => None,
        };
        let ghost before = out@;
        out.push(v);
        proof {
            assert(opt_texts(out@) =~= opt_texts(before).push(copy_value(rows@[k as int], col@)));
            assert(rows@.take(k + 1).map_values(|row: Row| copy_value(row, col@)) =~= rows@.take(k as int).map_values(
                |row: Row| copy_value(row, col@),
            ).push(copy_value(rows@[k as int], col@)));
        }
        k += 1;
    }
    assert(rows@.take(rows@.len() as int) =~= rows@);
    out
}

/// `DROP DATABASE`: one name, and not the default catalog.
pub fn drop_database_target(names: &[String], default_catalog: &str) -> (r: Result<String, OpenSnowError>)
    ensures
        names@.len() != 1 ==> (r matches Err(OpenSnowError::InvalidStatement(m)) && m@
            == "DROP DATABASE expects a single name"@),
        names@.len() == 1 && names@[0]@ == default_catalog@ ==> (r matches Err(OpenSnowError::InvalidStatement(m))
            && m@ == "cannot DROP DATABASE for the default catalog"@),
        names@.len() == 1 && names@[0]@ != default_catalog@ ==> (r matches Ok(n) && n@ == names@[0]@),
{
    if names.len() != 1 {
        return Err(OpenSnowError::InvalidStatement("DROP DATABASE expects a single name".to_string()));
    }
    let n = chars_of(names[0].as_str());
    if crate::pgwire::message::chars_eq(&n, &chars_of(default_catalog)) {
        return Err(OpenSnowError::InvalidStatement("cannot DROP DATABASE for the default catalog".to_string()));
    }
    Ok(string_from_chars(&n))
}

/// The outcome of removing a database: fine when it was removed or `IF EXISTS` was
/// given, else it did not exist.
pub fn drop_database_outcome(name: &str, removed: bool, if_exists: bool) -> (r: Result<(), OpenSnowError>)
    ensures
        removed || if_exists ==> r is Ok,
        !removed && !if_exists ==> (r matches Err(OpenSnowError::InvalidStatement(m)) && m@ == "database '"@ + name@
            + "' does not exist"@),
{
    if removed || if_exists {
        return Ok(());
    }
    let m = concat_chars(&concat_chars(&chars_of("database '"), &chars_of(name)), &chars_of("' does not exist"));
    Err(OpenSnowError::InvalidStatement(string_from_chars(&m)))
}

} // verus!
