//! Query result rows as the wire layer sees them, and the messages that carry them:
//! `RowDescription`, `DataRow`s and the closing `CommandComplete` or `PortalSuspended`.

use vstd::prelude::*;

use crate::order::{lemma_sorted_texts_unique, sort_texts, sorted_texts, texts};
use crate::pgwire::encode::{
    be16, body_fits, checked_frame, cols_view, column_bytes, cstr, data_row_body, frame,
    push_be16, push_be32, push_bytes, push_cstr, row_description_body, select_tag,
    select_tag_text, texts_view, too_large_message, utf8, values_bytes, columns_bytes,
    frame_message, lemma_select_tag_fits,
};
use crate::pgwire::encode::portal_suspended;
use crate::pgwire::message::chars_eq;
use crate::pgwire::params::{cell_string_type_oid, FLOAT8_OID, INT4_OID, TEXT_OID};
use crate::text::chars_of;

verus! {

broadcast use vstd::string::group_string_axioms;

/// One value of a result row, as far as the wire layer distinguishes values.
#[derive(Debug, Clone)]
pub enum Cell {
    /// A string value.
    Text(String),
    /// A number representable as `i64` or `u64`.
    Integer,
    /// Any other number.
    Float,
    /// `null`, a boolean, an array or an object.
    Other,
}

/// A result row: an object of named cells, or some other value.
#[derive(Debug, Clone)]
pub enum Row {
    Object(Vec<(String, Cell)>),
    NotObject,
}

/// The type OID advertised for a cell.
pub open spec fn cell_oid(c: Cell) -> i32 {
    match c {
        Cell::Integer => INT4_OID,
        Cell::Float => FLOAT8_OID,
        _ => TEXT_OID,
    }
}

pub fn json_value_type_oid(c: &Cell) -> (r: i32)
    ensures
        r == cell_oid(*c),
{
    match c {
        Cell::Integer => INT4_OID,
        Cell::Float => FLOAT8_OID,
        Cell::Text(s) => cell_string_type_oid(s.as_str()),
        Cell::Other => TEXT_OID,
    }
}

/// The cell stored under `key` (the first entry with that name).
pub open spec fn entry_get(entries: Seq<(String, Cell)>, key: Seq<char>) -> Option<Cell>
    decreases entries.len(),
{
    if entries.len() == 0 {
        None
    } else if entries[0].0@ == key {
        Some(entries[0].1)
    } else {
        entry_get(entries.drop_first(), key)
    }
}

/// The text a cell puts on the wire: a string's text, else empty.
pub open spec fn cell_text(c: Option<Cell>) -> Seq<char> {
    match c {
        Some(Cell::Text(s)) => s@,
        _ => Seq::empty(),
    }
}

pub open spec fn keys_of(entries: Seq<(String, Cell)>) -> Seq<Seq<char>> {
    entries.map_values(|e: (String, Cell)| e.0@)
}

/// `names` is the keys of an object, sorted.
pub open spec fn sorted_keys(names: Seq<Seq<char>>, entries: Seq<(String, Cell)>) -> bool {
    sorted_texts(names) && names.to_multiset() == keys_of(entries).to_multiset()
}

/// The column shape a sample object gives: its names with the OID of each cell.
pub open spec fn shape_of(cols: Seq<(Seq<char>, i32)>, entries: Seq<(String, Cell)>) -> bool {
    &&& sorted_keys(cols.map_values(|c: (Seq<char>, i32)| c.0), entries)
    &&& forall|k: int|
        0 <= k < cols.len() ==> (#[trigger] cols[k]).1 == (match entry_get(entries, cols[k].0) {
            Some(c) => cell_oid(c),
            None => TEXT_OID,
        })
}

/// Index of the entry stored under `key` (the first entry with that name).
pub fn find_entry(entries: &[(String, Cell)], key: &str) -> (r: Option<usize>)
    ensures
        entry_get(entries@, key@) == (match r {
            Some(i) => Some(entries@[i as int].1),
            None => None,
        }),
        r matches Some(i) ==> i < entries@.len(),
{
    let kc = chars_of(key);
    let mut i: usize = 0;
    assert(entries@.subrange(0, entries@.len() as int) =~= entries@);
    while i < entries.len()
        invariant
            i <= entries@.len(),
            kc@ == key@,
            entry_get(entries@, key@) == entry_get(entries@.subrange(i as int, entries@.len() as int), key@),
        decreases entries.len() - i,
    {
        proof {
            let t = entries@.subrange(i as int, entries@.len() as int);
            assert(t.drop_first() =~= entries@.subrange(i + 1, entries@.len() as int));
            assert(t[0] == entries@[i as int]);
        }
        if chars_eq(&chars_of(entries[i].0.as_str()), &kc) {
            return Some(i);
        }
        i += 1;
    }
    None
}

proof fn lemma_texts_push(v: Seq<String>, x: String)
    ensures
        texts(v.push(x)) == texts(v).push(x@),
{
    assert(texts(v.push(x)) =~= texts(v).push(x@));
}

impl Cell {
    /// A copy of the cell.
    pub fn clone_cell(&self) -> (r: Cell)
        ensures
            r == *self || (r matches Cell::Text(t) && self matches Cell::Text(s) && t@ == s@),
            cell_oid(r) == cell_oid(*self),
            cell_text(Some(r)) == cell_text(Some(*self)),
    {
        match self {
            Cell::Text(s) => Cell::Text(s.clone()),
            Cell::Integer => Cell::Integer,
            Cell::Float => Cell::Float,
            Cell::Other => Cell::Other,
        }
    }
}

fn cell_wire_text(c: &Cell) -> (r: String)
    ensures
        r@ == cell_text(Some(*c)),
{
    match c {
        Cell::Text(s) => s.clone(),
        _ => String::new(),
    }
}

/// The sorted names of an object's entries.
pub fn sorted_names(entries: &[(String, Cell)]) -> (r: Vec<String>)
    ensures
        sorted_keys(texts(r@), entries@),
{
    let mut keys: Vec<String> = Vec::new();
    let mut i: usize = 0;
    while i < entries.len()
        invariant
            i <= entries@.len(),
            texts(keys@) == keys_of(entries@.take(i as int)),
        decreases entries.len() - i,
    {
        let ghost before = keys@;
        let k = entries[i].0.clone();
        keys.push(k);
        proof {
            lemma_texts_push(before, k);
            assert(keys_of(entries@.take(i + 1)) =~= keys_of(entries@.take(i as int)).push(entries@[i as int].0@));
        }
        i += 1;
    }
    assert(entries@.take(entries@.len() as int) =~= entries@);
    sort_texts(&keys)
}

pub open spec fn nonobject_describe_message() -> Seq<char> {
    "Describe: row must be object"@
}

pub open spec fn nonobject_row_message() -> Seq<char> {
    "query row must be a JSON object"@
}

/// Column names (sorted) and type OIDs read from the first row of a result.
pub fn result_shape(rows: &[Row]) -> (r: Result<Vec<(String, i32)>, String>)
    ensures
        rows@.len() == 0 ==> (r matches Ok(v) && v@.len() == 0),
        rows@.len() > 0 ==> match rows@[0] {
            Row::NotObject => r matches Err(m) && m@ == nonobject_describe_message(),
            Row::Object(e) => r matches Ok(v) && shape_of(cols_view(v@), e@),
        },
{
    if rows.len() == 0 {
        return Ok(Vec::new());
    }
    match &rows[0] {
        Row::NotObject => Err("Describe: row must be object".to_string()),
        Row::Object(e) => Ok(shape_from(e)),
    }
}

/// Names (sorted) and OIDs of an object's entries.
fn shape_from(e: &Vec<(String, Cell)>) -> (r: Vec<(String, i32)>)
    ensures
        shape_of(cols_view(r@), e@),
        texts(r@.map_values(|c: (String, i32)| c.0)) == cols_view(r@).map_values(|c: (Seq<char>, i32)| c.0),
{
    let names = sorted_names(e.as_slice());
    let mut cols: Vec<(String, i32)> = Vec::new();
    let mut k: usize = 0;
    while k < names.len()
        invariant
            k <= names@.len(),
            cols@.len() == k,
            forall|j: int| 0 <= j < k ==> (#[trigger] cols@[j]).0@ == names@[j]@,
            forall|j: int|
                0 <= j < k ==> (#[trigger] cols@[j]).1 == (match entry_get(e@, names@[j]@) {
                    Some(c) => cell_oid(c),
                    None => TEXT_OID,
                }),
        decreases names.len() - k,
    {
        let oid = match find_entry(e.as_slice(), names[k].as_str()) {
            Some(i) => json_value_type_oid(&e[i].1),
            None => TEXT_OID,
        };
        cols.push((names[k].clone(), oid));
        k += 1;
    }
    proof {
        let cv = cols_view(cols@);
        assert(cv.map_values(|c: (Seq<char>, i32)| c.0) =~= texts(names@));
        assert(texts(cols@.map_values(|c: (String, i32)| c.0)) =~= cv.map_values(|c: (Seq<char>, i32)| c.0));
    }
    cols
}

/// Bytes written, then the error that stopped the writing, if any.
pub struct QueryOutput {
    pub bytes: Vec<u8>,
    pub error: Option<String>,
}

/// The text values of a row for the given columns.
pub open spec fn row_values(entries: Seq<(String, Cell)>, names: Seq<Seq<char>>) -> Seq<Seq<char>> {
    names.map_values(|n: Seq<char>| cell_text(entry_get(entries, n)))
}

/// `DataRow` messages for `rows` over the columns `names`, stopping at the first row
/// that is not an object (or is too large to frame) with that error.
pub open spec fn data_rows_out(rows: Seq<Row>, names: Seq<Seq<char>>) -> (Seq<u8>, Option<Seq<char>>)
    decreases rows.len(),
{
    if rows.len() == 0 {
        (Seq::empty(), None)
    } else {
        let (before, err) = data_rows_out(rows.drop_last(), names);
        if err is Some {
            (before, err)
        } else {
            match rows.last() {
                Row::NotObject => (before, Some(nonobject_row_message())),
                Row::Object(e) => {
                    let body = data_row_body(row_values(e@, names));
                    if body_fits(body) {
                        (before + frame(0x44, body), None)
                    } else {
                        (before, Some(too_large_message()))
                    }
                },
            }
        }
    }
}

/// The closing message of a result: `PortalSuspended` or `SELECT n`.
pub open spec fn closing(n: nat, suspended: bool) -> Seq<u8> {
    if suspended {
        frame(0x73, seq![])
    } else {
        frame(0x43, cstr(select_tag(n)))
    }
}

fn write_data_rows(out: &mut Vec<u8>, rows: &[Row], names: &[String]) -> (err: Option<String>)
    ensures
        final(out)@ == old(out)@ + data_rows_out(rows@, texts(names@)).0,
        match data_rows_out(rows@, texts(names@)).1 {
            Some(m) => err matches Some(e) && e@ == m,
            None => err is None,
        },
{
    let ghost nv = texts(names@);
    let mut i: usize = 0;
    while i < rows.len()
        invariant
            i <= rows@.len(),
            nv == texts(names@),
            out@ == old(out)@ + data_rows_out(rows@.take(i as int), nv).0,
            data_rows_out(rows@.take(i as int), nv).1 is None,
        decreases rows.len() - i,
    {
        proof {
            let t = rows@.take(i + 1);
            assert(t.drop_last() =~= rows@.take(i as int));
            assert(t.last() == rows@[i as int]);
        }
        match &rows[i] {
            Row::NotObject => {
                proof {
                    lemma_data_rows_err_stays(rows@, nv, i as int);
                }
                return Some("query row must be a JSON object".to_string());
            },
            Row::Object(e) => {
                let mut values: Vec<String> = Vec::new();
                let mut k: usize = 0;
                while k < names.len()
                    invariant
                        k <= names@.len(),
                        nv == texts(names@),
                        texts(values@) == row_values(e@, nv).take(k as int),
                    decreases names.len() - k,
                {
                    let text = match find_entry(e.as_slice(), names[k].as_str()) {
                        Some(x) => cell_wire_text(&e[x].1),
                        None => String::new(),
                    };
                    let ghost before = values@;
                    values.push(text);
                    proof {
                        lemma_texts_push(before, text);
                        assert(row_values(e@, nv).take(k + 1) =~= row_values(e@, nv).take(k as int).push(
                            cell_text(entry_get(e@, nv[k as int])),
                        ));
                    }
                    k += 1;
                }
                assert(row_values(e@, nv).take(names@.len() as int) =~= row_values(e@, nv));
                assert(texts_view(values@) =~= texts(values@));
                let mut body: Vec<u8> = Vec::new();
                push_be16(&mut body, values.len() as i16);
                let mut j: usize = 0;
                while j < values.len()
                    invariant
                        j <= values@.len(),
                        body@ == be16((values@.len() as i16) as int) + values_bytes(texts(values@).take(j as int)),
                    decreases values.len() - j,
                {
                    let bytes = values[j].as_str().as_bytes();
                    push_be32(&mut body, bytes.len() as i32);
                    push_bytes(&mut body, bytes);
                    proof {
                        let t = texts(values@).take(j + 1);
                        assert(t.drop_last() =~= texts(values@).take(j as int));
                        assert(t.last() == values@[j as int]@);
                    }
                    j += 1;
                    assert(body@ =~= be16((values@.len() as i16) as int) + values_bytes(texts(values@).take(j as int)));
                }
                assert(texts(values@).take(values@.len() as int) =~= texts(values@));
                assert(body@ == data_row_body(row_values(e@, nv)));
                match checked_frame(0x44, &body) {
                    Ok(msg) => {
                        push_bytes(out, &msg);
                        assert(out@ =~= old(out)@ + data_rows_out(rows@.take(i + 1), nv).0);
                    },
                    Err(m) => {
                        proof {
                            lemma_data_rows_err_stays(rows@, nv, i as int);
                        }
                        return Some(m);
                    },
                }
            },
        }
        i += 1;
    }
    assert(rows@.take(rows@.len() as int) =~= rows@);
    None
}

/// Once a prefix of the rows ends in an error, the whole result ends in that error.
proof fn lemma_data_rows_err_stays(rows: Seq<Row>, names: Seq<Seq<char>>, i: int)
    requires
        0 <= i < rows.len(),
        data_rows_out(rows.take(i + 1), names).1 is Some,
    ensures
        data_rows_out(rows, names) == data_rows_out(rows.take(i + 1), names),
    decreases rows.len() - i,
{
    if i + 1 == rows.len() {
        assert(rows.take(i + 1) =~= rows);
    } else {
        assert(rows.drop_last().take(i + 1) =~= rows.take(i + 1));
        lemma_data_rows_err_stays(rows.drop_last(), names, i);
    }
}

/// Appends a framed message, or reports the framing error.
fn push_frame(out: &mut Vec<u8>, tag: u8, body: &[u8]) -> (r: Result<(), String>)
    ensures
        body_fits(body@) ==> (r is Ok && final(out)@ == old(out)@ + frame(tag, body@)),
        !body_fits(body@) ==> (r matches Err(m) && m@ == too_large_message() && final(out)@ == old(out)@),
{
    match checked_frame(tag, body) {
        Ok(m) => {
            push_bytes(out, &m);
            Ok(())
        },
        Err(m) => Err(m),
    }
}

/// The `RowDescription` body of a column shape.
fn row_description_bytes(cols: &[(String, i32)]) -> (r: Vec<u8>)
    ensures
        r@ == row_description_body(cols_view(cols@)),
{
    let ghost cv = cols_view(cols@);
    let mut body: Vec<u8> = Vec::new();
    push_be16(&mut body, cols.len() as i16);
    let mut i: usize = 0;
    while i < cols.len()
        invariant
            i <= cols@.len(),
            cv == cols_view(cols@),
            body@ == be16((cols@.len() as i16) as int) + columns_bytes(cv.take(i as int)),
        decreases cols.len() - i,
    {
        push_cstr(&mut body, cols[i].0.as_str());
        push_be32(&mut body, 0);
        push_be16(&mut body, 0);
        push_be32(&mut body, cols[i].1);
        push_be16(&mut body, -1);
        push_be32(&mut body, -1);
        push_be16(&mut body, 0);
        proof {
            let t = cv.take(i + 1);
            assert(t.drop_last() =~= cv.take(i as int));
            assert(t.last() == (cols@[i as int].0@, cols@[i as int].1));
        }
        i += 1;
        assert(body@ =~= be16((cols@.len() as i16) as int) + columns_bytes(cv.take(i as int)));
    }
    assert(cv.take(cols@.len() as int) =~= cv);
    body
}

/// A `RowDescription` message for a column shape, or the framing error.
pub fn row_description_message(cols: &[(String, i32)]) -> (r: Result<Vec<u8>, String>)
    ensures
        body_fits(row_description_body(cols_view(cols@))) ==> (r matches Ok(b) && b@ == frame(
            0x54,
            row_description_body(cols_view(cols@)),
        )),
        !body_fits(row_description_body(cols_view(cols@))) ==> (r matches Err(m) && m@
            == too_large_message()),
{
    let body = row_description_bytes(cols);
    checked_frame(0x54, &body)
}

/// The messages of a whole query result when no `RowDescription` was sent before.
pub open spec fn query_result_out(rows: Seq<Row>, cols: Seq<(Seq<char>, i32)>) -> (Seq<u8>, Option<Seq<char>>) {
    let names = cols.map_values(|c: (Seq<char>, i32)| c.0);
    let rd = row_description_body(cols);
    if !body_fits(rd) {
        (Seq::empty(), Some(too_large_message()))
    } else {
        let (data, err) = data_rows_out(rows, names);
        let head = frame(0x54, rd) + data;
        if err is Some {
            (head, err)
        } else {
            (head + closing(rows.len(), false), None)
        }
    }
}

/// `write_query_result`: a `RowDescription` from the first row (sorted names, OIDs of
/// that row's cells), a `DataRow` per row, then `SELECT n`. An empty result describes
/// no columns and reports `SELECT 0`; a first row that is not an object writes nothing.
pub fn write_query_result(rows: &[Row]) -> (r: QueryOutput)
    ensures
        rows@.len() == 0 ==> (r.bytes@ == frame(0x54, row_description_body(seq![])) + closing(0, false)
            && r.error is None),
        rows@.len() > 0 ==> match rows@[0] {
            Row::NotObject => r.bytes@.len() == 0 && (r.error matches Some(m) && m@ == nonobject_row_message()),
            Row::Object(e) => exists|cols: Seq<(Seq<char>, i32)>|
                #[trigger] shape_of(cols, e@) && r.bytes@ == query_result_out(rows@, cols).0 && (match query_result_out(rows@, cols).1 {
                    Some(m) => r.error matches Some(x) && x@ == m,
                    None => r.error is None,
                }),
        },
{
    let mut out: Vec<u8> = Vec::new();
    if rows.len() == 0 {
        let empty: Vec<(String, i32)> = Vec::new();
        let rd = row_description_bytes(&empty);
        assert(cols_view(empty@) =~= Seq::<(Seq<char>, i32)>::empty());
        push_bytes(&mut out, &frame_message(0x54, &rd));
        let tag = select_tag_text(0);
        let mut body: Vec<u8> = Vec::new();
        push_cstr(&mut body, tag.as_str());
        proof {
            lemma_select_tag_fits(0);
        }
        push_bytes(&mut out, &frame_message(0x43, &body));
        return QueryOutput { bytes: out, error: None };
    }
    let e = match &rows[0] {
        Row::NotObject => {
            return QueryOutput { bytes: out, error: Some("query row must be a JSON object".to_string()) };
        },
        Row::Object(e) => e,
    };
    let cols = shape_from(e);
    let ghost cv = cols_view(cols@);
    let mut names: Vec<String> = Vec::new();
    let mut k: usize = 0;
    while k < cols.len()
        invariant
            k <= cols@.len(),
            texts(names@) == cv.map_values(|c: (Seq<char>, i32)| c.0).take(k as int),
            cv == cols_view(cols@),
        decreases cols.len() - k,
    {
        let ghost before = names@;
        let nm = cols[k].0.clone();
        names.push(nm);
        proof {
            lemma_texts_push(before, nm);
            assert(cv.map_values(|c: (Seq<char>, i32)| c.0).take(k + 1) =~= cv.map_values(
                |c: (Seq<char>, i32)| c.0,
            ).take(k as int).push(cols@[k as int].0@));
        }
        k += 1;
    }
    assert(cv.map_values(|c: (Seq<char>, i32)| c.0).take(cols@.len() as int) =~= cv.map_values(|c: (Seq<char>, i32)| c.0));
    let rd = row_description_bytes(&cols);
    if let Err(m) = push_frame(&mut out, 0x54, &rd) {
        return QueryOutput { bytes: out, error: Some(m) };
    }
    let err = write_data_rows(&mut out, rows, &names);
    if err.is_some() {
        return QueryOutput { bytes: out, error: err };
    }
    let tag = select_tag_text(rows.len());
    let mut body: Vec<u8> = Vec::new();
    push_cstr(&mut body, tag.as_str());
    proof {
        lemma_select_tag_fits(rows@.len());
    }
    push_bytes(&mut out, &frame_message(0x43, &body));
    QueryOutput { bytes: out, error: None }
}

} // verus!

verus! {

/// Data rows over `names`, then the closing message, stopping at the first error.
pub open spec fn rows_then_close(rows: Seq<Row>, names: Seq<Seq<char>>, suspended: bool) -> (Seq<u8>, Option<Seq<char>>) {
    let (data, err) = data_rows_out(rows, names);
    if err is Some {
        (data, err)
    } else {
        (data + closing(rows.len(), suspended), None)
    }
}

/// What is sent after the client already has a `RowDescription` (or `NoData`) for
/// the statement: no rows and not suspended is `SELECT 0`; otherwise the rows over
/// the described columns (or, with none described, the first row's sorted names),
/// then `PortalSuspended` or `SELECT n`.
pub open spec fn skip_description_out(
    rows: Seq<Row>,
    cols: Seq<Seq<char>>,
    suspended: bool,
    out: (Seq<u8>, Option<Seq<char>>),
) -> bool {
    if rows.len() == 0 && !suspended {
        out == (frame(0x43, cstr(select_tag(0))), None::<Seq<char>>)
    } else if cols.len() > 0 || rows.len() == 0 {
        out == rows_then_close(rows, cols, suspended)
    } else {
        match rows[0] {
            Row::NotObject => out == (Seq::<u8>::empty(), Some(nonobject_row_message())),
            Row::Object(e) => exists|names: Seq<Seq<char>>|
                #[trigger] sorted_keys(names, e@) && out == rows_then_close(rows, names, suspended),
        }
    }
}

/// A sample row determines its column shape.
pub proof fn lemma_shape_unique(a: Seq<(Seq<char>, i32)>, b: Seq<(Seq<char>, i32)>, entries: Seq<(String, Cell)>)
    requires
        shape_of(a, entries),
        shape_of(b, entries),
    ensures
        a == b,
{
    let na = a.map_values(|c: (Seq<char>, i32)| c.0);
    let nb = b.map_values(|c: (Seq<char>, i32)| c.0);
    lemma_sorted_texts_unique(na, nb);
    assert(a.len() == b.len()) by {
        assert(na.len() == a.len() && nb.len() == b.len());
    }
    assert forall|k: int| 0 <= k < a.len() implies a[k] == b[k] by {
        assert(na[k] == a[k].0 && nb[k] == b[k].0);
    }
    assert(a =~= b);
}

pub open spec fn output_view(o: QueryOutput) -> (Seq<u8>, Option<Seq<char>>) {
    (o.bytes@, match o.error {
        Some(e) => Some(e@),
        None => None,
    })
}

fn close_result(out: &mut Vec<u8>, n: usize, suspended: bool)
    ensures
        final(out)@ == old(out)@ + closing(n as nat, suspended),
{
    if suspended {
        push_bytes(out, &crate::pgwire::encode::portal_suspended());
    } else {
        let tag = select_tag_text(n);
        let mut body: Vec<u8> = Vec::new();
        push_cstr(&mut body, tag.as_str());
        proof {
            lemma_select_tag_fits(n as nat);
        }
        push_bytes(out, &frame_message(0x43, &body));
    }
}

fn rows_then_close_exec(rows: &[Row], names: &[String], suspended: bool) -> (r: QueryOutput)
    ensures
        output_view(r) == rows_then_close(rows@, texts(names@), suspended),
{
    let mut out: Vec<u8> = Vec::new();
    let err = write_data_rows(&mut out, rows, names);
    if err.is_some() {
        assert(out@ =~= data_rows_out(rows@, texts(names@)).0);
        return QueryOutput { bytes: out, error: err };
    }
    close_result(&mut out, rows.len(), suspended);
    assert(out@ =~= data_rows_out(rows@, texts(names@)).0 + closing(rows@.len(), suspended));
    QueryOutput { bytes: out, error: None }
}

/// `write_query_result_skip_row_description`.
pub fn write_query_result_skip_row_description(rows: &[Row], cols: &[String], suspended: bool) -> (r: QueryOutput)
    ensures
        skip_description_out(rows@, texts(cols@), suspended, output_view(r)),
{
    if rows.len() == 0 && !suspended {
        let mut out: Vec<u8> = Vec::new();
        close_result(&mut out, 0, false);
        assert(out@ =~= frame(0x43, cstr(select_tag(0))));
        return QueryOutput { bytes: out, error: None };
    }
    if cols.len() > 0 || rows.len() == 0 {
        return rows_then_close_exec(rows, cols, suspended);
    }
    match &rows[0] {
        Row::NotObject => QueryOutput {
            bytes: Vec::new(),
            error: Some("query row must be a JSON object".to_string()),
        },
        Row::Object(e) => {
            let names = sorted_names(e.as_slice());
            rows_then_close_exec(rows, &names, suspended)
        },
    }
}

} // verus!
