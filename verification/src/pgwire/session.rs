//! Extended query protocol state of one PostgreSQL connection: prepared statements,
//! bound portals, what `Describe` told the client about each statement, and rows left
//! over after a portal was suspended. Each handler decides the reply to one frontend
//! message; running SQL is left to the caller, which hands the rows back.

use vstd::prelude::*;

use crate::pgwire::encode::{
    body_fits, cols_view, command_complete, frame, no_data, parameter_description,
    parameter_description_body, parse_complete, close_complete, push_bytes, row_description,
    row_description_body, cstr,
};
use crate::pgwire::message::{be_i16, be_i32, cstring_at, i16_at, i32_at, MsgBuf};
use crate::pgwire::params::{decode_param, decoded_param, format_code_for, param_format_code};
use crate::pgwire::placeholders::{
    max_index, param_view, params_view, substitute_params, substituted,
    count_mismatch_message,
};
use crate::pgwire::encode::bind_complete;
use crate::pgwire::names::NameMap;
use crate::pgwire::params::{
    is_session_sql, resolved_oid, resolved_statement_param_oids, session_sql, PreparedStatement,
    TEXT_OID,
};
use crate::pgwire::placeholders::{
    max_index_i16, max_param_index, placeholder_select_aliases, placeholders, placeholders_fit,
    scan_placeholders, select_aliases, strings_view,
};
use crate::pgwire::rows::{
    output_view, result_shape, shape_of, skip_description_out, write_query_result,
    write_query_result_skip_row_description, QueryOutput, Row, nonobject_row_message,
    query_result_out, closing, data_rows_out, lemma_shape_unique, rows_then_close, sorted_keys,
};
use crate::pgwire::params::{command_tag_for_session_sql, session_tag};
use crate::order::{lemma_sorted_texts_unique, texts};
use crate::text::{
    char_of_byte, chars_of, concat_chars, starts_with, starts_with_chars, string_from_chars, trim,
    trim_chars, upper, upper_chars, lower, lemma_case_text, lemma_trim_lower, lemma_trim_upper,
};

verus! {

broadcast use vstd::string::group_string_axioms;

/// A portal: the statement text with its parameters bound, and the statement it came from.
#[derive(Debug, Clone)]
pub struct Portal {
    pub sql: String,
    pub statement_name: String,
}

/// What the last statement `Describe` told the client.
#[derive(Debug, Clone)]
pub enum StmtDescribeState {
    /// `NoData`.
    NoData,
    /// A `RowDescription` with these column names and type OIDs.
    RowDesc(Vec<(String, i32)>),
}

pub open spec fn describe_view(d: StmtDescribeState) -> Option<Seq<(Seq<char>, i32)>> {
    match d {
        StmtDescribeState::NoData => None,
        StmtDescribeState::RowDesc(v) => Some(cols_view(v@)),
    }
}

pub open spec fn statement_view(p: PreparedStatement) -> (Seq<char>, Seq<i32>) {
    (p.query@, p.param_type_oids@)
}

pub open spec fn portal_view(p: Portal) -> (Seq<char>, Seq<char>) {
    (p.sql@, p.statement_name@)
}

/// The protocol state of one connection.
pub struct PgSession {
    statements: NameMap<PreparedStatement>,
    portals: NameMap<Portal>,
    statement_describe: NameMap<StmtDescribeState>,
    portal_cursors: NameMap<Vec<Row>>,
}

/// The reply to a `Describe` message.
pub enum DescribeStep {
    /// Send these bytes.
    Reply(Vec<u8>),
    /// The message fails with this error.
    Fail(String),
    /// Send `sent`, run `sql` for a sample of its result, then call
    /// `finish_statement_describe` with the rows.
    NeedStatementShape { sent: Vec<u8>, name: String, sql: String },
    /// Run `sql` for a sample of its result, then call `finish_portal_describe`.
    NeedPortalShape { sql: String },
    /// The statement's placeholder numbers do not fit the protocol's `i16` parameter
    /// count or a `usize`: the connection is dropped.
    Abort,
}

/// The reply to a `Bind` message.
pub enum BindStep {
    /// Send these bytes.
    Reply(Vec<u8>),
    /// The message fails with this error.
    Fail(String),
    /// The statement's placeholder numbers do not fit a `usize`: the connection is
    /// dropped.
    Abort,
}

/// The reply to an `Execute` message.
pub enum ExecuteStep {
    /// Send these bytes.
    Reply(Vec<u8>),
    /// The message fails with this error.
    Fail(String),
    /// Send the bytes; an error ends the message after them.
    Output(QueryOutput),
    /// Run `sql`, then call `finish_execute` with the portal, statement and row limit.
    NeedRows { portal: String, statement: String, max_rows: i32, sql: String },
}

pub open spec fn unknown_statement_message(name: Seq<char>) -> Seq<char> {
    "unknown prepared statement `"@ + name + "`"@
}

pub open spec fn unknown_portal_message(name: Seq<char>) -> Seq<char> {
    "unknown portal `"@ + name + "`"@
}

/// A statement is described without running it unless it is a `SELECT`.
pub open spec fn described_without_rows(sql: Seq<char>) -> bool {
    session_sql(sql) || !starts_with(upper(trim(sql)), "SELECT"@)
}

/// Whether a statement is described without running it does not depend on letter
/// case: a `SELECT` written in any case is described from its result shape, and a
/// session statement in any case is not run.
pub proof fn law_describe_ignores_letter_case(sql: Seq<char>)
    ensures
        described_without_rows(upper(sql)) == described_without_rows(sql),
        described_without_rows(lower(sql)) == described_without_rows(sql),
{
    lemma_trim_upper(sql);
    lemma_trim_lower(sql);
    lemma_case_text(trim(sql));
}

/// The `ParameterDescription` sent for a prepared statement with `n` parameters.
pub open spec fn param_description(oids: Seq<i32>, n: int) -> Seq<u8> {
    frame(0x74, parameter_description_body(Seq::new(n as nat, |i: int| resolved_oid(oids, i))))
}

/// Columns for placeholder aliases: each a `text` column.
pub open spec fn alias_columns(names: Seq<Seq<char>>) -> Seq<(Seq<char>, i32)> {
    names.map_values(|n: Seq<char>| (n, TEXT_OID))
}

fn message_with_name(prefix: &str, name: &str, suffix: &str) -> (r: String)
    ensures
        r@ == prefix@ + name@ + suffix@,
{
    string_from_chars(&concat_chars(&concat_chars(&chars_of(prefix), &chars_of(name)), &chars_of(suffix)))
}

fn invalid_kind_message(what: &str, kind: u8) -> (r: String)
    ensures
        r@ == what@ + seq![(kind as u32) as char],
{
    let mut c: Vec<char> = Vec::new();
    c.push(char_of_byte(kind));
    string_from_chars(&concat_chars(&chars_of(what), &c))
}

impl PgSession {
    pub closed spec fn wf(&self) -> bool {
        &&& self.statements.wf()
        &&& self.portals.wf()
        &&& self.statement_describe.wf()
        &&& self.portal_cursors.wf()
    }

    /// Prepared statements by name: query text and parameter type OIDs.
    pub closed spec fn statements(&self) -> Map<Seq<char>, (Seq<char>, Seq<i32>)> {
        self.statements@.map_values(|p: PreparedStatement| statement_view(p))
    }

    /// Portals by name: bound SQL and statement name.
    pub closed spec fn portals(&self) -> Map<Seq<char>, (Seq<char>, Seq<char>)> {
        self.portals@.map_values(|p: Portal| portal_view(p))
    }

    /// What `Describe` told the client, by statement name (`None` for `NoData`).
    pub closed spec fn describes(&self) -> Map<Seq<char>, Option<Seq<(Seq<char>, i32)>>> {
        self.statement_describe@.map_values(|d: StmtDescribeState| describe_view(d))
    }

    /// Rows still to be sent, by portal name.
    pub closed spec fn cursors(&self) -> Map<Seq<char>, Seq<Row>> {
        self.portal_cursors@.map_values(|v: Vec<Row>| v@)
    }

    pub fn new() -> (r: Self)
        ensures
            r.wf(),
            r.statements() == Map::<Seq<char>, (Seq<char>, Seq<i32>)>::empty(),
            r.portals() == Map::<Seq<char>, (Seq<char>, Seq<char>)>::empty(),
            r.describes() == Map::<Seq<char>, Option<Seq<(Seq<char>, i32)>>>::empty(),
            r.cursors() == Map::<Seq<char>, Seq<Row>>::empty(),
    {
        let r = PgSession {
            statements: NameMap::new(),
            portals: NameMap::new(),
            statement_describe: NameMap::new(),
            portal_cursors: NameMap::new(),
        };
        assert(r.statements() =~= Map::<Seq<char>, (Seq<char>, Seq<i32>)>::empty());
        assert(r.portals() =~= Map::<Seq<char>, (Seq<char>, Seq<char>)>::empty());
        assert(r.describes() =~= Map::<Seq<char>, Option<Seq<(Seq<char>, i32)>>>::empty());
        assert(r.cursors() =~= Map::<Seq<char>, Seq<Row>>::empty());
        r
    }

    fn set_describe(&mut self, name: String, d: StmtDescribeState)
        requires
            old(self).wf(),
        ensures
            final(self).wf(),
            final(self).describes() == old(self).describes().insert(name@, describe_view(d)),
            final(self).statements() == old(self).statements(),
            final(self).portals() == old(self).portals(),
            final(self).cursors() == old(self).cursors(),
    {
        let ghost d0 = self.statement_describe@;
        let ghost nv = name@;
        self.statement_describe.insert(name, d);
        assert(self.describes() =~= old(self).describes().insert(nv, describe_view(d)));
    }

    /// The reply that ends a statement `Describe` once the column shape is known:
    /// `NoData` for no columns, else a `RowDescription`; either is remembered.
    fn finish_with_shape(&mut self, sent: Vec<u8>, name: String, cols: Vec<(String, i32)>) -> (r: Result<
        Vec<u8>,
        String,
    >)
        requires
            old(self).wf(),
        ensures
            final(self).wf(),
            final(self).statements() == old(self).statements(),
            final(self).portals() == old(self).portals(),
            final(self).cursors() == old(self).cursors(),
            shape_reply(sent@, name@, cols_view(cols@), r, old(self).describes(), final(self).describes()),
    {
        let mut out = sent;
        if cols.len() == 0 {
            push_bytes(&mut out, &no_data());
            self.set_describe(name, StmtDescribeState::NoData);
            return Ok(out);
        }
        let rd = crate::pgwire::rows::row_description_message(&cols);
        match rd {
            Ok(m) => {
                push_bytes(&mut out, &m);
                self.set_describe(name, StmtDescribeState::RowDesc(cols));
                Ok(out)
            },
            Err(e) => Err(e),
        }
    }

    /// `Describe`: for a statement, its parameter types and then its result columns
    /// (`NoData` unless it is a `SELECT`; column names from `AS` aliases when it has
    /// placeholders; otherwise from a sample run); for a portal, its result columns.
    pub fn handle_describe(&mut self, payload: &[u8]) -> (r: DescribeStep)
        requires
            old(self).wf(),
        ensures
            final(self).wf(),
            final(self).statements() == old(self).statements(),
            final(self).portals() == old(self).portals(),
            final(self).cursors() == old(self).cursors(),
            !(r is Reply) ==> final(self).describes() == old(self).describes(),
            describe_reply(old(self).statements(), old(self).portals(), payload@, r, old(self).describes(), final(self).describes()),
    {
        if payload.len() == 0 {
            return DescribeStep::Fail("empty Describe payload".to_string());
        }
        let kind = payload[0];
        let rest = &payload[1..payload.len()];
        assert(rest@ =~= payload@.drop_first());
        let mut buf = MsgBuf::new(rest);
        let name = match buf.read_cstring() {
            Ok(n) => n,
            Err(e) => {
                return DescribeStep::Fail(e);
            },
        };
        if kind == 0x53 {
            let (sql, oids, n) = match self.statements.get(name.as_str()) {
                None => {
                    return DescribeStep::Fail(
                        message_with_name("unknown prepared statement `", name.as_str(), "`"),
                    );
                },
                Some(prep) => {
                    let qc = chars_of(prep.query.as_str());
                    if scan_placeholders(&qc).is_none() {
                        return DescribeStep::Abort;
                    }
                    let n = max_param_index(prep.query.as_str());
                    if n < 0 {
                        return DescribeStep::Abort;
                    }
                    (prep.query.clone(), resolved_statement_param_oids(prep, n), n)
                },
            };
            proof {
                lemma_param_description_len(oids@);
                assert(oids@ =~= Seq::new(n as nat, |i: int| resolved_oid(self.statements@[name@].param_type_oids@, i)));
            }
            let sent = parameter_description(&oids);
            let trimmed = trim_chars(&chars_of(sql.as_str()));
            if is_session_sql(sql.as_str()) || !starts_with_chars(&upper_chars(&trimmed), &chars_of("SELECT")) {
                let mut out = sent;
                push_bytes(&mut out, &no_data());
                self.set_describe(name, StmtDescribeState::NoData);
                return DescribeStep::Reply(out);
            }
            if n == 0 {
                return DescribeStep::NeedStatementShape { sent, name, sql };
            }
            let aliases = placeholder_select_aliases(sql.as_str());
            let mut cols: Vec<(String, i32)> = Vec::new();
            let mut k: usize = 0;
            while k < aliases.len()
                invariant
                    k <= aliases@.len(),
                    cols_view(cols@) == alias_columns(strings_view(aliases@).take(k as int)),
                decreases aliases.len() - k,
            {
                let ghost before = cols@;
                let a = aliases[k].clone();
                cols.push((a, TEXT_OID));
                proof {
                    assert(cols_view(cols@) =~= cols_view(before).push((a@, TEXT_OID)));
                    assert(alias_columns(strings_view(aliases@).take(k + 1)) =~= alias_columns(
                        strings_view(aliases@).take(k as int),
                    ).push((aliases@[k as int]@, TEXT_OID)));
                }
                k += 1;
            }
            assert(strings_view(aliases@).take(aliases@.len() as int) =~= strings_view(aliases@));
            match self.finish_with_shape(sent, name, cols) {
                Ok(b) => DescribeStep::Reply(b),
                Err(e) => DescribeStep::Fail(e),
            }
        } else if kind == 0x50 {
            match self.portals.get(name.as_str()) {
                None => DescribeStep::Fail(message_with_name("unknown portal `", name.as_str(), "`")),
                Some(portal) => {
                    if is_session_sql(portal.sql.as_str()) {
                        DescribeStep::Reply(no_data())
                    } else {
                        DescribeStep::NeedPortalShape { sql: portal.sql.clone() }
                    }
                },
            }
        } else {
            DescribeStep::Fail(invalid_kind_message("invalid Describe kind ", kind))
        }
    }

    /// Ends a statement `Describe` with the rows of the sample run (or its error).
    pub fn finish_statement_describe(&mut self, name: String, rows: Result<Vec<Row>, String>) -> (r: Result<
        Vec<u8>,
        String,
    >)
        requires
            old(self).wf(),
        ensures
            final(self).wf(),
            final(self).statements() == old(self).statements(),
            final(self).portals() == old(self).portals(),
            final(self).cursors() == old(self).cursors(),
            statement_shape_reply(name@, rows, r, old(self).describes(), final(self).describes()),
    {
        let rows = match rows {
            Ok(v) => v,
            Err(e) => {
                return Err(e);
            },
        };
        let cols = result_shape(rows.as_slice())?;
        self.finish_with_shape(Vec::new(), name, cols)
    }

    /// Ends a portal `Describe` with the rows of the sample run (or its error): a
    /// `RowDescription` of the first row, empty when there are no rows.
    pub fn finish_portal_describe(&self, rows: Result<Vec<Row>, String>) -> (r: Result<Vec<u8>, String>)
        ensures
            portal_shape_reply(rows, r),
    {
        let rows = match rows {
            Ok(v) => v,
            Err(e) => {
                return Err(e);
            },
        };
        let cols = result_shape(rows.as_slice())?;
        crate::pgwire::rows::row_description_message(&cols)
    }

    /// `Execute`: runs a portal. An empty statement answers `EMPTY QUERY` and a session
    /// statement its command tag; rows left from a suspended run are sent before
    /// running again; otherwise the caller runs the SQL and calls `finish_execute`.
    pub fn handle_execute(&mut self, payload: &[u8]) -> (r: ExecuteStep)
        requires
            old(self).wf(),
        ensures
            final(self).wf(),
            final(self).statements() == old(self).statements(),
            final(self).portals() == old(self).portals(),
            final(self).describes() == old(self).describes(),
            execute_reply(old(self).portals(), old(self).describes(), payload@, r, old(self).cursors(), final(self).cursors()),
    {
        let mut buf = MsgBuf::new(payload);
        let portal_name = match buf.read_cstring() {
            Ok(v) => v,
            Err(e) => {
                return ExecuteStep::Fail(e);
            },
        };
        let max_rows_req = match buf.read_i32() {
            Ok(v) => v,
            Err(e) => {
                return ExecuteStep::Fail(e);
            },
        };
        if max_rows_req < 0 {
            return ExecuteStep::Fail("Execute max_rows must be non-negative".to_string());
        }
        let (sql, stmt) = match self.portals.get(portal_name.as_str()) {
            None => {
                return ExecuteStep::Fail(message_with_name("unknown portal `", portal_name.as_str(), "`"));
            },
            Some(p) => (p.sql.clone(), p.statement_name.clone()),
        };
        if trim_chars(&chars_of(sql.as_str())).len() == 0 {
            let _ = self.portal_cursors.remove(portal_name.as_str());
            assert(self.cursors() =~= old(self).cursors().remove(portal_name@));
            proof {
                lemma_session_tag_fits(sql@);
            }
            return ExecuteStep::Reply(command_complete("EMPTY QUERY"));
        }
        if is_session_sql(sql.as_str()) {
            let _ = self.portal_cursors.remove(portal_name.as_str());
            assert(self.cursors() =~= old(self).cursors().remove(portal_name@));
            let tag = command_tag_for_session_sql(sql.as_str());
            proof {
                lemma_session_tag_fits(sql@);
            }
            return ExecuteStep::Reply(command_complete(tag));
        }
        match self.portal_cursors.remove(portal_name.as_str()) {
            Some(pending) => {
                proof {
                    assert(self.cursors() =~= old(self).cursors().remove(portal_name@));
                }
                let out = self.finish_execute(portal_name, stmt, max_rows_req, Ok(pending));
                ExecuteStep::Output(out)
            },
            None => {
                assert(self.cursors() =~= old(self).cursors());
                ExecuteStep::NeedRows { portal: portal_name, statement: stmt, max_rows: max_rows_req, sql }
            },
        }
    }

    /// Ends an `Execute` with the rows of the run (or its error).
    pub fn finish_execute(&mut self, portal: String, statement: String, max_rows: i32, rows: Result<Vec<Row>, String>) -> (r: QueryOutput)
        requires
            old(self).wf(),
            max_rows >= 0,
        ensures
            final(self).wf(),
            final(self).statements() == old(self).statements(),
            final(self).portals() == old(self).portals(),
            final(self).describes() == old(self).describes(),
            match rows {
                Err(e) => r.bytes@.len() == 0 && (r.error matches Some(x) && x@ == e@) && final(self).cursors() == old(self).cursors(),
                Ok(v) => execute_out(
                    v@,
                    if old(self).describes().contains_key(statement@) {
                        Some(old(self).describes()[statement@])
                    } else {
                        None
                    },
                    max_rows as int,
                    portal@,
                    output_view(r),
                    old(self).cursors(),
                    final(self).cursors(),
                ),
            },
    {
        let mut rows = match rows {
            Ok(v) => v,
            Err(e) => {
                return QueryOutput { bytes: Vec::new(), error: Some(e) };
            },
        };
        let ghost all = rows@;
        let ghost pv = portal@;
        let described = self.statement_describe.get(statement.as_str()).is_some();
        let limit: usize = if described { max_rows as usize } else { 0 };
        let mut rest: Vec<Row> = Vec::new();
        if limit > 0 && rows.len() > limit {
            rest = rows.split_off(limit);
        }
        let suspended = rest.len() > 0;
        proof {
            if limit > 0 && all.len() > limit {
                assert(rows@ =~= all.take(limit as int));
                assert(rest@ =~= all.skip(limit as int));
            }
        }
        if suspended {
            self.portal_cursors.insert(portal.clone(), rest);
            assert(self.cursors() =~= old(self).cursors().insert(pv, all.skip(max_rows as int)));
        }
        match self.statement_describe.get(statement.as_str()) {
            Some(StmtDescribeState::RowDesc(shape)) => {
                let names = column_names(shape);
                write_query_result_skip_row_description(&rows, &names, suspended)
            },
            Some(StmtDescribeState::NoData) => {
                let none: Vec<String> = Vec::new();
                assert(texts(none@) =~= Seq::<Seq<char>>::empty());
                write_query_result_skip_row_description(&rows, &none, suspended)
            },
            None => {
                let _ = self.portal_cursors.remove(portal.as_str());
                assert(self.cursors() =~= old(self).cursors().remove(pv));
                let out = write_query_result(&rows);
                proof {
                    if rows@.len() > 0 && rows@[0] is NotObject {
                        assert(out.bytes@ =~= Seq::<u8>::empty());
                    }
                }
                out
            },
        }
    }

    /// Reads a list of format codes. A negative count reads codes until the payload
    /// runs out, which always fails.
    #[verifier::loop_isolation(false)]
    fn read_codes(buf: &mut MsgBuf, Ghost(len): Ghost<int>) -> (r: Result<Vec<i16>, String>)
        requires
            old(buf).wf(),
            old(buf).bytes().len() == len,
            len <= usize::MAX,
        ensures
            final(buf).wf(),
            final(buf).bytes() == old(buf).bytes(),
            match codes_at(old(buf).bytes(), old(buf).pos()) {
                Some((codes, next)) => r matches Ok(v) && v@ == codes && final(buf).pos() == next,
                None => r is Err,
            },
    {
        proof {
            buf.lemma_pos_bounds();
        }
        let ghost b = buf.bytes();
        let ghost p0 = buf.pos();
        let n = buf.read_i16()?;
        if n < 0 {
            loop
                invariant
                    buf.wf(),
                    buf.bytes() == b,
                decreases buf.bytes().len() - buf.pos(),
            {
                proof {
                    buf.lemma_pos_bounds();
                }
                buf.read_i16()?;
            }
        }
        let count = n as usize;
        let mut codes: Vec<i16> = Vec::new();
        let mut k: usize = 0;
        while k < count
            invariant
                buf.wf(),
                buf.bytes() == b,
                b.len() == len,
                len <= usize::MAX,
                i16_at(b, p0) == Some(n as int),
                count == n as usize,
                k <= count,
                codes@.len() == k,
                buf.pos() == p0 + 2 + 2 * k,
                forall|j: int| 0 <= j < k ==> i16_at(b, p0 + 2 + 2 * j) == Some(#[trigger] codes@[j] as int),
            decreases count - k,
        {
            proof {
                buf.lemma_pos_bounds();
            }
            let c = buf.read_i16()?;
            codes.push(c);
            k += 1;
        }
        proof {
            buf.lemma_pos_bounds();
            assert(codes@ =~= i16s_at(b, p0 + 2, n as int)) by {
                assert forall|j: int| 0 <= j < n implies codes@[j] == #[trigger] i16s_at(b, p0 + 2, n as int)[j] by {
                    assert(i16_at(b, p0 + 2 + 2 * j) == Some(codes@[j] as int));
                }
            }
        }
        Ok(codes)
    }

    /// `Bind`: binds values to a prepared statement's placeholders and stores the
    /// resulting SQL as a portal, dropping any rows left over under that portal name.
    #[verifier::loop_isolation(false)]
    pub fn handle_bind(&mut self, payload: &[u8]) -> (r: BindStep)
        requires
            old(self).wf(),
            !bind_count_negative(payload@),
        ensures
            final(self).wf(),
            final(self).statements() == old(self).statements(),
            final(self).describes() == old(self).describes(),
            !(r is Reply) ==> final(self).portals() == old(self).portals() && final(self).cursors() == old(self).cursors(),
            bind_reply(old(self).statements(), payload@, r, old(self).portals(), final(self).portals(), old(self).cursors(), final(self).cursors()),
    {
        let plen = payload.len();
        let mut buf = MsgBuf::new(payload);
        let portal_name = match buf.read_cstring() {
            Ok(v) => v,
            Err(e) => {
                return BindStep::Fail(e);
            },
        };
        let stmt_name = match buf.read_cstring() {
            Ok(v) => v,
            Err(e) => {
                return BindStep::Fail(e);
            },
        };
        let format_codes = match Self::read_codes(&mut buf, Ghost(plen as int)) {
            Ok(v) => v,
            Err(e) => {
                return BindStep::Fail(e);
            },
        };
        let num_params = match buf.read_i16() {
            Ok(v) => v,
            Err(e) => {
                return BindStep::Fail(e);
            },
        };
        assert(num_params >= 0);
        let ghost p4 = buf.pos();
        let ghost b = payload@;
        let ghost codes = format_codes@;
        let mut params: Vec<Option<String>> = Vec::new();
        let mut p: i16 = 0;
        while p < num_params
            invariant
                buf.wf(),
                buf.bytes() == b,
                0 <= p <= num_params,
                params@.len() == p,
                codes == format_codes@,
                params_from(b, p4, codes, 0, num_params as int) == (match params_from(b, buf.pos(), codes, p as int, num_params as int) {
                    Some((rest, e)) => Some((params_view(params@) + rest, e)),
                    None => None,
                }),
            decreases num_params - p,
        {
            let ghost pos = buf.pos();
            let len = match buf.read_i32() {
                Ok(v) => v,
                Err(e) => {
                    return BindStep::Fail(e);
                },
            };
            let fmt = match param_format_code(&format_codes, p as usize) {
                Ok(v) => v,
                Err(e) => {
                    return BindStep::Fail(e);
                },
            };
            let ghost before = params@;
            if len < 0 {
                params.push(None);
                proof {
                    assert(params_view(params@) =~= params_view(before).push(None));
                    match params_from(b, pos + 4, codes, p + 1, num_params as int) {
                        Some((rest, e)) => {
                            assert(params_view(params@) + rest =~= params_view(before) + (seq![None::<Seq<char>>] + rest));
                        },
                        None => {},
                    }
                }
            } else {
                let bytes = match buf.read_bytes(len as usize) {
                    Ok(v) => v,
                    Err(e) => {
                        return BindStep::Fail(e);
                    },
                };
                let text = match decode_param(p as usize, fmt, &bytes) {
                    Ok(v) => v,
                    Err(e) => {
                        return BindStep::Fail(e);
                    },
                };
                params.push(Some(text));
                proof {
                    assert(params_view(params@) =~= params_view(before).push(Some(text@)));
                    match params_from(b, pos + 4 + len, codes, p + 1, num_params as int) {
                        Some((rest, e)) => {
                            assert(params_view(params@) + rest =~= params_view(before) + (seq![Some(text@)] + rest));
                        },
                        None => {},
                    }
                }
            }
            p += 1;
        }
        let ghost p5 = buf.pos();
        assert(params_view(params@) + Seq::<Option<Seq<char>>>::empty() =~= params_view(params@));
        if let Err(e) = Self::read_codes(&mut buf, Ghost(plen as int)) {
            return BindStep::Fail(e);
        }
        let sql = match self.statements.get(stmt_name.as_str()) {
            None => {
                return BindStep::Fail(message_with_name("unknown prepared statement `", stmt_name.as_str(), "`"));
            },
            Some(prep) => {
                if scan_placeholders(&chars_of(prep.query.as_str())).is_none() {
                    return BindStep::Abort;
                }
                match substitute_params(prep.query.as_str(), &params) {
                    Ok(v) => v,
                    Err(e) => {
                        return BindStep::Fail(e);
                    },
                }
            },
        };
        let ghost pv = portal_name@;
        let _ = self.portal_cursors.remove(portal_name.as_str());
        let portal = Portal { sql, statement_name: stmt_name };
        self.portals.insert(portal_name, portal);
        proof {
            assert(self.portals() =~= old(self).portals().insert(pv, portal_view(portal)));
            assert(self.cursors() =~= old(self).cursors().remove(pv));
        }
        BindStep::Reply(bind_complete())
    }

    /// `Parse`: stores the prepared statement under its name and forgets what was
    /// described for that name.
    #[verifier::loop_isolation(false)]
    pub fn handle_parse(&mut self, payload: &[u8]) -> (r: Result<Vec<u8>, String>)
        requires
            old(self).wf(),
        ensures
            final(self).wf(),
            final(self).portals() == old(self).portals(),
            final(self).cursors() == old(self).cursors(),
            parse_reply(payload@, r, old(self).statements(), final(self).statements(), old(self).describes(), final(self).describes()),
    {
        let mut buf = MsgBuf::new(payload);
        let stmt_name = buf.read_cstring()?;
        let query = buf.read_cstring()?;
        let ghost p2 = buf.pos();
        let num = buf.read_i16()? as i32;
        let mut oids: Vec<i32> = Vec::new();
        let mut k: i32 = 0;
        while k < num
            invariant
                buf.wf(),
                buf.bytes() == payload@,
                0 <= k,
                num >= 0 ==> k <= num,
                num < 0 ==> k == 0,
                oids@.len() == k,
                buf.pos() == p2 + 2 + 4 * k,
                forall|j: int| 0 <= j < k ==> i32_at(payload@, p2 + 2 + 4 * j) == Some(#[trigger] oids@[j] as int),
            decreases num - k,
        {
            let v = buf.read_i32()?;
            oids.push(v);
            k += 1;
        }
        proof {
            buf.lemma_pos_bounds();
            assert(parse_message(payload@) == Some((stmt_name@, query@, oids@))) by {
                lemma_oids_at(payload@, p2 + 2, num as int, oids@);
            }
        }
        let ghost name_view = stmt_name@;
        let ghost s0 = self.statements@;
        let _ = self.statement_describe.remove(stmt_name.as_str());
        let prep = PreparedStatement { query, param_type_oids: oids };
        self.statements.insert(stmt_name, prep);
        proof {
            assert(self.statements() =~= old(self).statements().insert(name_view, statement_view(prep)));
            assert(self.describes() =~= old(self).describes().remove(name_view));
        }
        Ok(parse_complete())
    }

    /// `Close`: forgets a statement (and what was described for it) or a portal (and
    /// its leftover rows).
    pub fn handle_close(&mut self, payload: &[u8]) -> (r: Result<Vec<u8>, String>)
        requires
            old(self).wf(),
        ensures
            final(self).wf(),
            close_reply(
                payload@,
                r,
                old(self).statements(),
                final(self).statements(),
                old(self).portals(),
                final(self).portals(),
                old(self).describes(),
                final(self).describes(),
                old(self).cursors(),
                final(self).cursors(),
            ),
    {
        if payload.len() == 0 {
            return Err("empty Close payload".to_string());
        }
        let kind = payload[0];
        let rest = &payload[1..payload.len()];
        assert(rest@ =~= payload@.drop_first());
        let mut buf = MsgBuf::new(rest);
        let name = buf.read_cstring()?;
        if kind == 0x53 {
            let _ = self.statements.remove(name.as_str());
            let _ = self.statement_describe.remove(name.as_str());
            assert(self.statements() =~= old(self).statements().remove(name@));
            assert(self.describes() =~= old(self).describes().remove(name@));
        } else if kind == 0x50 {
            let _ = self.portals.remove(name.as_str());
            let _ = self.portal_cursors.remove(name.as_str());
            assert(self.portals() =~= old(self).portals().remove(name@));
            assert(self.cursors() =~= old(self).cursors().remove(name@));
        } else {
            return Err(invalid_kind_message("invalid Close kind ", kind));
        }
        Ok(close_complete())
    }
}

/// The reply to a `Parse` message and what it does to the prepared statements.
pub open spec fn parse_reply(
    payload: Seq<u8>,
    r: Result<Vec<u8>, String>,
    statements_before: Map<Seq<char>, (Seq<char>, Seq<i32>)>,
    statements_after: Map<Seq<char>, (Seq<char>, Seq<i32>)>,
    describes_before: Map<Seq<char>, Option<Seq<(Seq<char>, i32)>>>,
    describes_after: Map<Seq<char>, Option<Seq<(Seq<char>, i32)>>>,
) -> bool {
    match parse_message(payload) {
        Some((name, query, oids)) => {
            &&& r matches Ok(b) && b@ == frame(0x31, seq![])
            &&& statements_after == statements_before.insert(name, (query, oids))
            &&& describes_after == describes_before.remove(name)
        },
        None => {
            &&& r is Err
            &&& statements_after == statements_before
            &&& describes_after == describes_before
        },
    }
}

/// The reply to a `Close` message and what it forgets.
pub open spec fn close_reply(
    payload: Seq<u8>,
    r: Result<Vec<u8>, String>,
    statements_before: Map<Seq<char>, (Seq<char>, Seq<i32>)>,
    statements_after: Map<Seq<char>, (Seq<char>, Seq<i32>)>,
    portals_before: Map<Seq<char>, (Seq<char>, Seq<char>)>,
    portals_after: Map<Seq<char>, (Seq<char>, Seq<char>)>,
    describes_before: Map<Seq<char>, Option<Seq<(Seq<char>, i32)>>>,
    describes_after: Map<Seq<char>, Option<Seq<(Seq<char>, i32)>>>,
    cursors_before: Map<Seq<char>, Seq<Row>>,
    cursors_after: Map<Seq<char>, Seq<Row>>,
) -> bool {
    let unchanged = statements_after == statements_before && portals_after == portals_before && describes_after
        == describes_before && cursors_after == cursors_before;
    if payload.len() == 0 {
        r matches Err(m) && m@ == "empty Close payload"@ && unchanged
    } else {
        match cstring_at(payload.drop_first(), 0) {
            None => r is Err && unchanged,
            Some((name, _)) => if payload[0] == 0x53 {
                &&& r matches Ok(b) && b@ == frame(0x33, seq![])
                &&& statements_after == statements_before.remove(name)
                &&& describes_after == describes_before.remove(name)
                &&& portals_after == portals_before
                &&& cursors_after == cursors_before
            } else if payload[0] == 0x50 {
                &&& r matches Ok(b) && b@ == frame(0x33, seq![])
                &&& portals_after == portals_before.remove(name)
                &&& cursors_after == cursors_before.remove(name)
                &&& statements_after == statements_before
                &&& describes_after == describes_before
            } else {
                r matches Err(m) && m@ == "invalid Close kind "@ + seq![(payload[0] as u32) as char] && unchanged
            },
        }
    }
}

/// The end of a statement `Describe` once the sample run gave `rows` (or failed).
pub open spec fn statement_shape_reply(
    name: Seq<char>,
    rows: Result<Vec<Row>, String>,
    r: Result<Vec<u8>, String>,
    before: Map<Seq<char>, Option<Seq<(Seq<char>, i32)>>>,
    after: Map<Seq<char>, Option<Seq<(Seq<char>, i32)>>>,
) -> bool {
    match rows {
        Err(e) => r == Err::<Vec<u8>, String>(e) && after == before,
        Ok(v) => if v@.len() == 0 {
            shape_reply(seq![], name, seq![], r, before, after)
        } else {
            match v@[0] {
                Row::NotObject => r matches Err(m) && m@ == "Describe: row must be object"@ && after == before,
                Row::Object(e) => exists|cols: Seq<(Seq<char>, i32)>|
                    #[trigger] shape_of(cols, e@) && shape_reply(seq![], name, cols, r, before, after),
            }
        },
    }
}

/// The end of a portal `Describe` once the sample run gave `rows` (or failed).
pub open spec fn portal_shape_reply(rows: Result<Vec<Row>, String>, r: Result<Vec<u8>, String>) -> bool {
    match rows {
        Err(e) => r == Err::<Vec<u8>, String>(e),
        Ok(v) => if v@.len() == 0 {
            r matches Ok(b) && b@ == frame(0x54, row_description_body(seq![]))
        } else {
            match v@[0] {
                Row::NotObject => r matches Err(m) && m@ == "Describe: row must be object"@,
                Row::Object(e) => exists|cols: Seq<(Seq<char>, i32)>|
                    #[trigger] shape_of(cols, e@) && description_or_too_large(cols, r),
            }
        },
    }
}

/// A `RowDescription` of `cols`, or the framing error when it is too large.
pub open spec fn description_or_too_large(cols: Seq<(Seq<char>, i32)>, r: Result<Vec<u8>, String>) -> bool {
    if body_fits(row_description_body(cols)) {
        r matches Ok(b) && b@ == frame(0x54, row_description_body(cols))
    } else {
        r matches Err(m) && m@ == crate::pgwire::encode::too_large_message()
    }
}

/// The end of a statement `Describe` after `sent`: `NoData` for no columns, else a
/// `RowDescription`; the reply is remembered for the statement.
pub open spec fn shape_reply(
    sent: Seq<u8>,
    name: Seq<char>,
    cols: Seq<(Seq<char>, i32)>,
    r: Result<Vec<u8>, String>,
    before: Map<Seq<char>, Option<Seq<(Seq<char>, i32)>>>,
    after: Map<Seq<char>, Option<Seq<(Seq<char>, i32)>>>,
) -> bool {
    if cols.len() == 0 {
        r matches Ok(b) && b@ == sent + frame(0x6e, seq![]) && after == before.insert(name, None)
    } else if body_fits(row_description_body(cols)) {
        r matches Ok(b) && b@ == sent + frame(0x54, row_description_body(cols)) && after == before.insert(
            name,
            Some(cols),
        )
    } else {
        r matches Err(m) && m@ == crate::pgwire::encode::too_large_message() && after == before
    }
}

/// The reply to a `Describe` message in the given session state.
pub open spec fn describe_reply(
    statements: Map<Seq<char>, (Seq<char>, Seq<i32>)>,
    portals: Map<Seq<char>, (Seq<char>, Seq<char>)>,
    payload: Seq<u8>,
    r: DescribeStep,
    before: Map<Seq<char>, Option<Seq<(Seq<char>, i32)>>>,
    after: Map<Seq<char>, Option<Seq<(Seq<char>, i32)>>>,
) -> bool {
    if payload.len() == 0 {
        r matches DescribeStep::Fail(m) && m@ == "empty Describe payload"@
    } else {
        match cstring_at(payload.drop_first(), 0) {
            None => r is Fail,
            Some((name, _)) => if payload[0] == 0x53 {
                if !statements.contains_key(name) {
                    r matches DescribeStep::Fail(m) && m@ == unknown_statement_message(name)
                } else {
                    let (sql, oids) = statements[name];
                    if !placeholders_fit(sql) || max_index_i16(placeholders(sql)) < 0 {
                        r is Abort
                    } else {
                        let n = max_index_i16(placeholders(sql)) as int;
                        let sent = param_description(oids, n);
                        if described_without_rows(sql) {
                            r matches DescribeStep::Reply(b) && b@ == sent + frame(0x6e, seq![]) && after
                                == before.insert(name, None)
                        } else if n == 0 {
                            r matches DescribeStep::NeedStatementShape { sent: s, name: nm, sql: q } && s@ == sent
                                && nm@ == name && q@ == sql
                        } else {
                            let cols = alias_columns(select_aliases(sql));
                            match r {
                                DescribeStep::Reply(b) => shape_reply(sent, name, cols, Ok(b), before, after),
                                DescribeStep::Fail(m) => shape_reply(sent, name, cols, Err(m), before, after),
                                _ => false,
                            }
                        }
                    }
                }
            } else if payload[0] == 0x50 {
                if !portals.contains_key(name) {
                    r matches DescribeStep::Fail(m) && m@ == unknown_portal_message(name)
                } else if session_sql(portals[name].0) {
                    r matches DescribeStep::Reply(b) && b@ == frame(0x6e, seq![])
                } else {
                    r matches DescribeStep::NeedPortalShape { sql } && sql@ == portals[name].0
                }
            } else {
                r matches DescribeStep::Fail(m) && m@ == "invalid Describe kind "@ + seq![(payload[0] as u32) as char]
            },
        }
    }
}

/// A `ParameterDescription` body has 2 bytes of count and 4 per type.
proof fn lemma_param_description_len(oids: Seq<i32>)
    ensures
        parameter_description_body(oids).len() == 2 + 4 * oids.len(),
    decreases oids.len(),
{
    lemma_oids_bytes_len(oids);
}

proof fn lemma_oids_bytes_len(oids: Seq<i32>)
    ensures
        crate::pgwire::encode::oids_bytes(oids).len() == 4 * oids.len(),
    decreases oids.len(),
{
    if oids.len() > 0 {
        lemma_oids_bytes_len(oids.drop_last());
    }
}

/// `n` big-endian `i16`s starting at `pos`.
pub open spec fn i16s_at(b: Seq<u8>, pos: int, n: int) -> Seq<i16> {
    Seq::new(n as nat, |k: int| be_i16(b[pos + 2 * k], b[pos + 2 * k + 1]) as i16)
}

/// A list of format codes at `pos` (count, then codes) and the position after it.
/// A negative count cannot be satisfied by any payload.
pub open spec fn codes_at(b: Seq<u8>, pos: int) -> Option<(Seq<i16>, int)> {
    match i16_at(b, pos) {
        None => None,
        Some(n) => if n < 0 {
            None
        } else if pos + 2 + 2 * n <= b.len() {
            Some((i16s_at(b, pos + 2, n), pos + 2 + 2 * n))
        } else {
            None
        },
    }
}

/// Bound values `p..count` starting at `pos`: each a length (negative for `NULL`) and
/// that many bytes, decoded by its format code; and the position after them.
pub open spec fn params_from(b: Seq<u8>, pos: int, codes: Seq<i16>, p: int, count: int) -> Option<
    (Seq<Option<Seq<char>>>, int),
>
    decreases count - p,
{
    if p >= count {
        Some((seq![], pos))
    } else {
        match i32_at(b, pos) {
            None => None,
            Some(len) => match format_code_for(codes, p) {
                None => None,
                Some(fmt) => if len < 0 {
                    match params_from(b, pos + 4, codes, p + 1, count) {
                        Some((rest, e)) => Some((seq![None::<Seq<char>>] + rest, e)),
                        None => None,
                    }
                } else if pos + 4 + len > b.len() {
                    None
                } else {
                    match decoded_param(fmt, b.subrange(pos + 4, pos + 4 + len)) {
                        None => None,
                        Some(t) => match params_from(b, pos + 4 + len, codes, p + 1, count) {
                            Some((rest, e)) => Some((seq![Some(t)] + rest, e)),
                            None => None,
                        },
                    }
                },
            },
        }
    }
}

/// The fields of a `Bind` message up to its parameter count: portal, statement,
/// parameter format codes, count, and the position after the count.
pub open spec fn bind_head(b: Seq<u8>) -> Option<(Seq<char>, Seq<char>, Seq<i16>, int, int)> {
    match cstring_at(b, 0) {
        None => None,
        Some((portal, p1)) => match cstring_at(b, p1) {
            None => None,
            Some((stmt, p2)) => match codes_at(b, p2) {
                None => None,
                Some((codes, p3)) => match i16_at(b, p3) {
                    None => None,
                    Some(n) => Some((portal, stmt, codes, n, p3 + 2)),
                },
            },
        },
    }
}

/// A `Bind` message that reads as far as its parameter count, and gives a negative one.
pub open spec fn bind_count_negative(b: Seq<u8>) -> bool {
    match bind_head(b) {
        Some((_, _, _, n, _)) => n < 0,
        None => false,
    }
}

/// Whether a `Bind` message asks for a negative number of parameters, which no
/// session can serve (room for that many values cannot be made).
pub fn bind_count_is_negative(payload: &[u8]) -> (r: bool)
    ensures
        r == bind_count_negative(payload@),
{
    let plen = payload.len();
    let mut buf = MsgBuf::new(payload);
    if buf.read_cstring().is_err() {
        return false;
    }
    if buf.read_cstring().is_err() {
        return false;
    }
    if PgSession::read_codes(&mut buf, Ghost(plen as int)).is_err() {
        return false;
    }
    match buf.read_i16() {
        Ok(n) => n < 0,
        Err(_) => false,
    }
}

/// The portal name, statement name and bound values of a `Bind` message whose
/// parameter count is not negative.
pub open spec fn bind_fields(b: Seq<u8>) -> Option<(Seq<char>, Seq<char>, Seq<Option<Seq<char>>>)> {
    match bind_head(b) {
        None => None,
        Some((portal, stmt, codes, n, p4)) => match params_from(b, p4, codes, 0, n) {
            None => None,
            Some((params, p5)) => match codes_at(b, p5) {
                None => None,
                Some(_) => Some((portal, stmt, params)),
            },
        },
    }
}

/// The reply to a `Bind` message in the given session state.
pub open spec fn bind_reply(
    statements: Map<Seq<char>, (Seq<char>, Seq<i32>)>,
    payload: Seq<u8>,
    r: BindStep,
    portals_before: Map<Seq<char>, (Seq<char>, Seq<char>)>,
    portals_after: Map<Seq<char>, (Seq<char>, Seq<char>)>,
    cursors_before: Map<Seq<char>, Seq<Row>>,
    cursors_after: Map<Seq<char>, Seq<Row>>,
) -> bool {
    match bind_head(payload) {
        None => r is Fail,
        Some(_) => {
            match bind_fields(payload) {
                None => r is Fail,
                Some((portal, stmt, params)) => if !statements.contains_key(stmt) {
                    r matches BindStep::Fail(m) && m@ == unknown_statement_message(stmt)
                } else {
                    let sql = statements[stmt].0;
                    if !placeholders_fit(sql) {
                        r is Abort
                    } else if max_index(placeholders(sql)) != params.len() {
                        r matches BindStep::Fail(m) && m@ == count_mismatch_message(
                            params.len(),
                            max_index(placeholders(sql)) as nat,
                        )
                    } else {
                        &&& r matches BindStep::Reply(b) && b@ == frame(0x32, seq![])
                        &&& portals_after == portals_before.insert(portal, (substituted(sql, params), stmt))
                        &&& cursors_after == cursors_before.remove(portal)
                    }
                },
            }
        },
    }
}

/// The reply to an `Execute` message in the given session state.
pub open spec fn execute_reply(
    portals: Map<Seq<char>, (Seq<char>, Seq<char>)>,
    describes: Map<Seq<char>, Option<Seq<(Seq<char>, i32)>>>,
    payload: Seq<u8>,
    r: ExecuteStep,
    cursors_before: Map<Seq<char>, Seq<Row>>,
    cursors_after: Map<Seq<char>, Seq<Row>>,
) -> bool {
    match cstring_at(payload, 0) {
        None => r is Fail && cursors_after == cursors_before,
        Some((portal, p1)) => match i32_at(payload, p1) {
            None => r is Fail && cursors_after == cursors_before,
            Some(max_rows) => if max_rows < 0 {
                r matches ExecuteStep::Fail(m) && m@ == "Execute max_rows must be non-negative"@
                    && cursors_after == cursors_before
            } else if !portals.contains_key(portal) {
                r matches ExecuteStep::Fail(m) && m@ == unknown_portal_message(portal) && cursors_after
                    == cursors_before
            } else {
                let (sql, stmt) = portals[portal];
                if trim(sql).len() == 0 {
                    r matches ExecuteStep::Reply(b) && b@ == frame(0x43, cstr("EMPTY QUERY"@)) && cursors_after
                        == cursors_before.remove(portal)
                } else if session_sql(sql) {
                    r matches ExecuteStep::Reply(b) && b@ == frame(0x43, cstr(session_tag(sql))) && cursors_after
                        == cursors_before.remove(portal)
                } else if cursors_before.contains_key(portal) {
                    r matches ExecuteStep::Output(o) && execute_out(
                        cursors_before[portal],
                        if describes.contains_key(stmt) {
                            Some(describes[stmt])
                        } else {
                            None
                        },
                        max_rows,
                        portal,
                        output_view(o),
                        cursors_before.remove(portal),
                        cursors_after,
                    )
                } else {
                    r matches ExecuteStep::NeedRows { portal: p, statement: s, max_rows: m, sql: q } && p@
                        == portal && s@ == stmt && m == max_rows && q@ == sql && cursors_after == cursors_before
                }
            },
        },
    }
}

/// The names of the columns of a described shape, in order.
fn column_names(shape: &Vec<(String, i32)>) -> (names: Vec<String>)
    ensures
        texts(names@) == cols_view(shape@).map_values(|c: (Seq<char>, i32)| c.0),
{
    let mut names: Vec<String> = Vec::new();
    let mut k: usize = 0;
    while k < shape.len()
        invariant
            k <= shape@.len(),
            texts(names@) == cols_view(shape@).map_values(|c: (Seq<char>, i32)| c.0).take(k as int),
        decreases shape.len() - k,
    {
        let ghost before = names@;
        let nm = shape[k].0.clone();
        names.push(nm);
        proof {
            assert(texts(names@) =~= texts(before).push(nm@));
            assert(cols_view(shape@).map_values(|c: (Seq<char>, i32)| c.0).take(k + 1) =~= cols_view(
                shape@,
            ).map_values(|c: (Seq<char>, i32)| c.0).take(k as int).push(shape@[k as int].0@));
        }
        k += 1;
    }
    assert(cols_view(shape@).map_values(|c: (Seq<char>, i32)| c.0).take(shape@.len() as int) =~= cols_view(
        shape@,
    ).map_values(|c: (Seq<char>, i32)| c.0));
    names
}

/// A session command tag always fits a frame.
pub proof fn lemma_session_tag_fits(sql: Seq<char>)
    ensures
        body_fits(cstr(session_tag(sql))),
        body_fits(cstr("EMPTY QUERY"@)),
{
    reveal_strlit("SET");
    reveal_strlit("BEGIN");
    reveal_strlit("COMMIT");
    reveal_strlit("ROLLBACK");
    reveal_strlit("SHOW");
    reveal_strlit("EMPTY QUERY");
    vstd::utf8::is_ascii_chars_encode_utf8(session_tag(sql));
    vstd::utf8::is_ascii_chars_encode_utf8("EMPTY QUERY"@);
}

/// What `write_query_result` sends for `rows`.
pub open spec fn full_result_out(rows: Seq<Row>, out: (Seq<u8>, Option<Seq<char>>)) -> bool {
    if rows.len() == 0 {
        out == (frame(0x54, crate::pgwire::encode::row_description_body(seq![])) + closing(0, false), None::<Seq<char>>)
    } else {
        match rows[0] {
            Row::NotObject => out == (Seq::<u8>::empty(), Some(nonobject_row_message())),
            Row::Object(e) => exists|cols: Seq<(Seq<char>, i32)>| #[trigger] shape_of(cols, e@) && out == query_result_out(rows, cols),
        }
    }
}

/// A whole query result is the `RowDescription` of its first row followed by exactly
/// what a result sends once the client has that description (no columns given, not
/// suspended): the data rows over the first row's sorted names and `SELECT n`.
pub proof fn law_full_result_is_description_then_rows(
    rows: Seq<Row>,
    cols: Seq<(Seq<char>, i32)>,
    full: (Seq<u8>, Option<Seq<char>>),
    after: (Seq<u8>, Option<Seq<char>>),
)
    requires
        full_result_out(rows, full),
        skip_description_out(rows, seq![], false, after),
        rows.len() == 0 ==> cols == Seq::<(Seq<char>, i32)>::empty(),
        rows.len() > 0 ==> (rows[0] matches Row::Object(e) && shape_of(cols, e@)),
        body_fits(row_description_body(cols)),
    ensures
        full == (frame(0x54, row_description_body(cols)) + after.0, after.1),
{
    if rows.len() == 0 {
        assert(full.0 =~= frame(0x54, row_description_body(cols)) + after.0);
    } else {
        let e = rows[0]->Object_0;
        let c2 = choose|c: Seq<(Seq<char>, i32)>| #[trigger] shape_of(c, e@) && full == query_result_out(rows, c);
        lemma_shape_unique(c2, cols, e@);
        let names = choose|n: Seq<Seq<char>>| #[trigger] sorted_keys(n, e@) && after == rows_then_close(rows, n, false);
        let cn = cols.map_values(|c: (Seq<char>, i32)| c.0);
        lemma_sorted_texts_unique(names, cn);
        let (data, err) = data_rows_out(rows, names);
        let head = frame(0x54, row_description_body(cols));
        if err is None {
            assert(head + data + closing(rows.len(), false) =~= head + (data + closing(rows.len(), false)));
        }
    }
}

/// The rows an `Execute` sends now and whether the portal is suspended: with a row
/// limit (honoured only when the statement was described) and more rows than it, the
/// first `limit` rows are sent and the rest kept for the next `Execute`.
pub open spec fn execute_split(rows: Seq<Row>, described: bool, max_rows: int) -> (Seq<Row>, bool) {
    let limit = if described { max_rows } else { 0 };
    if limit > 0 && rows.len() > limit {
        (rows.take(limit), true)
    } else {
        (rows, false)
    }
}

/// Once a statement is closed, a `Bind` that names it fails as an unknown statement.
pub proof fn law_closed_statement_cannot_be_bound(
    close: Seq<u8>,
    closed: Result<Vec<u8>, String>,
    statements_before: Map<Seq<char>, (Seq<char>, Seq<i32>)>,
    statements_after: Map<Seq<char>, (Seq<char>, Seq<i32>)>,
    portals_before: Map<Seq<char>, (Seq<char>, Seq<char>)>,
    portals_after: Map<Seq<char>, (Seq<char>, Seq<char>)>,
    describes_before: Map<Seq<char>, Option<Seq<(Seq<char>, i32)>>>,
    describes_after: Map<Seq<char>, Option<Seq<(Seq<char>, i32)>>>,
    cursors_before: Map<Seq<char>, Seq<Row>>,
    cursors_after: Map<Seq<char>, Seq<Row>>,
    bind: Seq<u8>,
    bound: BindStep,
    portals_final: Map<Seq<char>, (Seq<char>, Seq<char>)>,
    cursors_final: Map<Seq<char>, Seq<Row>>,
)
    requires
        close_reply(
            close,
            closed,
            statements_before,
            statements_after,
            portals_before,
            portals_after,
            describes_before,
            describes_after,
            cursors_before,
            cursors_after,
        ),
        closed is Ok,
        close[0] == 0x53,
        bind_reply(statements_after, bind, bound, portals_after, portals_final, cursors_after, cursors_final),
        bind_fields(bind) matches Some((_, stmt, _)) && cstring_at(close.drop_first(), 0) matches Some(
            (name, _),
        ) && stmt == name,
        bind_head(bind) matches Some((_, _, _, n, _)) && n >= 0,
    ensures
        match bind_fields(bind) {
            Some((_, stmt, _)) => bound matches BindStep::Fail(m) && m@ == unknown_statement_message(stmt),
            None => false,
        },
{
}

/// A statement that `Parse` stored can be bound: a `Bind` that names it with as many
/// values as its highest placeholder makes a portal holding the statement's text with
/// the values substituted.
pub proof fn law_bind_uses_parsed_statement(
    parse: Seq<u8>,
    parsed: Result<Vec<u8>, String>,
    statements_before: Map<Seq<char>, (Seq<char>, Seq<i32>)>,
    statements_after: Map<Seq<char>, (Seq<char>, Seq<i32>)>,
    describes_before: Map<Seq<char>, Option<Seq<(Seq<char>, i32)>>>,
    describes_after: Map<Seq<char>, Option<Seq<(Seq<char>, i32)>>>,
    bind: Seq<u8>,
    bound: BindStep,
    portals_before: Map<Seq<char>, (Seq<char>, Seq<char>)>,
    portals_after: Map<Seq<char>, (Seq<char>, Seq<char>)>,
    cursors_before: Map<Seq<char>, Seq<Row>>,
    cursors_after: Map<Seq<char>, Seq<Row>>,
)
    requires
        parse_reply(parse, parsed, statements_before, statements_after, describes_before, describes_after),
        bind_reply(statements_after, bind, bound, portals_before, portals_after, cursors_before, cursors_after),
        parse_message(parse) matches Some((name, query, _)) && bind_fields(bind) matches Some((_, stmt, params))
            && stmt == name && placeholders_fit(query) && max_index(placeholders(query)) == params.len(),
        bind_head(bind) matches Some((_, _, _, n, _)) && n >= 0,
    ensures
        match (parse_message(parse), bind_fields(bind)) {
            (Some((name, query, _)), Some((portal, _, params))) => {
                &&& bound is Reply
                &&& portals_after.contains_key(portal)
                &&& portals_after[portal] == (substituted(query, params), name)
            },
            _ => false,
        },
{
}

/// A row limit loses no rows: the rows an `Execute` sends followed by the rows it
/// keeps for the next `Execute` are all the rows, and a suspended portal sends exactly
/// the limit.
pub proof fn law_execute_split_keeps_all_rows(rows: Seq<Row>, described: bool, max_rows: int)
    requires
        max_rows >= 0,
    ensures
        execute_split(rows, described, max_rows).1 ==> {
            &&& execute_split(rows, described, max_rows).0 + rows.skip(max_rows) == rows
            &&& execute_split(rows, described, max_rows).0.len() == max_rows
        },
        !execute_split(rows, described, max_rows).1 ==> execute_split(rows, described, max_rows).0 == rows,
{
    if execute_split(rows, described, max_rows).1 {
        assert(rows.take(max_rows) + rows.skip(max_rows) =~= rows);
    }
}

/// The batches a series of `Execute` calls on a described statement with row limit
/// `k` sends, starting from `rows`: the first `k` rows while more than `k` remain
/// (each call suspending the portal and keeping the rest), then all that is left.
pub open spec fn execute_batches(rows: Seq<Row>, k: int) -> Seq<Seq<Row>>
    decreases rows.len(),
{
    if k > 0 && rows.len() > k {
        seq![rows.take(k)] + execute_batches(rows.skip(k), k)
    } else {
        seq![rows]
    }
}

/// A series of `Execute` calls delivers every row once, in order: each call sends the
/// next batch (what `execute_split` gives for the rows still kept) and, while it
/// suspends, keeps exactly the rows the later calls send; the batches together are
/// all the rows, every batch but the last holds `k` rows, and the last ends the series.
pub proof fn law_execute_series_delivers_all_rows(rows: Seq<Row>, k: int)
    requires
        k >= 0,
    ensures
        execute_batches(rows, k).flatten() == rows,
        execute_batches(rows, k).len() >= 1,
        execute_split(rows, true, k).0 == execute_batches(rows, k)[0],
        execute_split(rows, true, k).1 == (execute_batches(rows, k).len() > 1),
        execute_split(rows, true, k).1 ==> execute_batches(rows, k).drop_first() == execute_batches(rows.skip(k), k),
        forall|i: int| 0 <= i < execute_batches(rows, k).len() - 1 ==> (#[trigger] execute_batches(rows, k)[i]).len() == k,
        !execute_split(execute_batches(rows, k).last(), true, k).1,
    decreases rows.len(),
{
    let b = execute_batches(rows, k);
    if k > 0 && rows.len() > k {
        let rest = rows.skip(k);
        law_execute_series_delivers_all_rows(rest, k);
        let rb = execute_batches(rest, k);
        assert(b == seq![rows.take(k)] + rb);
        assert(b.drop_first() =~= rb);
        assert(b.flatten() == b.first() + b.drop_first().flatten());
        assert(rows.take(k) + rest =~= rows);
        assert forall|i: int| 0 <= i < b.len() - 1 implies (#[trigger] b[i]).len() == k by {
            if i > 0 {
                assert(b[i] == rb[i - 1]);
            }
        }
        assert(b.last() == rb.last());
    } else {
        assert(b =~= seq![rows]);
        assert(b.drop_first() =~= Seq::<Seq<Row>>::empty());
        assert(b.flatten() == b.first() + b.drop_first().flatten());
        assert(rows + Seq::<Row>::empty() =~= rows);
    }
}

/// The output of an `Execute` with its rows known, and the leftover-row bookkeeping.
pub open spec fn execute_out(
    rows: Seq<Row>,
    describe: Option<Option<Seq<(Seq<char>, i32)>>>,
    max_rows: int,
    portal: Seq<char>,
    out: (Seq<u8>, Option<Seq<char>>),
    cursors_before: Map<Seq<char>, Seq<Row>>,
    cursors_after: Map<Seq<char>, Seq<Row>>,
) -> bool {
    let (sent, suspended) = execute_split(rows, describe is Some, max_rows);
    &&& cursors_after == (if suspended {
        cursors_before.insert(portal, rows.skip(max_rows))
    } else if describe is None {
        cursors_before.remove(portal)
    } else {
        cursors_before
    })
    &&& match describe {
        Some(Some(cols)) => skip_description_out(sent, cols.map_values(|c: (Seq<char>, i32)| c.0), suspended, out),
        Some(None) => skip_description_out(sent, seq![], suspended, out),
        None => full_result_out(rows, out),
    }
}

/// The fields of a `Parse` message: statement name, query, and parameter type OIDs
/// (a negative count means none).
pub open spec fn parse_message(b: Seq<u8>) -> Option<(Seq<char>, Seq<char>, Seq<i32>)> {
    match cstring_at(b, 0) {
        None => None,
        Some((name, p1)) => match cstring_at(b, p1) {
            None => None,
            Some((query, p2)) => match i16_at(b, p2) {
                None => None,
                Some(n) => if n <= 0 {
                    Some((name, query, seq![]))
                } else if p2 + 2 + 4 * n <= b.len() {
                    Some((name, query, oids_at(b, p2 + 2, n)))
                } else {
                    None
                },
            },
        },
    }
}

/// `n` big-endian `i32`s starting at `pos`.
pub open spec fn oids_at(b: Seq<u8>, pos: int, n: int) -> Seq<i32> {
    Seq::new(n as nat, |k: int| be_i32(b[pos + 4 * k], b[pos + 4 * k + 1], b[pos + 4 * k + 2], b[pos + 4 * k + 3]) as i32)
}

proof fn lemma_oids_at(b: Seq<u8>, pos: int, n: int, v: Seq<i32>)
    requires
        n > 0 ==> v.len() == n,
        n > 0 ==> pos + 4 * n <= b.len(),
        pos >= 0,
        forall|j: int| 0 <= j < v.len() ==> i32_at(b, pos + 4 * j) == Some(#[trigger] v[j] as int),
        n <= 0 ==> v.len() == 0,
    ensures
        n > 0 ==> v == oids_at(b, pos, n),
        n <= 0 ==> v == Seq::<i32>::empty(),
{
    if n > 0 {
        assert forall|j: int| 0 <= j < n implies v[j] == #[trigger] oids_at(b, pos, n)[j] by {
            assert(i32_at(b, pos + 4 * j) == Some(v[j] as int));
        }
        assert(v =~= oids_at(b, pos, n));
    } else {
        assert(v =~= Seq::<i32>::empty());
    }
}

} // verus!
