//! One PostgreSQL client connection as a state machine: the startup handshake,
//! cleartext password authentication, and the dispatch of frontend messages to the
//! extended query protocol. The caller reads and writes the socket and runs SQL; each
//! step here says what to send next and what to do.

use vstd::prelude::*;

use crate::pgwire::encode::{
    auth_ok, auth_request_cleartext, backend_key_data, be32, body_fits,
    command_complete, cstr, error_body, error_frame, frame, parameter_status, push_bytes,
    ready_for_query,
};
use crate::pgwire::message::{
    be_i32, cstring_missing_message, first_nul, i32_from_be, lookup_last, pairs_view,
    parse_cstring, parse_params, startup_param, startup_params_from,
};
use crate::pgwire::params::{command_tag_for_session_sql, is_session_sql, session_sql, session_tag};
use crate::pgwire::rows::{output_view, write_query_result, QueryOutput, Row};
use crate::pgwire::session::{
    bind_count_negative, bind_reply, close_reply, describe_reply, execute_out, execute_reply, full_result_out,
    parse_reply, portal_shape_reply, statement_shape_reply, BindStep, DescribeStep, ExecuteStep, PgSession,
};
use crate::text::{char_of_byte, chars_of, concat_chars, string_from_chars, trim, trim_chars};
use vstd::utf8::{decode_utf8, valid_utf8};

verus! {

broadcast use vstd::string::group_string_axioms;

/// Protocol version 3.0 in a startup packet.
pub const PROTOCOL_VERSION_3: i32 = 196608;

/// The code a client sends in place of a protocol version to ask for SSL.
pub const SSL_REQUEST_CODE: i32 = 80877103;

/// What to do after a startup packet.
pub enum StartupStep {
    /// Send these bytes (the refusal of SSL) and read the next startup packet.
    DeclineSsl(Vec<u8>),
    /// Send these bytes and close the connection.
    Reject(Vec<u8>),
    /// Send `reply` (the request for a cleartext password) and read the password
    /// message; `params` are the startup parameters in packet order.
    AskPassword { reply: Vec<u8>, params: Vec<(String, String)> },
    /// Close the connection without a reply.
    Close,
}

/// What to do after the password message.
pub enum AuthStep {
    /// Send these bytes and close the connection.
    Reject(Vec<u8>),
    /// Send these bytes and serve queries.
    Accept(Vec<u8>),
    /// Close the connection without a reply.
    Close,
}

/// What to do after a frontend message, or after SQL the caller ran.
pub enum ConnStep {
    /// Send these bytes and read the next message.
    Send(Vec<u8>),
    /// Send nothing and read the next message.
    Ignore,
    /// Flush what was sent and read the next message.
    Flush,
    /// Close the connection without a reply.
    Close,
    /// Run `sql` as a simple query, then call `finish_query` with the result.
    RunQuery { sql: String },
    /// Send `sent`, run `sql` for a sample of its rows, then call
    /// `finish_statement_describe` with `name` and the result.
    DescribeStatement { sent: Vec<u8>, name: String, sql: String },
    /// Run `sql` for a sample of its rows, then call `finish_portal_describe`.
    DescribePortal { sql: String },
    /// Run `sql` (unless rows are pending), then call `finish_execute` with the portal,
    /// statement and row limit.
    RunPortal { portal: String, statement: String, max_rows: i32, sql: String },
}

/// `ReadyForQuery` with the idle status.
pub open spec fn ready_bytes() -> Seq<u8> {
    frame(0x5a, seq![0x49u8])
}

/// The step sends exactly `bytes`.
pub open spec fn sends(r: ConnStep, bytes: Seq<u8>) -> bool {
    r matches ConnStep::Send(b) && b@ == bytes
}

/// An error `m` answered with an `ErrorResponse` with SQLSTATE `code`, followed by
/// `tail`; a message too long to frame closes the connection.
pub open spec fn error_coded(code: Seq<char>, m: Seq<char>, tail: Seq<u8>, r: ConnStep) -> bool {
    if body_fits(error_body(code, m)) {
        sends(r, frame(0x45, error_body(code, m)) + tail)
    } else {
        r is Close
    }
}

/// An internal error `m` (SQLSTATE `XX000`) answered as by `error_coded`.
pub open spec fn error_then(m: Seq<char>, tail: Seq<u8>, r: ConnStep) -> bool {
    error_coded("XX000"@, m, tail, r)
}

/// Bytes of a result, then its error (if any) as an `ErrorResponse`, then `tail`.
pub open spec fn output_then(out: (Seq<u8>, Option<Seq<char>>), tail: Seq<u8>, r: ConnStep) -> bool {
    match out.1 {
        None => sends(r, out.0 + tail),
        Some(m) => if body_fits(error_body("XX000"@, m)) {
            sends(r, out.0 + frame(0x45, error_body("XX000"@, m)) + tail)
        } else {
            r is Close
        },
    }
}

/// The length of a startup packet's body, from the packet's length field.
pub open spec fn startup_body_size(len: i32) -> Option<int> {
    if len < 8 {
        None
    } else {
        Some(len - 4)
    }
}

/// The length of a frontend message's payload, from its length field.
pub open spec fn payload_size(len: i32) -> Option<int> {
    if len < 4 {
        None
    } else {
        Some(len - 4)
    }
}

/// The protocol version (or request code) at the start of a startup packet body.
pub open spec fn startup_version(body: Seq<u8>) -> int {
    be_i32(body[0], body[1], body[2], body[3])
}

/// The reply to a startup packet body; `after_ssl` when SSL was already refused.
pub open spec fn startup_reply(body: Seq<u8>, after_ssl: bool, r: StartupStep) -> bool {
    let v = startup_version(body);
    if v == SSL_REQUEST_CODE && !after_ssl {
        r matches StartupStep::DeclineSsl(b) && b@ == seq![0x4eu8]
    } else if v != PROTOCOL_VERSION_3 {
        r matches StartupStep::Reject(b) && b@ == frame(0x45, error_body("08P01"@, "unsupported protocol version"@))
    } else {
        match startup_params_from(body.skip(4), 0) {
            Err(_) => r is Close,
            Ok(ps) => r matches StartupStep::AskPassword { reply, params } && reply@ == frame(0x52, be32(3))
                && pairs_view(params@) == ps,
        }
    }
}

/// The bytes sent once a client is authenticated: `AuthenticationOk`, the server's
/// parameters, the backend key and `ReadyForQuery`.
pub open spec fn welcome_bytes() -> Seq<u8> {
    frame(0x52, be32(0)) + frame(0x53, cstr("server_version"@) + cstr("16.0"@)) + frame(
        0x53,
        cstr("client_encoding"@) + cstr("UTF8"@),
    ) + frame(0x53, cstr("DateStyle"@) + cstr("ISO, MDY"@)) + frame(0x4b, be32(1) + be32(1)) + ready_bytes()
}

/// The reply to the password message: the user named at startup (empty when none)
/// and the password must both match.
pub open spec fn auth_reply(
    params: Seq<(Seq<char>, Seq<char>)>,
    tag: u8,
    payload: Seq<u8>,
    expected_user: Seq<char>,
    expected_password: Seq<char>,
    r: AuthStep,
) -> bool {
    if tag != 0x70 {
        r is Close
    } else {
        match first_nul(payload, 0) {
            None => r is Close,
            Some(k) => if !valid_utf8(payload.subrange(0, k)) {
                r is Close
            } else {
                let password = decode_utf8(payload.subrange(0, k));
                let user = match lookup_last(params, "user"@) {
                    Some(u) => u,
                    None => Seq::<char>::empty(),
                };
                if user != expected_user || password != expected_password {
                    r matches AuthStep::Reject(b) && b@ == frame(
                        0x45,
                        error_body("28P01"@, "invalid user or password"@),
                    )
                } else {
                    r matches AuthStep::Accept(b) && b@ == welcome_bytes()
                }
            },
        }
    }
}

/// The reply to a simple `Query` message.
pub open spec fn simple_query_reply(payload: Seq<u8>, r: ConnStep) -> bool {
    match first_nul(payload, 0) {
        None => error_then(cstring_missing_message(), ready_bytes(), r),
        Some(k) => if !valid_utf8(payload.subrange(0, k)) {
            exists|m: Seq<char>| #[trigger] error_then(m, ready_bytes(), r)
        } else {
            let sql = trim(decode_utf8(payload.subrange(0, k)));
            if sql.len() == 0 {
                sends(r, frame(0x43, cstr("EMPTY QUERY"@)) + ready_bytes())
            } else if session_sql(sql) {
                sends(r, frame(0x43, cstr(session_tag(sql))) + ready_bytes())
            } else {
                r matches ConnStep::RunQuery { sql: q } && q@ == sql
            }
        },
    }
}

/// How a `Describe` step of the session becomes a connection step; `discard` tells
/// whether messages are skipped until the next `Sync`.
pub open spec fn describe_step(d: DescribeStep, r: ConnStep, discard: bool) -> bool {
    match d {
        DescribeStep::Reply(b) => sends(r, b@) && !discard,
        DescribeStep::Fail(m) => error_then(m@, seq![], r) && discard,
        DescribeStep::NeedStatementShape { sent, name, sql } => !discard && (r matches ConnStep::DescribeStatement {
            sent: s,
            name: n,
            sql: q,
        } && s@ == sent@ && n@ == name@ && q@ == sql@),
        DescribeStep::NeedPortalShape { sql } => !discard && (r matches ConnStep::DescribePortal { sql: q } && q@ == sql@),
        DescribeStep::Abort => r is Close,
    }
}

/// How a `Bind` step of the session becomes a connection step.
pub open spec fn bind_step(b: BindStep, r: ConnStep, discard: bool) -> bool {
    match b {
        BindStep::Reply(x) => sends(r, x@) && !discard,
        BindStep::Fail(m) => error_then(m@, seq![], r) && discard,
        BindStep::Abort => r is Close,
    }
}

/// How an `Execute` step of the session becomes a connection step.
pub open spec fn execute_step(e: ExecuteStep, r: ConnStep, discard: bool) -> bool {
    match e {
        ExecuteStep::Reply(x) => sends(r, x@) && !discard,
        ExecuteStep::Fail(m) => error_then(m@, seq![], r) && discard,
        ExecuteStep::Output(o) => output_then(output_view(o), seq![], r) && discard == (o.error is Some),
        ExecuteStep::NeedRows { portal, statement, max_rows, sql } => !discard && (r matches ConnStep::RunPortal {
            portal: p,
            statement: s,
            max_rows: m,
            sql: q,
        } && p@ == portal@ && s@ == statement@ && m == max_rows && q@ == sql@),
    }
}

/// How a `Parse` or `Close` reply of the session becomes a connection step.
pub open spec fn result_step(x: Result<Vec<u8>, String>, r: ConnStep, discard: bool) -> bool {
    match x {
        Ok(b) => sends(r, b@) && !discard,
        Err(m) => error_then(m@, seq![], r) && discard,
    }
}

/// What `Describe` told the client about a statement, if it was described.
pub open spec fn described(
    describes: Map<Seq<char>, Option<Seq<(Seq<char>, i32)>>>,
    name: Seq<char>,
) -> Option<Option<Seq<(Seq<char>, i32)>>> {
    if describes.contains_key(name) {
        Some(describes[name])
    } else {
        None
    }
}

/// The error for a frontend message type the server does not handle.
pub open spec fn unsupported_message(tag: u8) -> Seq<char> {
    "unsupported PostgreSQL frontend message (tag "@ + seq![(tag as u32) as char] + ")"@
}

/// The reply to a frontend message of type `tag` while messages are not skipped, and
/// what it does to the session; `discard` tells whether messages are skipped after it.
pub open spec fn message_reply(s: PgSession, tag: u8, payload: Seq<u8>, r: ConnStep, t: PgSession, discard: bool) -> bool {
    if tag == 0x51 {
        simple_query_reply(payload, r) && t == s && !discard
    } else if tag == 0x50 {
        &&& t.portals() == s.portals()
        &&& t.cursors() == s.cursors()
        &&& exists|x: Result<Vec<u8>, String>| #[trigger] parse_reply(payload, x, s.statements(), t.statements(), s.describes(), t.describes())
            && result_step(x, r, discard)
    } else if tag == 0x42 {
        &&& t.statements() == s.statements()
        &&& t.describes() == s.describes()
        &&& exists|b: BindStep| #[trigger] bind_reply(s.statements(), payload, b, s.portals(), t.portals(), s.cursors(), t.cursors())
            && bind_step(b, r, discard)
    } else if tag == 0x44 {
        &&& t.statements() == s.statements()
        &&& t.portals() == s.portals()
        &&& t.cursors() == s.cursors()
        &&& exists|d: DescribeStep| #[trigger] describe_reply(s.statements(), s.portals(), payload, d, s.describes(), t.describes())
            && describe_step(d, r, discard)
    } else if tag == 0x45 {
        &&& t.statements() == s.statements()
        &&& t.portals() == s.portals()
        &&& t.describes() == s.describes()
        &&& exists|e: ExecuteStep| #[trigger] execute_reply(s.portals(), s.describes(), payload, e, s.cursors(), t.cursors())
            && execute_step(e, r, discard)
    } else if tag == 0x43 {
        exists|x: Result<Vec<u8>, String>| #[trigger] close_reply(
            payload,
            x,
            s.statements(),
            t.statements(),
            s.portals(),
            t.portals(),
            s.describes(),
            t.describes(),
            s.cursors(),
            t.cursors(),
        ) && result_step(x, r, discard)
    } else if tag == 0x48 {
        r is Flush && t == s && !discard
    } else if tag == 0x53 {
        sends(r, ready_bytes()) && t == s && !discard
    } else if tag == 0x58 {
        r is Close && t == s
    } else {
        error_coded("0A000"@, unsupported_message(tag), seq![], r) && t == s && discard
    }
}

/// Decides the reply to a simple `Query` message.
pub fn simple_query(payload: &[u8]) -> (r: ConnStep)
    ensures
        simple_query_reply(payload@, r),
{
    let text = match parse_cstring(payload) {
        Ok(t) => t,
        Err(m) => {
            let r = error_with(m.as_str(), &ready_for_query());
            assert(error_then(m@, ready_bytes(), r));
            return r;
        },
    };
    let trimmed = trim_chars(&chars_of(text.as_str()));
    let sql = string_from_chars(&trimmed);
    if trimmed.len() == 0 {
        proof {
            reveal_strlit("EMPTY QUERY");
            lemma_ascii_fits("EMPTY QUERY"@);
        }
        let mut out = command_complete("EMPTY QUERY");
        push_bytes(&mut out, &ready_for_query());
        return ConnStep::Send(out);
    }
    if is_session_sql(sql.as_str()) {
        let tag = command_tag_for_session_sql(sql.as_str());
        proof {
            crate::pgwire::session::lemma_session_tag_fits(sql@);
        }
        let mut out = command_complete(tag);
        push_bytes(&mut out, &ready_for_query());
        return ConnStep::Send(out);
    }
    ConnStep::RunQuery { sql }
}

/// Ends a simple query with the rows of the run (or its error), then `ReadyForQuery`.
pub fn finish_query(rows: Result<Vec<Row>, String>) -> (r: ConnStep)
    ensures
        match rows {
            Err(e) => error_then(e@, ready_bytes(), r),
            Ok(v) => exists|o: (Seq<u8>, Option<Seq<char>>)|
                #[trigger] full_result_out(v@, o) && output_then(o, ready_bytes(), r),
        },
{
    match rows {
        Err(e) => error_with(e.as_str(), &ready_for_query()),
        Ok(v) => {
            let out = write_query_result(&v);
            let ghost ov = output_view(out);
            let r = output_with(out, &ready_for_query());
            proof {
                if v@.len() > 0 && v@[0] is NotObject {
                    assert(ov.0 =~= Seq::<u8>::empty());
                }
                assert(full_result_out(v@, ov));
            }
            r
        },
    }
}

/// The length of a startup packet's body, or `None` for a length field below the
/// minimum, on which the connection is closed.
pub fn startup_body_len(len: i32) -> (r: Option<usize>)
    ensures
        match startup_body_size(len) {
            None => r is None,
            Some(n) => r == Some(n as usize),
        },
{
    if len < 8 {
        None
    } else {
        Some((len - 4) as usize)
    }
}

/// The length of a frontend message's payload, or `None` for a length field below
/// the minimum, on which the connection is closed.
pub fn payload_len(len: i32) -> (r: Option<usize>)
    ensures
        match payload_size(len) {
            None => r is None,
            Some(n) => r == Some(n as usize),
        },
{
    if len < 4 {
        None
    } else {
        Some((len - 4) as usize)
    }
}

proof fn lemma_ascii_fits(s: Seq<char>)
    requires
        vstd::utf8::is_ascii_chars(s),
        s.len() < 1000,
    ensures
        crate::pgwire::encode::utf8(s).len() == s.len(),
{
    vstd::utf8::is_ascii_chars_encode_utf8(s);
}

/// Decides the reply to a startup packet body (the bytes after its length field).
pub fn startup_step(body: &[u8], after_ssl: bool) -> (r: StartupStep)
    requires
        body@.len() >= 4,
    ensures
        startup_reply(body@, after_ssl, r),
{
    let v = i32_from_be(body[0], body[1], body[2], body[3]);
    if v == SSL_REQUEST_CODE && !after_ssl {
        let mut b: Vec<u8> = Vec::new();
        b.push(0x4e);
        assert(b@ =~= seq![0x4eu8]);
        return StartupStep::DeclineSsl(b);
    }
    if v != PROTOCOL_VERSION_3 {
        proof {
            reveal_strlit("08P01");
            reveal_strlit("unsupported protocol version");
            reveal_strlit("ERROR");
            lemma_ascii_fits("08P01"@);
            lemma_ascii_fits("unsupported protocol version"@);
            lemma_ascii_fits("ERROR"@);
        }
        return match error_frame("08P01", "unsupported protocol version") {
            Some(b) => StartupStep::Reject(b),
            None => StartupStep::Close,
        };
    }
    let rest = &body[4..body.len()];
    assert(rest@ =~= body@.skip(4));
    match parse_params(rest) {
        Err(_) => StartupStep::Close,
        Ok(params) => StartupStep::AskPassword { reply: auth_request_cleartext(), params },
    }
}

/// Decides the reply to the password message, given the startup parameters and the
/// credentials the server accepts.
pub fn auth_step(params: &[(String, String)], tag: u8, payload: &[u8], expected_user: &str, expected_password: &str) -> (r:
    AuthStep)
    ensures
        auth_reply(pairs_view(params@), tag, payload@, expected_user@, expected_password@, r),
{
    if tag != 0x70 {
        return AuthStep::Close;
    }
    let password = match parse_cstring(payload) {
        Ok(p) => p,
        Err(_) => {
            return AuthStep::Close;
        },
    };
    let user = match startup_param(params, "user") {
        Some(u) => u,
        None => String::new(),
    };
    let same_user = crate::pgwire::message::chars_eq(&chars_of(user.as_str()), &chars_of(expected_user));
    let same_password = crate::pgwire::message::chars_eq(&chars_of(password.as_str()), &chars_of(expected_password));
    if !same_user || !same_password {
        proof {
            reveal_strlit("28P01");
            reveal_strlit("invalid user or password");
            reveal_strlit("ERROR");
            lemma_ascii_fits("28P01"@);
            lemma_ascii_fits("invalid user or password"@);
            lemma_ascii_fits("ERROR"@);
        }
        return match error_frame("28P01", "invalid user or password") {
            Some(b) => AuthStep::Reject(b),
            None => AuthStep::Close,
        };
    }
    proof {
        reveal_strlit("server_version");
        reveal_strlit("16.0");
        reveal_strlit("client_encoding");
        reveal_strlit("UTF8");
        reveal_strlit("DateStyle");
        reveal_strlit("ISO, MDY");
        lemma_ascii_fits("server_version"@);
        lemma_ascii_fits("16.0"@);
        lemma_ascii_fits("client_encoding"@);
        lemma_ascii_fits("UTF8"@);
        lemma_ascii_fits("DateStyle"@);
        lemma_ascii_fits("ISO, MDY"@);
    }
    let mut out = auth_ok();
    push_bytes(&mut out, &parameter_status("server_version", "16.0"));
    push_bytes(&mut out, &parameter_status("client_encoding", "UTF8"));
    push_bytes(&mut out, &parameter_status("DateStyle", "ISO, MDY"));
    push_bytes(&mut out, &backend_key_data(1, 1));
    push_bytes(&mut out, &ready_for_query());
    AuthStep::Accept(out)
}

/// An internal error answered with an `ErrorResponse`, then `tail`.
fn error_with(m: &str, tail: &[u8]) -> (r: ConnStep)
    ensures
        error_then(m@, tail@, r),
{
    coded_error_with("XX000", m, tail)
}

/// An error with SQLSTATE `code` answered with an `ErrorResponse`, then `tail`.
fn coded_error_with(code: &str, m: &str, tail: &[u8]) -> (r: ConnStep)
    ensures
        error_coded(code@, m@, tail@, r),
{
    match error_frame(code, m) {
        Some(b) => {
            let mut out = b;
            push_bytes(&mut out, tail);
            ConnStep::Send(out)
        },
        None => ConnStep::Close,
    }
}

/// The bytes of a result, then its error as an `ErrorResponse`, then `tail`.
fn output_with(o: QueryOutput, tail: &[u8]) -> (r: ConnStep)
    ensures
        output_then(output_view(o), tail@, r),
{
    let mut out = o.bytes;
    match o.error {
        None => {
            push_bytes(&mut out, tail);
            ConnStep::Send(out)
        },
        Some(m) => match error_frame("XX000", m.as_str()) {
            Some(b) => {
                push_bytes(&mut out, &b);
                push_bytes(&mut out, tail);
                ConnStep::Send(out)
            },
            None => ConnStep::Close,
        },
    }
}

/// One frontend message of type `tag` handled: while messages are skipped only `Sync`
/// is answered (with `ReadyForQuery`, ending the skipping) and anything else is
/// ignored; otherwise the reply and the session's change are as `message_reply` says.
pub open spec fn message_step(before: Connection, tag: u8, payload: Seq<u8>, r: ConnStep, after: Connection) -> bool {
    &&& before.discarding() ==> {
        &&& after.session() == before.session()
        &&& if tag == 0x53 {
            sends(r, ready_bytes()) && !after.discarding()
        } else {
            r is Ignore && after.discarding()
        }
    }
    &&& !before.discarding() ==> message_reply(before.session(), tag, payload, r, after.session(), after.discarding())
}

/// After an error, over any sequence of messages: every message before the next
/// `Sync` (a `Terminate` included) is ignored, with nothing sent and the session
/// unchanged; that `Sync` is answered with `ReadyForQuery` and ends the skipping.
pub proof fn law_errors_skip_until_sync(
    conns: Seq<Connection>,
    tags: Seq<u8>,
    payloads: Seq<Seq<u8>>,
    replies: Seq<ConnStep>,
)
    requires
        conns.len() == tags.len() + 1,
        payloads.len() == tags.len(),
        replies.len() == tags.len(),
        forall|i: int| 0 <= i < tags.len() ==> message_step(conns[i], tags[i], payloads[i], #[trigger] replies[i], conns[i + 1]),
        conns[0].discarding(),
    ensures
        forall|i: int|
            0 <= i < tags.len() && (forall|j: int| 0 <= j <= i ==> tags[j] != 0x53) ==> {
                &&& #[trigger] replies[i] is Ignore
                &&& conns[i + 1].discarding()
                &&& conns[i + 1].session() == conns[0].session()
            },
        forall|i: int|
            0 <= i < tags.len() && #[trigger] tags[i] == 0x53 && (forall|j: int| 0 <= j < i ==> tags[j] != 0x53) ==> {
                &&& sends(replies[i], ready_bytes())
                &&& !conns[i + 1].discarding()
                &&& conns[i + 1].session() == conns[0].session()
            },
{
    assert forall|i: int|
        0 <= i < tags.len() && (forall|j: int| 0 <= j <= i ==> tags[j] != 0x53) implies {
            &&& #[trigger] replies[i] is Ignore
            &&& conns[i + 1].discarding()
            &&& conns[i + 1].session() == conns[0].session()
        } by {
        lemma_skip_prefix(conns, tags, payloads, replies, i);
        let r = replies[i];
        assert(message_step(conns[i], tags[i], payloads[i], r, conns[i + 1]));
    }
    assert forall|i: int|
        0 <= i < tags.len() && #[trigger] tags[i] == 0x53 && (forall|j: int| 0 <= j < i ==> tags[j] != 0x53) implies {
            &&& sends(replies[i], ready_bytes())
            &&& !conns[i + 1].discarding()
            &&& conns[i + 1].session() == conns[0].session()
        } by {
        lemma_skip_prefix(conns, tags, payloads, replies, i);
        let r = replies[i];
        assert(message_step(conns[i], tags[i], payloads[i], r, conns[i + 1]));
    }
}

proof fn lemma_skip_prefix(conns: Seq<Connection>, tags: Seq<u8>, payloads: Seq<Seq<u8>>, replies: Seq<ConnStep>, i: int)
    requires
        conns.len() == tags.len() + 1,
        payloads.len() == tags.len(),
        replies.len() == tags.len(),
        forall|k: int| 0 <= k < tags.len() ==> message_step(conns[k], tags[k], payloads[k], #[trigger] replies[k], conns[k + 1]),
        conns[0].discarding(),
        0 <= i <= tags.len(),
        forall|j: int| 0 <= j < i ==> tags[j] != 0x53,
    ensures
        conns[i].discarding(),
        conns[i].session() == conns[0].session(),
    decreases i,
{
    if i > 0 {
        lemma_skip_prefix(conns, tags, payloads, replies, i - 1);
        let r = replies[i - 1];
        assert(message_step(conns[i - 1], tags[i - 1], payloads[i - 1], r, conns[i]));
    }
}

/// The state of an authenticated connection: the extended query protocol state and
/// whether messages are skipped until the next `Sync` after an error.
pub struct Connection {
    session: PgSession,
    discard_until_sync: bool,
}

impl Connection {
    pub closed spec fn wf(&self) -> bool {
        self.session.wf()
    }

    /// The extended query protocol state.
    pub closed spec fn session(&self) -> PgSession {
        self.session
    }

    /// Whether messages are skipped until the next `Sync`.
    pub closed spec fn discarding(&self) -> bool {
        self.discard_until_sync
    }

    /// A fresh connection: no statements, portals or pending rows, nothing skipped.
    pub fn new() -> (r: Self)
        ensures
            r.wf(),
            !r.discarding(),
            r.session().statements().is_empty(),
            r.session().portals().is_empty(),
            r.session().describes().is_empty(),
            r.session().cursors().is_empty(),
    {
        Connection { session: PgSession::new(), discard_until_sync: false }
    }

    /// Whether messages are skipped until the next `Sync`.
    pub fn is_discarding(&self) -> (r: bool)
        ensures
            r == self.discarding(),
    {
        self.discard_until_sync
    }

    /// An internal error: answered with an `ErrorResponse`, after which messages are
    /// skipped until the next `Sync`.
    fn fail(&mut self, m: &str) -> (r: ConnStep)
        ensures
            final(self).session() == old(self).session(),
            final(self).discarding(),
            error_then(m@, seq![], r),
    {
        self.fail_coded("XX000", m)
    }

    /// An error with SQLSTATE `code`, after which messages are skipped until `Sync`.
    fn fail_coded(&mut self, code: &str, m: &str) -> (r: ConnStep)
        ensures
            final(self).session() == old(self).session(),
            final(self).discarding(),
            error_coded(code@, m@, seq![], r),
    {
        self.discard_until_sync = true;
        let none: Vec<u8> = Vec::new();
        assert(none@ =~= Seq::<u8>::empty());
        coded_error_with(code, m, &none)
    }

    /// Decides what to do with a frontend message of type `tag`.
    pub fn on_message(&mut self, tag: u8, payload: &[u8]) -> (r: ConnStep)
        requires
            old(self).wf(),
            !old(self).discarding() && tag == 0x42 ==> !bind_count_negative(payload@),
        ensures
            final(self).wf(),
            message_step(*old(self), tag, payload@, r, *final(self)),
    {
        if self.discard_until_sync {
            if tag == 0x53 {
                self.discard_until_sync = false;
                return ConnStep::Send(ready_for_query());
            }
            return ConnStep::Ignore;
        }
        if tag == 0x51 {
            return simple_query(payload);
        }
        if tag == 0x50 {
            let x = self.session.handle_parse(payload);
            return self.from_result(x);
        }
        if tag == 0x42 {
            let b = self.session.handle_bind(payload);
            return match b {
                BindStep::Reply(x) => ConnStep::Send(x),
                BindStep::Fail(m) => self.fail(m.as_str()),
                BindStep::Abort => ConnStep::Close,
            };
        }
        if tag == 0x44 {
            let d = self.session.handle_describe(payload);
            return match d {
                DescribeStep::Reply(x) => ConnStep::Send(x),
                DescribeStep::Fail(m) => self.fail(m.as_str()),
                DescribeStep::NeedStatementShape { sent, name, sql } => ConnStep::DescribeStatement { sent, name, sql },
                DescribeStep::NeedPortalShape { sql } => ConnStep::DescribePortal { sql },
                DescribeStep::Abort => ConnStep::Close,
            };
        }
        if tag == 0x45 {
            let e = self.session.handle_execute(payload);
            return match e {
                ExecuteStep::Reply(x) => ConnStep::Send(x),
                ExecuteStep::Fail(m) => self.fail(m.as_str()),
                ExecuteStep::Output(o) => {
                    self.discard_until_sync = o.error.is_some();
                    let none: Vec<u8> = Vec::new();
                    assert(none@ =~= Seq::<u8>::empty());
                    output_with(o, &none)
                },
                ExecuteStep::NeedRows { portal, statement, max_rows, sql } => ConnStep::RunPortal {
                    portal,
                    statement,
                    max_rows,
                    sql,
                },
            };
        }
        if tag == 0x43 {
            let x = self.session.handle_close(payload);
            return self.from_result(x);
        }
        if tag == 0x48 {
            return ConnStep::Flush;
        }
        if tag == 0x53 {
            return ConnStep::Send(ready_for_query());
        }
        if tag == 0x58 {
            return ConnStep::Close;
        }
        let mut c: Vec<char> = Vec::new();
        c.push(char_of_byte(tag));
        let m = string_from_chars(
            &concat_chars(&concat_chars(&chars_of("unsupported PostgreSQL frontend message (tag "), &c), &chars_of(")")),
        );
        proof {
            assert(c@ =~= seq![(tag as u32) as char]);
        }
        self.fail_coded("0A000", m.as_str())
    }

    /// Ends a statement `Describe` with the rows of the sample run (or its error).
    pub fn finish_statement_describe(&mut self, name: String, rows: Result<Vec<Row>, String>) -> (r: ConnStep)
        requires
            old(self).wf(),
            !old(self).discarding(),
        ensures
            final(self).wf(),
            final(self).session().statements() == old(self).session().statements(),
            final(self).session().portals() == old(self).session().portals(),
            final(self).session().cursors() == old(self).session().cursors(),
            exists|x: Result<Vec<u8>, String>| #[trigger] statement_shape_reply(
                name@,
                rows,
                x,
                old(self).session().describes(),
                final(self).session().describes(),
            ) && result_step(x, r, final(self).discarding()),
    {
        let ghost n = name@;
        let x = self.session.finish_statement_describe(name, rows);
        assert(statement_shape_reply(n, rows, x, old(self).session().describes(), self.session().describes()));
        self.from_result(x)
    }

    /// Ends a portal `Describe` with the rows of the sample run (or its error).
    pub fn finish_portal_describe(&mut self, rows: Result<Vec<Row>, String>) -> (r: ConnStep)
        requires
            old(self).wf(),
            !old(self).discarding(),
        ensures
            final(self).wf(),
            final(self).session() == old(self).session(),
            exists|x: Result<Vec<u8>, String>| #[trigger] portal_shape_reply(rows, x) && result_step(
                x,
                r,
                final(self).discarding(),
            ),
    {
        let x = self.session.finish_portal_describe(rows);
        self.from_result(x)
    }

    /// Ends an `Execute` with the rows of the run (or its error).
    pub fn finish_execute(&mut self, portal: String, statement: String, max_rows: i32, rows: Result<Vec<Row>, String>) -> (r:
        ConnStep)
        requires
            old(self).wf(),
            !old(self).discarding(),
            max_rows >= 0,
        ensures
            final(self).wf(),
            final(self).session().statements() == old(self).session().statements(),
            final(self).session().portals() == old(self).session().portals(),
            final(self).session().describes() == old(self).session().describes(),
            match rows {
                Err(e) => error_then(e@, seq![], r) && final(self).discarding() && final(self).session().cursors()
                    == old(self).session().cursors(),
                Ok(v) => exists|o: (Seq<u8>, Option<Seq<char>>)|
                    #[trigger] execute_out(
                        v@,
                        described(old(self).session().describes(), statement@),
                        max_rows as int,
                        portal@,
                        o,
                        old(self).session().cursors(),
                        final(self).session().cursors(),
                    ) && output_then(o, seq![], r) && final(self).discarding() == (o.1 is Some),
            },
    {
        let ghost pv = portal@;
        let ghost sv = statement@;
        let ghost rv = rows;
        let out = self.session.finish_execute(portal, statement, max_rows, rows);
        self.discard_until_sync = out.error.is_some();
        let none: Vec<u8> = Vec::new();
        assert(none@ =~= Seq::<u8>::empty());
        let ghost ov = output_view(out);
        let r = output_with(out, &none);
        proof {
            match rv {
                Err(e) => {
                    assert(ov.0 =~= Seq::<u8>::empty());
                    assert(ov.0 + frame(0x45, error_body("XX000"@, e@)) + Seq::<u8>::empty() =~= frame(
                        0x45,
                        error_body("XX000"@, e@),
                    ) + Seq::<u8>::empty());
                },
                Ok(v) => {
                    assert(execute_out(
                        v@,
                        described(old(self).session().describes(), sv),
                        max_rows as int,
                        pv,
                        ov,
                        old(self).session().cursors(),
                        self.session().cursors(),
                    ));
                },
            }
        }
        r
    }

    fn from_result(&mut self, x: Result<Vec<u8>, String>) -> (r: ConnStep)
        requires
            !old(self).discarding(),
        ensures
            final(self).session() == old(self).session(),
            result_step(x, r, final(self).discarding()),
    {
        match x {
            Ok(b) => ConnStep::Send(b),
            Err(m) => self.fail(m.as_str()),
        }
    }
}

} // verus!
