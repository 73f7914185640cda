use opensnow::pgwire::conn::{
    auth_step, finish_query, payload_len, simple_query, startup_body_len, startup_step, AuthStep,
    ConnStep, Connection, StartupStep,
};
use opensnow::pgwire::encode::{
    command_complete, error_frame, error_response, frame_message, parameter_status, ready_for_query,
    row_description,
};
use opensnow::pgwire::message::{parse_cstring, parse_params, startup_param, MsgBuf};
use opensnow::pgwire::params::{
    decode_param, is_session_sql, command_tag_for_session_sql, param_format_code,
    resolved_statement_param_oids, PreparedStatement,
};
use opensnow::pgwire::rows::{write_query_result, Cell, Row};
use opensnow::pgwire::session::{bind_count_is_negative, BindStep, DescribeStep, ExecuteStep, PgSession};

fn cstr(s: &str) -> Vec<u8> {
    let mut v = s.as_bytes().to_vec();
    v.push(0);
    v
}

fn i16b(v: i16) -> Vec<u8> {
    v.to_be_bytes().to_vec()
}

fn i32b(v: i32) -> Vec<u8> {
    v.to_be_bytes().to_vec()
}

/// Splits a byte stream into (tag, body) frames.
fn frames(bytes: &[u8]) -> Vec<(u8, Vec<u8>)> {
    let mut out = Vec::new();
    let mut i = 0;
    while i < bytes.len() {
        let tag = bytes[i];
        let len = i32::from_be_bytes([bytes[i + 1], bytes[i + 2], bytes[i + 3], bytes[i + 4]]) as usize;
        out.push((tag, bytes[i + 5..i + 1 + len].to_vec()));
        i += 1 + len;
    }
    out
}

fn row(k: &str) -> Row {
    Row::Object(vec![("k".to_string(), Cell::Text(k.to_string()))])
}

fn parse_payload(name: &str, query: &str, oids: &[i32]) -> Vec<u8> {
    let mut p = cstr(name);
    p.extend(cstr(query));
    p.extend(i16b(oids.len() as i16));
    for o in oids {
        p.extend(i32b(*o));
    }
    p
}

fn bind_payload(portal: &str, stmt: &str, params: &[Option<&str>]) -> Vec<u8> {
    let mut p = cstr(portal);
    p.extend(cstr(stmt));
    p.extend(i16b(0));
    p.extend(i16b(params.len() as i16));
    for v in params {
        match v {
            Some(s) => {
                p.extend(i32b(s.len() as i32));
                p.extend(s.as_bytes());
            }
            None => p.extend(i32b(-1)),
        }
    }
    p.extend(i16b(0));
    p
}

fn execute_payload(portal: &str, max_rows: i32) -> Vec<u8> {
    let mut p = cstr(portal);
    p.extend(i32b(max_rows));
    p
}

#[test]
fn portal_row_batch_split_for_max_rows() {
    let mut s = PgSession::new();
    assert!(s.handle_parse(&parse_payload("s1", "SELECT k FROM t", &[])).is_ok());
    let mut d = vec![b'S'];
    d.extend(cstr("s1"));
    match s.handle_describe(&d) {
        DescribeStep::NeedStatementShape { name, .. } => {
            assert!(s.finish_statement_describe(name, Ok(vec![row("1")])).is_ok());
        }
        _ => panic!("expected a sample run"),
    }
    match s.handle_bind(&bind_payload("", "s1", &[])) {
        BindStep::Reply(b) => assert_eq!(b, vec![b'2', 0, 0, 0, 4]),
        _ => panic!("bind failed"),
    }
    let first = match s.handle_execute(&execute_payload("", 2)) {
        ExecuteStep::NeedRows { portal, statement, max_rows, .. } => {
            s.finish_execute(portal, statement, max_rows, Ok(vec![row("1"), row("2"), row("3")]))
        }
        _ => panic!("expected a run"),
    };
    let f = frames(&first.bytes);
    assert_eq!(f.iter().filter(|(t, _)| *t == b'D').count(), 2);
    assert_eq!(f.last().unwrap().0, b's');
    let rest = match s.handle_execute(&execute_payload("", 2)) {
        ExecuteStep::Output(o) => o,
        _ => panic!("expected the kept rows"),
    };
    let f = frames(&rest.bytes);
    assert_eq!(f.iter().filter(|(t, _)| *t == b'D').count(), 1);
    assert_eq!(f.last().unwrap(), &(b'C', cstr("SELECT 1")));
}

#[test]
fn message_buffer_reads_fields_in_order() {
    let mut payload = cstr("name");
    payload.extend(i16b(-2));
    payload.extend(i32b(70000));
    payload.extend(vec![1, 2, 3]);
    let mut b = MsgBuf::new(&payload);
    assert_eq!(b.read_cstring().unwrap(), "name");
    assert_eq!(b.read_i16().unwrap(), -2);
    assert_eq!(b.read_i32().unwrap(), 70000);
    assert_eq!(b.read_bytes(3).unwrap(), vec![1, 2, 3]);
    assert_eq!(b.read_i16().unwrap_err(), "parse underflow");
}

#[test]
fn message_buffer_reports_missing_terminator() {
    let payload = b"abc".to_vec();
    let mut b = MsgBuf::new(&payload);
    assert_eq!(b.read_cstring().unwrap_err(), "cstring terminator missing");
    assert_eq!(parse_cstring(b"xyz").unwrap_err(), "cstring payload missing terminator");
    assert_eq!(parse_cstring(b"hi\0rest").unwrap(), "hi");
}

#[test]
fn startup_parameters_last_duplicate_wins() {
    let mut raw = cstr("user");
    raw.extend(cstr("alice"));
    raw.extend(cstr("user"));
    raw.extend(cstr("bob"));
    raw.push(0);
    let ps = parse_params(&raw).unwrap();
    assert_eq!(ps.len(), 2);
    assert_eq!(startup_param(&ps, "user"), Some("bob".to_string()));
    assert_eq!(startup_param(&ps, "database"), None);
    assert_eq!(parse_params(b"user").unwrap_err(), "startup key missing terminator");
    assert_eq!(parse_params(b"user\0bob").unwrap_err(), "startup value missing terminator");
}

#[test]
fn frames_carry_length_of_body_plus_four() {
    assert_eq!(frame_message(b'Z', b"I"), vec![b'Z', 0, 0, 0, 5, b'I']);
    assert_eq!(ready_for_query(), vec![b'Z', 0, 0, 0, 5, b'I']);
    let cc = command_complete("SELECT 3");
    assert_eq!(frames(&cc), vec![(b'C', cstr("SELECT 3"))]);
    let ps = parameter_status("a", "b");
    assert_eq!(ps, vec![b'S', 0, 0, 0, 8, b'a', 0, b'b', 0]);
    let e = error_response("XX000", "boom");
    assert_eq!(error_frame("XX000", "boom"), Some(e.clone()));
    let mut body = vec![b'S'];
    body.extend(cstr("ERROR"));
    body.push(b'C');
    body.extend(cstr("XX000"));
    body.push(b'M');
    body.extend(cstr("boom"));
    body.push(0);
    assert_eq!(frames(&e), vec![(b'E', body)]);
}

#[test]
fn row_description_lists_columns() {
    let rd = row_description(&[("n".to_string(), 25)]);
    let f = frames(&rd);
    assert_eq!(f.len(), 1);
    assert_eq!(f[0].0, b'T');
    let mut body = i16b(1);
    body.extend(cstr("n"));
    body.extend(i32b(0));
    body.extend(i16b(0));
    body.extend(i32b(25));
    body.extend(i16b(-1));
    body.extend(i32b(-1));
    body.extend(i16b(0));
    assert_eq!(f[0].1, body);
}

#[test]
fn query_result_sends_description_rows_and_tag() {
    let out = write_query_result(&[row("1"), row("2")]);
    assert!(out.error.is_none());
    let f = frames(&out.bytes);
    assert_eq!(f.len(), 4);
    assert_eq!(f[0].0, b'T');
    let mut d = i16b(1);
    d.extend(i32b(1));
    d.extend(b"1");
    assert_eq!(f[1], (b'D', d));
    assert_eq!(f[3], (b'C', cstr("SELECT 2")));
    let empty = write_query_result(&[]);
    assert_eq!(frames(&empty.bytes), vec![(b'T', i16b(0)), (b'C', cstr("SELECT 0"))]);
    let bad = write_query_result(&[Row::NotObject]);
    assert!(bad.bytes.is_empty());
    assert_eq!(bad.error, Some("query row must be a JSON object".to_string()));
}

#[test]
fn session_commands_get_their_tags() {
    assert!(is_session_sql("  SET application_name = 'x'"));
    assert!(is_session_sql("begin"));
    assert!(is_session_sql("SHOW application_name"));
    assert!(!is_session_sql("SELECT 1"));
    assert_eq!(command_tag_for_session_sql("set x = 1"), "SET");
    assert_eq!(command_tag_for_session_sql("COMMIT"), "COMMIT");
    assert_eq!(command_tag_for_session_sql("rollback"), "ROLLBACK");
    assert_eq!(command_tag_for_session_sql("show x"), "SHOW");
}

#[test]
fn parameter_formats_and_decoding() {
    assert_eq!(param_format_code(&[], 3).unwrap(), 0);
    assert_eq!(param_format_code(&[1], 3).unwrap(), 1);
    assert_eq!(param_format_code(&[0, 1], 1).unwrap(), 1);
    assert_eq!(param_format_code(&[0, 1], 2).unwrap_err(), "missing parameter format code");
    assert_eq!(decode_param(0, 0, b"abc").unwrap(), "abc");
    assert_eq!(decode_param(0, 1, &42i32.to_be_bytes()).unwrap(), "42");
    assert_eq!(decode_param(0, 1, b"hi").unwrap(), "hi");
    assert_eq!(decode_param(0, 2, b"hi").unwrap_err(), "unsupported parameter format code 2");
    let prep = PreparedStatement { query: "SELECT $1, $2".to_string(), param_type_oids: vec![23] };
    assert_eq!(resolved_statement_param_oids(&prep, 2), vec![23, 25]);
    let untyped = PreparedStatement { query: "SELECT $1".to_string(), param_type_oids: vec![] };
    assert_eq!(resolved_statement_param_oids(&untyped, 1), vec![25]);
}

#[test]
fn startup_handshake_decisions() {
    assert_eq!(startup_body_len(7), None);
    assert_eq!(startup_body_len(8), Some(4));
    assert_eq!(payload_len(3), None);
    assert_eq!(payload_len(4), Some(0));
    match startup_step(&80877103i32.to_be_bytes(), false) {
        StartupStep::DeclineSsl(b) => assert_eq!(b, b"N".to_vec()),
        _ => panic!("expected SSL refusal"),
    }
    match startup_step(&80877103i32.to_be_bytes(), true) {
        StartupStep::Reject(b) => assert_eq!(b, error_response("08P01", "unsupported protocol version")),
        _ => panic!("expected rejection"),
    }
    let mut body = 196608i32.to_be_bytes().to_vec();
    body.extend(cstr("user"));
    body.extend(cstr("admin"));
    body.push(0);
    let params = match startup_step(&body, false) {
        StartupStep::AskPassword { reply, params } => {
            assert_eq!(reply, vec![b'R', 0, 0, 0, 8, 0, 0, 0, 3]);
            params
        }
        _ => panic!("expected password request"),
    };
    match auth_step(&params, b'p', &cstr("password"), "admin", "password") {
        AuthStep::Accept(b) => {
            let f = frames(&b);
            assert_eq!(f.len(), 6);
            assert_eq!(f[0], (b'R', i32b(0)));
            let mut ps = cstr("server_version");
            ps.extend(cstr("16.0"));
            assert_eq!(f[1], (b'S', ps));
            let mut key = i32b(1);
            key.extend(i32b(1));
            assert_eq!(f[4], (b'K', key));
            assert_eq!(f[5], (b'Z', b"I".to_vec()));
        }
        _ => panic!("expected acceptance"),
    }
    match auth_step(&params, b'p', &cstr("wrong"), "admin", "password") {
        AuthStep::Reject(b) => assert_eq!(b, error_response("28P01", "invalid user or password")),
        _ => panic!("expected rejection"),
    }
    assert!(matches!(auth_step(&params, b'Q', &cstr("password"), "admin", "password"), AuthStep::Close));
}

#[test]
fn simple_query_decisions() {
    let mut empty = cstr("   ");
    match simple_query(&empty) {
        ConnStep::Send(b) => {
            let mut want = command_complete("EMPTY QUERY");
            want.extend(ready_for_query());
            assert_eq!(b, want);
        }
        _ => panic!("expected EMPTY QUERY"),
    }
    empty = cstr(" BEGIN ");
    match simple_query(&empty) {
        ConnStep::Send(b) => assert_eq!(frames(&b)[0], (b'C', cstr("BEGIN"))),
        _ => panic!("expected BEGIN"),
    }
    match simple_query(&cstr(" SELECT 1 AS n ")) {
        ConnStep::RunQuery { sql } => assert_eq!(sql, "SELECT 1 AS n"),
        _ => panic!("expected a run"),
    }
    match finish_query(Err("boom".to_string())) {
        ConnStep::Send(b) => {
            let mut want = error_response("XX000", "boom");
            want.extend(ready_for_query());
            assert_eq!(b, want);
        }
        _ => panic!("expected an error"),
    }
}

#[test]
fn errors_discard_messages_until_sync() {
    let mut c = Connection::new();
    match c.on_message(b'E', &execute_payload("missing", 0)) {
        ConnStep::Send(b) => assert_eq!(b, error_response("XX000", "unknown portal `missing`")),
        _ => panic!("expected an error"),
    }
    assert!(matches!(c.on_message(b'P', &parse_payload("s", "SELECT 1", &[])), ConnStep::Ignore));
    match c.on_message(b'S', &[]) {
        ConnStep::Send(b) => assert_eq!(b, ready_for_query()),
        _ => panic!("expected ReadyForQuery"),
    }
    match c.on_message(b'P', &parse_payload("s", "SELECT 1", &[])) {
        ConnStep::Send(b) => assert_eq!(b, vec![b'1', 0, 0, 0, 4]),
        _ => panic!("expected ParseComplete"),
    }
    assert!(matches!(c.on_message(b'H', &[]), ConnStep::Flush));
    assert!(matches!(c.on_message(b'X', &[]), ConnStep::Close));
    match c.on_message(b'F', &[]) {
        ConnStep::Send(b) => {
            assert_eq!(b, error_response("0A000", "unsupported PostgreSQL frontend message (tag F)"))
        }
        _ => panic!("expected an error"),
    }
}

#[test]
fn bind_substitutes_parameters_into_the_portal() {
    let mut c = Connection::new();
    assert!(matches!(c.on_message(b'P', &parse_payload("", "SELECT $1 AS n", &[])), ConnStep::Send(_)));
    match c.on_message(b'B', &bind_payload("", "", &[Some("it's")])) {
        ConnStep::Send(b) => assert_eq!(b, vec![b'2', 0, 0, 0, 4]),
        _ => panic!("expected BindComplete"),
    }
    match c.on_message(b'E', &execute_payload("", 0)) {
        ConnStep::RunPortal { sql, max_rows, .. } => {
            assert_eq!(sql, "SELECT 'it''s' AS n");
            assert_eq!(max_rows, 0);
        }
        _ => panic!("expected a run"),
    }
    match c.on_message(b'B', &bind_payload("p", "nope", &[])) {
        ConnStep::Send(b) => assert_eq!(b, error_response("XX000", "unknown prepared statement `nope`")),
        _ => panic!("expected an error"),
    }
}

#[test]
fn close_forgets_statement() {
    let mut c = Connection::new();
    assert!(matches!(c.on_message(b'P', &parse_payload("s", "SELECT 1", &[])), ConnStep::Send(_)));
    let mut close = vec![b'S'];
    close.extend(cstr("s"));
    match c.on_message(b'C', &close) {
        ConnStep::Send(b) => assert_eq!(b, vec![b'3', 0, 0, 0, 4]),
        _ => panic!("expected CloseComplete"),
    }
    match c.on_message(b'B', &bind_payload("", "s", &[])) {
        ConnStep::Send(b) => assert_eq!(b, error_response("XX000", "unknown prepared statement `s`")),
        _ => panic!("expected an error"),
    }
    let mut bad = vec![b'Q'];
    bad.extend(cstr("s"));
    let mut s = PgSession::new();
    assert_eq!(s.handle_close(&bad).unwrap_err(), "invalid Close kind Q");
    assert_eq!(s.handle_close(&[]).unwrap_err(), "empty Close payload");
}

#[test]
fn describe_statement_with_placeholders_uses_alias() {
    let mut s = PgSession::new();
    assert!(s.handle_parse(&parse_payload("q", "SELECT $1 AS n", &[23])).is_ok());
    let mut d = vec![b'S'];
    d.extend(cstr("q"));
    match s.handle_describe(&d) {
        DescribeStep::Reply(b) => {
            let f = frames(&b);
            let mut pd = i16b(1);
            pd.extend(i32b(23));
            assert_eq!(f[0], (b't', pd));
            assert_eq!(f[1].0, b'T');
        }
        _ => panic!("expected a description"),
    }
    let mut d2 = vec![b'S'];
    d2.extend(cstr("nope"));
    match s.handle_describe(&d2) {
        DescribeStep::Fail(m) => assert_eq!(m, "unknown prepared statement `nope`"),
        _ => panic!("expected an error"),
    }
}

#[test]
fn binary_int4_parameter_binds_as_text() {
    let mut c = Connection::new();
    assert!(matches!(c.on_message(b'P', &parse_payload("s", "SELECT $1 AS n", &[23])), ConnStep::Send(_)));
    let mut b = cstr("p");
    b.extend(cstr("s"));
    b.extend(i16b(1));
    b.extend(i16b(1));
    b.extend(i16b(1));
    b.extend(i32b(4));
    b.extend(42i32.to_be_bytes());
    b.extend(i16b(0));
    match c.on_message(b'B', &b) {
        ConnStep::Send(x) => assert_eq!(x, vec![b'2', 0, 0, 0, 4]),
        _ => panic!("expected BindComplete"),
    }
    match c.on_message(b'E', &execute_payload("p", 0)) {
        ConnStep::RunPortal { portal, statement, sql, .. } => {
            assert_eq!(portal, "p");
            assert_eq!(statement, "s");
            assert_eq!(sql, "SELECT '42' AS n");
        }
        _ => panic!("expected a run"),
    }
    let mut too_many = cstr("p");
    too_many.extend(cstr("s"));
    too_many.extend(i16b(0));
    too_many.extend(i16b(2));
    too_many.extend(i32b(-1));
    too_many.extend(i32b(-1));
    too_many.extend(i16b(0));
    match c.on_message(b'B', &too_many) {
        ConnStep::Send(x) => assert_eq!(
            x,
            error_response(
                "XX000",
                "bind parameter count 2 does not match statement placeholders (expect 1 for max index)"
            )
        ),
        _ => panic!("expected an error"),
    }
}

#[test]
fn inputs_the_server_cannot_serve_are_recognised() {
    let mut c = Connection::new();
    assert!(matches!(c.on_message(b'P', &parse_payload("s", "SELECT $1", &[])), ConnStep::Send(_)));
    let mut negative = cstr("p");
    negative.extend(cstr("s"));
    negative.extend(i16b(0));
    negative.extend(i16b(-1));
    negative.extend(i16b(0));
    assert!(bind_count_is_negative(&negative));
    assert!(matches!(c.on_message(b'P', &parse_payload("big", "SELECT $40000", &[])), ConnStep::Send(_)));
    let mut d = vec![b'S'];
    d.extend(cstr("big"));
    assert!(matches!(c.on_message(b'D', &d), ConnStep::Close));
}

#[test]
fn startup_parameters_must_be_utf8() {
    let mut raw = b"us\xffer".to_vec();
    raw.push(0);
    raw.extend(cstr("x"));
    assert!(parse_params(&raw).is_err());
    let mut body = 196608i32.to_be_bytes().to_vec();
    body.extend(raw);
    assert!(matches!(startup_step(&body, false), StartupStep::Close));
}

#[test]
fn full_result_is_description_then_described_result() {
    let rows = vec![
        Row::Object(vec![("b".to_string(), Cell::Integer), ("a".to_string(), Cell::Text("x".to_string()))]),
        Row::Object(vec![("a".to_string(), Cell::Text("y".to_string()))]),
    ];
    let full = write_query_result(&rows);
    let after = opensnow::pgwire::rows::write_query_result_skip_row_description(&rows, &[], false);
    let mut want = row_description(&[("a".to_string(), 25), ("b".to_string(), 23)]);
    want.extend(after.bytes);
    assert_eq!(full.bytes, want);
    assert_eq!(full.error, after.error);
}

#[test]
fn series_of_executes_delivers_every_row_once() {
    let mut s = PgSession::new();
    assert!(s.handle_parse(&parse_payload("s1", "SELECT k FROM t", &[])).is_ok());
    let mut d = vec![b'S'];
    d.extend(cstr("s1"));
    match s.handle_describe(&d) {
        DescribeStep::NeedStatementShape { name, .. } => {
            assert!(s.finish_statement_describe(name, Ok(vec![row("0")])).is_ok());
        }
        _ => panic!("expected a sample run"),
    }
    assert!(matches!(s.handle_bind(&bind_payload("", "s1", &[])), BindStep::Reply(_)));
    let all: Vec<Row> = (1..=5).map(|i| row(&i.to_string())).collect();
    let mut sent: Vec<Vec<u8>> = Vec::new();
    let mut closing = Vec::new();
    let mut first = true;
    loop {
        let out = match s.handle_execute(&execute_payload("", 2)) {
            ExecuteStep::NeedRows { portal, statement, max_rows, .. } => {
                assert!(first);
                first = false;
                s.finish_execute(portal, statement, max_rows, Ok(all.clone()))
            }
            ExecuteStep::Output(o) => o,
            _ => panic!("unexpected step"),
        };
        let f = frames(&out.bytes);
        for (t, b) in &f {
            if *t == b'D' {
                sent.push(b.clone());
            }
        }
        let last = f.last().unwrap().clone();
        closing.push(last.0);
        if last.0 == b'C' {
            assert_eq!(last.1, cstr("SELECT 1"));
            break;
        }
    }
    assert_eq!(closing, vec![b's', b's', b'C']);
    let values: Vec<Vec<u8>> = sent.iter().map(|b| b[6..].to_vec()).collect();
    assert_eq!(values, vec![b"1".to_vec(), b"2".to_vec(), b"3".to_vec(), b"4".to_vec(), b"5".to_vec()]);
}

#[test]
fn bind_with_negative_parameter_count_is_recognised() {
    let negative = vec![0u8, b's', 0, 0, 0, 0xff, 0xff, 0, 0];
    assert!(bind_count_is_negative(&negative));
    assert!(!bind_count_is_negative(&bind_payload("", "s", &[Some("1")])));
    assert!(!bind_count_is_negative(&[0u8, b's']));
    let c = Connection::new();
    assert!(!c.is_discarding());
}
