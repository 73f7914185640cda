use opensnow::auth::jwt::{SessionClaims, SessionTokenError};
use opensnow::config::AuthMode;
use opensnow::rest::access::{
    header_text, login, logout, route_auth, session_expiry_ms, session_secrets, session_token_ok,
    token_failure, unauthorized, AuthRoute, JwksCache, LoginStep, RevokedTokens, SessionRequest,
    UserTable,
};
use opensnow::rest::statements::{report_of, StatementRegistry, StatementStatus};

fn claims(jti: &str) -> SessionClaims {
    SessionClaims {
        sub: "admin".to_string(),
        account: Some("local".to_string()),
        role: Some("PUBLIC".to_string()),
        warehouse: None,
        database: None,
        schema: None,
        iat: 1,
        exp: 2,
        jti: jti.to_string(),
    }
}

fn h(s: &str) -> Option<&[u8]> {
    Some(s.as_bytes())
}

fn request(user: &str, password: &str) -> SessionRequest {
    SessionRequest {
        username: user.to_string(),
        password: password.to_string(),
        role: None,
        warehouse: None,
        database: None,
        schema: None,
        session_ttl_seconds: None,
    }
}

#[test]
fn submissions_get_numbered_handles() {
    let mut reg: StatementRegistry<String> = StatementRegistry::new();
    assert!(reg.has_capacity());
    let a = reg.submit("SELECT * FROM parquet_scan('/tmp/a.parquet') LIMIT 5", 100).unwrap();
    assert_eq!(a.statement_handle, "stmt_mock_0001");
    assert_eq!(a.poll_url, "/api/v2/statements/stmt_mock_0001");
    assert_eq!(a.created_at_epoch_ms, 100);
    let b = reg.submit("select * from parquet_scan('/tmp/b.parquet') limit 1;", 101).unwrap();
    assert_eq!(b.statement_handle, "stmt_mock_0002");
    let e = reg.lookup("stmt_mock_0001").unwrap();
    assert_eq!(e.status, StatementStatus::Running);
    assert!(e.rows.is_none());
}

#[test]
fn invalid_statement_is_a_bad_request() {
    let mut reg: StatementRegistry<String> = StatementRegistry::new();
    let r = reg.submit(";;;", 5).unwrap_err();
    assert_eq!(r.status, 400);
    assert_eq!(r.message, "invalid statement: empty statement");
    let garbage = reg.submit("SELEKT 1 FROM", 5).unwrap_err();
    assert_eq!(garbage.status, 400);
    assert!(garbage.message.starts_with("invalid statement: "));
    assert!(reg.lookup("stmt_mock_0001").is_none());
    let ok = reg.submit("SELECT * FROM parquet_scan('/x.parquet') LIMIT 1", 6).unwrap();
    assert_eq!(ok.statement_handle, "stmt_mock_0001");
}

#[test]
fn any_single_statement_is_accepted() {
    let mut reg: StatementRegistry<String> = StatementRegistry::new();
    assert_eq!(reg.submit("SELECT 1 AS n", 1).unwrap().statement_handle, "stmt_mock_0001");
    assert_eq!(reg.submit("CREATE DATABASE db1", 2).unwrap().statement_handle, "stmt_mock_0002");
    assert_eq!(reg.submit("SELECT 1; SELECT 2", 3).unwrap_err().status, 400);
}

#[test]
fn polls_report_each_status() {
    let mut reg: StatementRegistry<String> = StatementRegistry::new();
    let h = reg.submit("SELECT * FROM parquet_scan('/a') LIMIT 2", 10).unwrap().statement_handle;
    let rep = report_of(reg.lookup(&h).unwrap());
    assert_eq!(rep.status, "running");
    assert_eq!(rep.sql_state, "00000");
    assert_eq!(rep.error_code, None);
    assert_eq!(rep.message, "Statement is still running");
    assert_eq!(rep.row_count, None);

    reg.complete(&h, Ok(vec!["r1".to_string(), "r2".to_string()]), 20);
    let e = reg.lookup(&h).unwrap();
    let rep = report_of(e);
    assert_eq!(rep.status, "succeeded");
    assert_eq!(rep.message, "Statement completed successfully");
    assert_eq!(rep.row_count, Some(2));
    assert_eq!(rep.created_at_epoch_ms, 10);
    assert_eq!(rep.updated_at_epoch_ms, 20);

    let h2 = reg.submit("SELECT * FROM parquet_scan('/b') LIMIT 2", 30).unwrap().statement_handle;
    reg.complete(&h2, Err("storage error: missing".to_string()), 40);
    let rep = report_of(reg.lookup(&h2).unwrap());
    assert_eq!(rep.status, "failed");
    assert_eq!(rep.sql_state, "XX000");
    assert_eq!(rep.error_code, Some("1000".to_string()));
    assert_eq!(rep.message, "storage error: missing");
}

#[test]
fn cancel_only_running_statements() {
    let mut reg: StatementRegistry<String> = StatementRegistry::new();
    let unknown = reg.cancel("stmt_mock_0009", 1);
    assert_eq!(unknown.status, 404);
    assert_eq!(unknown.message, "Unknown statement handle");
    let h = reg.submit("SELECT * FROM parquet_scan('/a') LIMIT 2", 10).unwrap().statement_handle;
    let ok = reg.cancel(&h, 15);
    assert_eq!(ok.status, 200);
    assert_eq!(ok.message, "Cancel request accepted (mock response)");
    let rep = report_of(reg.lookup(&h).unwrap());
    assert_eq!(rep.status, "canceled");
    assert_eq!(rep.sql_state, "57014");
    assert_eq!(rep.error_code, Some("604".to_string()));
    assert_eq!(rep.updated_at_epoch_ms, 15);
    let again = reg.cancel(&h, 16);
    assert_eq!(again.status, 409);
    assert_eq!(again.message, "Statement is already in a terminal state");
}

#[test]
fn header_text_accepts_visible_ascii_only() {
    assert_eq!(header_text(b"Basic abc\t"), Some("Basic abc\t".to_string()));
    assert_eq!(header_text(b"caf\xc3\xa9"), None);
    assert_eq!(header_text(b"a\nb"), None);
}

#[test]
fn auth_header_routes() {
    assert!(matches!(route_auth(None, AuthMode::Local, &None), AuthRoute::Reject));
    match route_auth(h("Basic YWRtaW46cGFzc3dvcmQ="), AuthMode::Local, &None) {
        AuthRoute::Basic { user, password } => {
            assert_eq!(user, "admin");
            assert_eq!(password, "password");
        }
        _ => panic!("expected basic credentials"),
    }
    match route_auth(h("Basic dTphOmI="), AuthMode::Local, &None) {
        AuthRoute::Basic { user, password } => {
            assert_eq!(user, "u");
            assert_eq!(password, "a:b");
        }
        _ => panic!("expected basic credentials"),
    }
    assert!(matches!(route_auth(h("Basic bm9jb2xvbg=="), AuthMode::Local, &None), AuthRoute::Reject));
    assert!(matches!(route_auth(h("Basic !!!"), AuthMode::Local, &None), AuthRoute::Reject));
    match route_auth(h("Bearer tok"), AuthMode::Local, &None) {
        AuthRoute::Session { token } => assert_eq!(token, "tok"),
        _ => panic!("expected a session token"),
    }
    assert!(matches!(route_auth(h("Token x"), AuthMode::Local, &None), AuthRoute::Reject));
    assert!(matches!(route_auth(h("Bearer tok"), AuthMode::Oidc, &None), AuthRoute::Reject));
    let url = Some("https://idp/jwks".to_string());
    match route_auth(h("Bearer tok"), AuthMode::Oidc, &url) {
        AuthRoute::Oidc { token, jwks_url } => {
            assert_eq!(token, "tok");
            assert_eq!(jwks_url, "https://idp/jwks");
        }
        _ => panic!("expected an access token"),
    }
    assert!(matches!(route_auth(h("Basic YWRtaW46cGFzc3dvcmQ="), AuthMode::Oidc, &url), AuthRoute::Reject));
}

#[test]
fn user_table_checks_passwords() {
    let users = UserTable::with_user("admin", "password").unwrap();
    assert!(users.credentials_ok("admin", "password"));
    assert!(!users.credentials_ok("admin", "wrong"));
    assert!(!users.credentials_ok("bob", "password"));
    assert!(users.hash_of("admin").unwrap().starts_with("$2"));
}

#[test]
fn secrets_rotate_only_when_different() {
    assert_eq!(session_secrets("new", &Some("old".to_string())), vec!["new".to_string(), "old".to_string()]);
    assert_eq!(session_secrets("same", &Some("same".to_string())), vec!["same".to_string()]);
    assert_eq!(session_secrets("only", &None), vec!["only".to_string()]);
}

#[test]
fn revoked_tokens_are_refused() {
    let mut revoked = RevokedTokens::new();
    assert!(session_token_ok(&Ok(claims("j1")), &revoked));
    assert!(!session_token_ok(&Err(SessionTokenError::Decode), &revoked));
    let r = logout(AuthMode::Local, &mut revoked, Ok(claims("j1")));
    assert_eq!(r.status, 200);
    assert_eq!(r.message, "Session revoked");
    assert!(!session_token_ok(&Ok(claims("j1")), &revoked));
    let again = logout(AuthMode::Local, &mut revoked, Ok(claims("j1")));
    assert_eq!(again.status, 404);
    assert_eq!(again.message, "Unknown session token");
    let bad = logout(AuthMode::Local, &mut revoked, Err(SessionTokenError::Decode));
    assert_eq!(bad.status, 404);
    let oidc = logout(AuthMode::Oidc, &mut revoked, Ok(claims("j2")));
    assert_eq!(oidc.status, 405);
    assert_eq!(oidc.message, "Session revoke endpoint is disabled in oidc auth mode");
    assert!(session_token_ok(&Ok(claims("j2")), &revoked));
}

#[test]
fn login_defaults_role_and_ttl() {
    let users = UserTable::with_user("admin", "password").unwrap();
    match login(AuthMode::Local, &users, request("admin", "password")) {
        LoginStep::Issue { session, ttl_secs } => {
            assert_eq!(session.account, Some("local".to_string()));
            assert_eq!(session.user, Some("admin".to_string()));
            assert_eq!(session.role, Some("PUBLIC".to_string()));
            assert_eq!(ttl_secs, 3600);
        }
        LoginStep::Refuse(_) => panic!("expected a session"),
    }
    let mut req = request("admin", "password");
    req.role = Some("ACCOUNTADMIN".to_string());
    req.session_ttl_seconds = Some(2);
    req.database = Some("DB".to_string());
    match login(AuthMode::Local, &users, req) {
        LoginStep::Issue { session, ttl_secs } => {
            assert_eq!(session.role, Some("ACCOUNTADMIN".to_string()));
            assert_eq!(session.database, Some("DB".to_string()));
            assert_eq!(ttl_secs, 2);
        }
        LoginStep::Refuse(_) => panic!("expected a session"),
    }
    match login(AuthMode::Local, &users, request("admin", "nope")) {
        LoginStep::Refuse(r) => assert_eq!(r, unauthorized()),
        _ => panic!("expected a refusal"),
    }
    match login(AuthMode::Oidc, &users, request("admin", "password")) {
        LoginStep::Refuse(r) => {
            assert_eq!(r.status, 405);
            assert_eq!(r.message, "Session login endpoint is disabled in oidc auth mode");
        }
        _ => panic!("expected a refusal"),
    }
    assert_eq!(session_expiry_ms(1_000, 3600), 3_601_000);
    assert_eq!(token_failure().status, 500);
    assert_eq!(unauthorized().message, "Authentication required");
}

#[test]
fn jwks_cache_freshness_and_fallback() {
    let mut cache = JwksCache::new();
    assert_eq!(cache.fresh(300, 1000), None);
    assert_eq!(cache.after_fetch(Err("down".to_string()), 1000), Err("failed to fetch oidc jwks: down".to_string()));
    assert_eq!(cache.after_fetch(Ok("{\"keys\":[]}".to_string()), 1000), Ok("{\"keys\":[]}".to_string()));
    assert_eq!(cache.fresh(300, 1299), Some("{\"keys\":[]}".to_string()));
    assert_eq!(cache.fresh(300, 1300), None);
    assert_eq!(cache.fresh(300, 10), Some("{\"keys\":[]}".to_string()));
    assert_eq!(cache.after_fetch(Err("down".to_string()), 5000), Ok("{\"keys\":[]}".to_string()));
}

#[test]
fn two_statements_are_refused_with_the_library_message() {
    let mut reg: StatementRegistry<String> = StatementRegistry::new();
    let r = reg.submit("SELECT 1; SELECT 2", 5).unwrap_err();
    assert_eq!(r.status, 400);
    assert_eq!(r.message, "invalid statement: exactly one SQL statement is supported");
    assert!(reg.lookup("stmt_mock_0001").is_none());
}
