use opensnow::auth::jwt::{
    issue_session_token, session_claims, verify_session_token_with_secrets, SessionClaims, SessionTokenError,
};
use opensnow::auth::oidc::{
    jwk_algorithm, oidc_token_current, select_jwk, verify_oidc_access_token_with_jwks_json, Jwk, OidcClaims,
    OidcError, RsaAlgorithm,
};
use opensnow::auth::password::{hash_password, verify_password};
use opensnow::auth::session::SessionContext;

use jsonwebtoken::{decode, encode, DecodingKey, EncodingKey, Header, Validation};
use serde_json::Value;

fn opt(v: &Option<String>) -> Value {
    match v {
        Some(s) => Value::String(s.clone()),
        None => Value::Null,
    }
}

fn claims_json(c: &SessionClaims) -> Value {
    let mut m = serde_json::Map::new();
    m.insert("sub".into(), Value::String(c.sub.clone()));
    m.insert("account".into(), opt(&c.account));
    m.insert("role".into(), opt(&c.role));
    m.insert("warehouse".into(), opt(&c.warehouse));
    m.insert("database".into(), opt(&c.database));
    m.insert("schema".into(), opt(&c.schema));
    m.insert("iat".into(), Value::from(c.iat));
    m.insert("exp".into(), Value::from(c.exp));
    m.insert("jti".into(), Value::String(c.jti.clone()));
    Value::Object(m)
}

fn opt_field(v: &Value, key: &str) -> Option<String> {
    v.get(key).and_then(Value::as_str).map(str::to_string)
}

fn claims_from_json(v: &Value) -> SessionClaims {
    SessionClaims {
        sub: opt_field(v, "sub").unwrap(),
        account: opt_field(v, "account"),
        role: opt_field(v, "role"),
        warehouse: opt_field(v, "warehouse"),
        database: opt_field(v, "database"),
        schema: opt_field(v, "schema"),
        iat: v["iat"].as_u64().unwrap(),
        exp: v["exp"].as_u64().unwrap(),
        jti: opt_field(v, "jti").unwrap(),
    }
}

fn sign(secret: &str, claims: &SessionClaims) -> Result<String, SessionTokenError> {
    encode(&Header::default(), &claims_json(claims), &EncodingKey::from_secret(secret.as_bytes()))
        .map_err(|_| SessionTokenError::Encode)
}

fn verify_one(secret: &String, token: &str) -> Result<SessionClaims, SessionTokenError> {
    let mut validation = Validation::default();
    validation.leeway = 0;
    decode::<Value>(token, &DecodingKey::from_secret(secret.as_bytes()), &validation)
        .map(|d| claims_from_json(&d.claims))
        .map_err(|_| SessionTokenError::Decode)
}

#[test]
fn verifies_with_rotated_previous_secret() {
    let session = SessionContext {
        account: Some("local".to_string()),
        user: Some("admin".to_string()),
        role: Some("PUBLIC".to_string()),
        warehouse: None,
        database: None,
        schema: None,
    };
    let token = issue_session_token("old-secret", &session, 2_000_000_000, 3600, sign).unwrap();
    let claims = verify_session_token_with_secrets(
        &["new-secret".to_string(), "old-secret".to_string()],
        &token,
        verify_one,
    )
    .unwrap();
    assert_eq!(claims.sub, "admin");
}

#[test]
fn unknown_secrets_reject_with_decode_error() {
    let session = SessionContext { user: Some("admin".into()), ..SessionContext::default() };
    let token = issue_session_token("old-secret", &session, 2_000_000_000, 3600, sign).unwrap();
    let reversed = verify_session_token_with_secrets(
        &["old-secret".to_string(), "new-secret".to_string(), "old-secret".to_string()],
        &token,
        verify_one,
    )
    .unwrap();
    assert_eq!(reversed.sub, "admin");
    let err = verify_session_token_with_secrets(&["a".to_string(), "b".to_string()], &token, verify_one);
    assert_eq!(err.unwrap_err(), SessionTokenError::Decode);
    let none: [String; 0] = [];
    assert_eq!(verify_session_token_with_secrets(&none, &token, verify_one).unwrap_err(), SessionTokenError::Decode);
}

#[test]
fn session_claims_copy_context_and_saturate_expiry() {
    let session = SessionContext {
        account: Some("local".into()),
        user: Some("admin".into()),
        role: Some("PUBLIC".into()),
        ..SessionContext::default()
    };
    let c = session_claims(&session, 10, 20).unwrap();
    assert_eq!((c.sub.as_str(), c.iat, c.exp), ("admin", 10, 30));
    assert_eq!(c.role.as_deref(), Some("PUBLIC"));
    assert_eq!(c.jti.len(), 36);
    let c = session_claims(&session, u64::MAX - 1, 5).unwrap();
    assert_eq!(c.exp, u64::MAX);
    let anonymous = SessionContext::default();
    assert_eq!(session_claims(&anonymous, 0, 0).unwrap_err(), SessionTokenError::MissingUser);
    assert_eq!(issue_session_token("s", &anonymous, 0, 0, sign).unwrap_err(), SessionTokenError::MissingUser);
}

#[test]
fn has_namespace_needs_database_and_schema() {
    let mut s = SessionContext::default();
    assert!(!s.has_namespace());
    s.database = Some("db".into());
    assert!(!s.has_namespace());
    s.schema = Some("sc".into());
    assert!(s.has_namespace());
}

#[test]
fn round_trip() {
    let h = hash_password("correct-horse-battery-staple".as_bytes()).unwrap();
    assert!(verify_password("correct-horse-battery-staple".as_bytes(), &h).unwrap());
    assert!(!verify_password("wrong".as_bytes(), &h).unwrap());
}

#[test]
fn malformed_hash_is_a_verify_error() {
    assert!(verify_password(b"pw", "not-a-hash").is_err());
}

fn key(kid: Option<&str>, kty: &str, alg: Option<&str>) -> Jwk {
    Jwk {
        kid: kid.map(str::to_string),
        kty: kty.to_string(),
        alg: alg.map(str::to_string),
        n: Some("n".into()),
        e: Some("AQAB".into()),
    }
}

#[test]
fn jwk_selection_follows_kid_and_key_type() {
    let keys = vec![key(Some("a"), "EC", None), key(None, "RSA", None), key(Some("b"), "RSA", Some("RS512"))];
    assert_eq!(select_jwk(&keys, &Some("b".into())), Some(2));
    assert_eq!(select_jwk(&keys, &None), Some(1));
    assert_eq!(select_jwk(&keys, &Some("a".into())), None);
    assert_eq!(jwk_algorithm(&keys[2].alg), RsaAlgorithm::RS512);
    assert_eq!(jwk_algorithm(&Some("HS256".into())), RsaAlgorithm::RS256);
    assert_eq!(jwk_algorithm(&None), RsaAlgorithm::RS256);
}

fn token_with_kid(kid: Option<&str>) -> String {
    let mut header = Header::default();
    header.kid = kid.map(str::to_string);
    encode(&header, &Value::Object(serde_json::Map::new()), &EncodingKey::from_secret(b"k")).unwrap()
}

#[test]
fn oidc_verification_uses_first_usable_key() {
    let keys = vec![key(Some("a"), "EC", None), key(None, "RSA", None), key(Some("b"), "RSA", Some("RS512"))];
    let token = token_with_kid(Some("b"));
    let decode = |_t: &str, k: &Jwk, alg: RsaAlgorithm, iss: Option<&str>, _aud: Option<&str>| {
        assert_eq!(k.kid.as_deref(), Some("b"));
        assert_eq!(alg, RsaAlgorithm::RS512);
        assert_eq!(iss, Some("issuer"));
        Ok(OidcClaims { sub: "u".to_string(), preferred_username: None, iss: None, exp: 9 })
    };
    let claims = verify_oidc_access_token_with_jwks_json(
        &token,
        "{}",
        Some("issuer"),
        None,
        |_json: &str| Some(keys.clone()),
        decode,
    )
    .unwrap();
    assert_eq!(claims.sub, "u");
    assert!(oidc_token_current(&claims, 8));
    assert!(!oidc_token_current(&claims, 9));

    let no_key = verify_oidc_access_token_with_jwks_json(
        &token_with_kid(Some("zzz")),
        "{}",
        None,
        None,
        |_json: &str| Some(keys.clone()),
        decode,
    );
    assert_eq!(no_key.err(), Some(OidcError::MissingKey));
    let unreadable = verify_oidc_access_token_with_jwks_json(&token, "{}", None, None, |_json: &str| None, decode);
    assert_eq!(unreadable.err(), Some(OidcError::Fetch));
    let bad_header = verify_oidc_access_token_with_jwks_json(
        "not-a-token",
        "{}",
        None,
        None,
        |_json: &str| Some(keys.clone()),
        decode,
    );
    assert_eq!(bad_header.err(), Some(OidcError::InvalidHeader));
}
