use opensnow::config::{parse_u16_env, AuthMode, EnvSnapshot, ServerConfig};
use opensnow::error::{IntErrorKind, OpenSnowError};

#[test]
fn default_ports() {
    let c = ServerConfig::default();
    assert_eq!(c.pg_port, 5432);
    assert_eq!(c.http_port, 8080);
    assert!(c.polaris_catalog_url.is_none());
    assert_eq!(c.bootstrap_user, "admin");
    assert_eq!(c.bootstrap_password, "password");
    assert_eq!(c.session_secret, "dev-secret-change-me");
    assert!(c.previous_session_secret.is_none());
    assert_eq!(c.auth_mode, AuthMode::Local);
    assert!(c.oidc_jwks_url.is_none());
    assert!(c.oidc_issuer.is_none());
    assert!(c.oidc_audience.is_none());
    assert_eq!(c.oidc_jwks_cache_ttl_seconds, 300);
}

#[test]
fn empty_environment_gives_defaults() {
    let c = ServerConfig::from_env_snapshot(&EnvSnapshot::default()).unwrap();
    assert_eq!(c, ServerConfig::default());
}

#[test]
fn environment_values_override_defaults() {
    let env = EnvSnapshot {
        pg_port: Some("6543".into()),
        http_port: Some("".into()),
        bootstrap_user: Some("root".into()),
        auth_mode: Some("OIDC".into()),
        oidc_jwks_url: Some("http://idp/jwks".into()),
        oidc_issuer: Some("".into()),
        oidc_jwks_cache_ttl_seconds: Some("+60".into()),
        ..EnvSnapshot::default()
    };
    let c = ServerConfig::from_env_snapshot(&env).unwrap();
    assert_eq!(c.pg_port, 6543);
    assert_eq!(c.http_port, 8080);
    assert_eq!(c.bootstrap_user, "root");
    assert_eq!(c.auth_mode, AuthMode::Oidc);
    assert_eq!(c.oidc_jwks_url.as_deref(), Some("http://idp/jwks"));
    assert!(c.oidc_issuer.is_none());
    assert_eq!(c.oidc_jwks_cache_ttl_seconds, 60);
}

#[test]
fn environment_faults_are_reported() {
    let env = EnvSnapshot { pg_port: Some("70000".into()), ..EnvSnapshot::default() };
    match ServerConfig::from_env_snapshot(&env) {
        Err(OpenSnowError::InvalidEnvVar { key, source }) => {
            assert_eq!(key, "OPENSNOW_PG_PORT");
            assert_eq!(source, IntErrorKind::PosOverflow);
        }
        other => panic!("unexpected {:?}", other),
    }
    let env = EnvSnapshot { auth_mode: Some("Ldap".into()), ..EnvSnapshot::default() };
    match ServerConfig::from_env_snapshot(&env) {
        Err(OpenSnowError::Config(m)) => {
            assert_eq!(m, "invalid OPENSNOW_AUTH_MODE `ldap`, expected `local` or `oidc`")
        }
        other => panic!("unexpected {:?}", other),
    }
    let env = EnvSnapshot { auth_mode: Some("oidc".into()), ..EnvSnapshot::default() };
    match ServerConfig::from_env_snapshot(&env) {
        Err(OpenSnowError::Config(m)) => {
            assert_eq!(m, "OPENSNOW_OIDC_JWKS_URL is required when OPENSNOW_AUTH_MODE=oidc")
        }
        other => panic!("unexpected {:?}", other),
    }
}

#[test]
fn u16_parse_matches_integer_parse_rules() {
    assert_eq!(parse_u16_env("K", "65535").unwrap(), 65535);
    assert_eq!(parse_u16_env("K", "+7").unwrap(), 7);
    let kind = |raw: &str| match parse_u16_env("K", raw) {
        Err(OpenSnowError::InvalidEnvVar { source, .. }) => source,
        other => panic!("unexpected {:?}", other),
    };
    assert_eq!(kind(""), IntErrorKind::Empty);
    assert_eq!(kind("+"), IntErrorKind::InvalidDigit);
    assert_eq!(kind("-1"), IntErrorKind::InvalidDigit);
    assert_eq!(kind("65536"), IntErrorKind::PosOverflow);
    assert_eq!(kind("99999x"), IntErrorKind::PosOverflow);
    assert_eq!(kind("12x"), IntErrorKind::InvalidDigit);
}
