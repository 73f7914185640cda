//! Server configuration: defaults, and the values taken from `OPENSNOW_*` variables.

use vstd::prelude::*;

use crate::error::{IntErrorKind, OpenSnowError};
use crate::text::{
    chars_of, concat_chars, lower, lower_chars, parse_unsigned, parse_unsigned_chars,
    string_from_chars,
};
use crate::pgwire::message::chars_eq;

verus! {

broadcast use vstd::string::group_string_axioms;

/// Authentication backend.
#[derive(Debug, Clone, Copy, PartialEq, Eq, Structural)]
pub enum AuthMode {
    Local,
    Oidc,
}

impl Default for AuthMode {
    fn default() -> (r: Self)
        ensures
            r == AuthMode::Local,
    {
        AuthMode::Local
    }
}

/// Runtime settings for the server.
#[derive(Debug, Clone, PartialEq, Eq)]
pub struct ServerConfig {
    /// TCP port for the PostgreSQL wire protocol listener.
    pub pg_port: u16,
    /// TCP port for the REST API listener.
    pub http_port: u16,
    /// Base URL of the Iceberg REST catalog, when set.
    pub polaris_catalog_url: Option<String>,
    /// Bootstrap username.
    pub bootstrap_user: String,
    /// Bootstrap password.
    pub bootstrap_password: String,
    /// HMAC secret used to sign and verify session tokens.
    pub session_secret: String,
    /// Previous secret still accepted during signing-key rotation.
    pub previous_session_secret: Option<String>,
    /// Authentication backend mode.
    pub auth_mode: AuthMode,
    /// JWKS endpoint used to verify bearer tokens in `oidc` mode.
    pub oidc_jwks_url: Option<String>,
    /// Issuer expected in OIDC token claims.
    pub oidc_issuer: Option<String>,
    /// Audience expected in OIDC token claims.
    pub oidc_audience: Option<String>,
    /// Seconds a fetched JWKS document stays fresh.
    pub oidc_jwks_cache_ttl_seconds: u64,
}

/// The default settings.
pub open spec fn is_default_config(c: ServerConfig) -> bool {
    &&& c.pg_port == 5432
    &&& c.http_port == 8080
    &&& c.polaris_catalog_url is None
    &&& c.bootstrap_user@ == "admin"@
    &&& c.bootstrap_password@ == "password"@
    &&& c.session_secret@ == "dev-secret-change-me"@
    &&& c.previous_session_secret is None
    &&& c.auth_mode == AuthMode::Local
    &&& c.oidc_jwks_url is None
    &&& c.oidc_issuer is None
    &&& c.oidc_audience is None
    &&& c.oidc_jwks_cache_ttl_seconds == 300
}

impl Default for ServerConfig {
    fn default() -> (r: Self)
        ensures
            is_default_config(r),
    {
        ServerConfig {
            pg_port: 5432,
            http_port: 8080,
            polaris_catalog_url: None,
            bootstrap_user: "admin".to_string(),
            bootstrap_password: "password".to_string(),
            session_secret: "dev-secret-change-me".to_string(),
            previous_session_secret: None,
            auth_mode: AuthMode::Local,
            oidc_jwks_url: None,
            oidc_issuer: None,
            oidc_audience: None,
            oidc_jwks_cache_ttl_seconds: 300,
        }
    }
}

/// A `u16` from the text of environment variable `key`.
pub fn parse_u16_env(key: &str, raw: &str) -> (r: Result<u16, OpenSnowError>)
    ensures
        match parse_unsigned(raw@, 65535) {
            Ok(v) => r matches Ok(x) && x as int == v,
            Err(k) => r matches Err(OpenSnowError::InvalidEnvVar { key: kk, source }) && kk@
                == key@ && source == k,
        },
{
    match parse_unsigned_chars(&chars_of(raw), 65535) {
        Ok(v) => Ok(v as u16),
        Err(k) => Err(OpenSnowError::InvalidEnvVar { key: key.to_string(), source: k }),
    }
}

/// The `OPENSNOW_*` variables as read from the environment: `None` when a variable is
/// unset (or not valid Unicode).
#[derive(Debug, Clone, Default)]
pub struct EnvSnapshot {
    pub pg_port: Option<String>,
    pub http_port: Option<String>,
    pub polaris_catalog_url: Option<String>,
    pub bootstrap_user: Option<String>,
    pub bootstrap_password: Option<String>,
    pub session_secret: Option<String>,
    pub previous_session_secret: Option<String>,
    pub auth_mode: Option<String>,
    pub oidc_jwks_url: Option<String>,
    pub oidc_issuer: Option<String>,
    pub oidc_audience: Option<String>,
    pub oidc_jwks_cache_ttl_seconds: Option<String>,
}

/// A variable is in effect when it is set to a non-empty value.
pub open spec fn given(v: Option<String>) -> bool {
    v matches Some(s) && s@.len() > 0
}

/// An optional setting: the value when given, else none.
pub open spec fn optional_setting(v: Option<String>, r: Option<String>) -> bool {
    if given(v) {
        r matches Some(x) && x@ == v->0@
    } else {
        r is None
    }
}

/// A text setting with a default.
pub open spec fn text_setting(v: Option<String>, r: String, default: Seq<char>) -> bool {
    if given(v) {
        r@ == v->0@
    } else {
        r@ == default
    }
}

/// An integer setting with a default: the parsed value when given, else the default.
pub open spec fn int_setting(v: Option<String>, max: int, default: int) -> Result<int, IntErrorKind> {
    if given(v) {
        parse_unsigned(v->0@, max)
    } else {
        Ok(default)
    }
}

/// The auth mode named by a given value (any ASCII case), or `None` for another word.
pub open spec fn auth_mode_named(v: Option<String>) -> Option<AuthMode> {
    if !given(v) {
        Some(AuthMode::Local)
    } else if lower(v->0@) == "local"@ {
        Some(AuthMode::Local)
    } else if lower(v->0@) == "oidc"@ {
        Some(AuthMode::Oidc)
    } else {
        None
    }
}

/// The first problem with the environment, in the order the variables are read.
#[derive(Debug, Clone, Copy, PartialEq, Eq, Structural)]
pub enum EnvFault {
    PgPort(IntErrorKind),
    HttpPort(IntErrorKind),
    AuthMode,
    JwksCacheTtl(IntErrorKind),
    MissingJwksUrl,
}

pub open spec fn env_fault(env: EnvSnapshot) -> Option<EnvFault> {
    match int_setting(env.pg_port, 65535, 5432) {
        Err(k) => Some(EnvFault::PgPort(k)),
        Ok(_) => match int_setting(env.http_port, 65535, 8080) {
            Err(k) => Some(EnvFault::HttpPort(k)),
            Ok(_) => if auth_mode_named(env.auth_mode) is None {
                Some(EnvFault::AuthMode)
            } else {
                match int_setting(env.oidc_jwks_cache_ttl_seconds, u64::MAX as int, 300) {
                    Err(k) => Some(EnvFault::JwksCacheTtl(k)),
                    Ok(_) => if auth_mode_named(env.auth_mode) == Some(AuthMode::Oidc) && !given(
                        env.oidc_jwks_url,
                    ) {
                        Some(EnvFault::MissingJwksUrl)
                    } else {
                        None
                    },
                }
            },
        },
    }
}

/// The configuration an environment without fault gives.
pub open spec fn config_from(env: EnvSnapshot, c: ServerConfig) -> bool {
    &&& int_setting(env.pg_port, 65535, 5432) == Ok::<int, IntErrorKind>(c.pg_port as int)
    &&& int_setting(env.http_port, 65535, 8080) == Ok::<int, IntErrorKind>(c.http_port as int)
    &&& optional_setting(env.polaris_catalog_url, c.polaris_catalog_url)
    &&& text_setting(env.bootstrap_user, c.bootstrap_user, "admin"@)
    &&& text_setting(env.bootstrap_password, c.bootstrap_password, "password"@)
    &&& text_setting(env.session_secret, c.session_secret, "dev-secret-change-me"@)
    &&& optional_setting(env.previous_session_secret, c.previous_session_secret)
    &&& auth_mode_named(env.auth_mode) == Some(c.auth_mode)
    &&& optional_setting(env.oidc_jwks_url, c.oidc_jwks_url)
    &&& optional_setting(env.oidc_issuer, c.oidc_issuer)
    &&& optional_setting(env.oidc_audience, c.oidc_audience)
    &&& int_setting(env.oidc_jwks_cache_ttl_seconds, u64::MAX as int, 300) == Ok::<int, IntErrorKind>(
        c.oidc_jwks_cache_ttl_seconds as int,
    )
}

/// Every variable set to a non-empty value is taken into the configuration as it is
/// written, and every optional one left unset or empty stays absent; a text setting
/// that is not given keeps its default.
pub proof fn law_given_variables_are_taken(env: EnvSnapshot, c: ServerConfig)
    requires
        config_from(env, c),
    ensures
        (env.previous_session_secret is Some && env.previous_session_secret->0@.len() > 0) ==> (c.previous_session_secret is Some && c.previous_session_secret->0@ == env.previous_session_secret->0@),
        !(env.previous_session_secret is Some && env.previous_session_secret->0@.len() > 0) ==> c.previous_session_secret is None,
        (env.polaris_catalog_url is Some && env.polaris_catalog_url->0@.len() > 0) ==> (c.polaris_catalog_url is Some && c.polaris_catalog_url->0@ == env.polaris_catalog_url->0@),
        !(env.polaris_catalog_url is Some && env.polaris_catalog_url->0@.len() > 0) ==> c.polaris_catalog_url is None,
        (env.oidc_jwks_url is Some && env.oidc_jwks_url->0@.len() > 0) ==> (c.oidc_jwks_url is Some && c.oidc_jwks_url->0@ == env.oidc_jwks_url->0@),
        !(env.oidc_jwks_url is Some && env.oidc_jwks_url->0@.len() > 0) ==> c.oidc_jwks_url is None,
        (env.oidc_issuer is Some && env.oidc_issuer->0@.len() > 0) ==> (c.oidc_issuer is Some && c.oidc_issuer->0@ == env.oidc_issuer->0@),
        !(env.oidc_issuer is Some && env.oidc_issuer->0@.len() > 0) ==> c.oidc_issuer is None,
        (env.oidc_audience is Some && env.oidc_audience->0@.len() > 0) ==> (c.oidc_audience is Some && c.oidc_audience->0@ == env.oidc_audience->0@),
        !(env.oidc_audience is Some && env.oidc_audience->0@.len() > 0) ==> c.oidc_audience is None,
        (env.bootstrap_user is Some && env.bootstrap_user->0@.len() > 0) ==> c.bootstrap_user@ == env.bootstrap_user->0@,
        !(env.bootstrap_user is Some && env.bootstrap_user->0@.len() > 0) ==> c.bootstrap_user@ == "admin"@,
        (env.bootstrap_password is Some && env.bootstrap_password->0@.len() > 0) ==> c.bootstrap_password@ == env.bootstrap_password->0@,
        !(env.bootstrap_password is Some && env.bootstrap_password->0@.len() > 0) ==> c.bootstrap_password@ == "password"@,
        (env.session_secret is Some && env.session_secret->0@.len() > 0) ==> c.session_secret@ == env.session_secret->0@,
        !(env.session_secret is Some && env.session_secret->0@.len() > 0) ==> c.session_secret@ == "dev-secret-change-me"@,
{
}

/// An environment with none of the variables set.
pub open spec fn empty_environment(env: EnvSnapshot) -> bool {
    &&& env.pg_port is None
    &&& env.http_port is None
    &&& env.polaris_catalog_url is None
    &&& env.bootstrap_user is None
    &&& env.bootstrap_password is None
    &&& env.session_secret is None
    &&& env.previous_session_secret is None
    &&& env.auth_mode is None
    &&& env.oidc_jwks_url is None
    &&& env.oidc_issuer is None
    &&& env.oidc_audience is None
    &&& env.oidc_jwks_cache_ttl_seconds is None
}

/// Without any of the variables set the environment has no fault and gives exactly
/// the default settings.
pub proof fn law_empty_environment_gives_defaults(env: EnvSnapshot, c: ServerConfig)
    requires
        empty_environment(env),
    ensures
        env_fault(env) is None,
        config_from(env, c) <==> is_default_config(c),
{
}

/// The error that reports an environment fault.
pub open spec fn reports(e: OpenSnowError, f: EnvFault, env: EnvSnapshot) -> bool {
    match f {
        EnvFault::PgPort(k) => e matches OpenSnowError::InvalidEnvVar { key, source } && key@
            == "OPENSNOW_PG_PORT"@ && source == k,
        EnvFault::HttpPort(k) => e matches OpenSnowError::InvalidEnvVar { key, source } && key@
            == "OPENSNOW_HTTP_PORT"@ && source == k,
        EnvFault::JwksCacheTtl(k) => e matches OpenSnowError::InvalidEnvVar { key, source } && key@
            == "OPENSNOW_OIDC_JWKS_CACHE_TTL_SECONDS"@ && source == k,
        EnvFault::AuthMode => e matches OpenSnowError::Config(m) && m@ == "invalid OPENSNOW_AUTH_MODE `"@
            + lower(env.auth_mode->0@) + "`, expected `local` or `oidc`"@,
        EnvFault::MissingJwksUrl => e matches OpenSnowError::Config(m) && m@
            == "OPENSNOW_OIDC_JWKS_URL is required when OPENSNOW_AUTH_MODE=oidc"@,
    }
}

fn is_given(v: &Option<String>) -> (r: bool)
    ensures
        r == given(*v),
{
    match v {
        Some(s) => !s.as_str().is_empty(),
        None => false,
    }
}

fn optional_value(v: &Option<String>) -> (r: Option<String>)
    ensures
        optional_setting(*v, r),
{
    match v {
        Some(s) => if s.as_str().is_empty() {
            None
        } else {
            Some(s.clone())
        },
        None => None,
    }
}

fn text_value(v: &Option<String>, default: &str) -> (r: String)
    ensures
        text_setting(*v, r, default@),
{
    match v {
        Some(s) => if s.as_str().is_empty() {
            default.to_string()
        } else {
            s.clone()
        },
        None => default.to_string(),
    }
}

impl ServerConfig {
    /// Settings from the `OPENSNOW_*` variables, each falling back to its default when
    /// unset or empty.
    pub fn from_env_snapshot(env: &EnvSnapshot) -> (r: Result<ServerConfig, OpenSnowError>)
        ensures
            match env_fault(*env) {
                None => r matches Ok(c) && config_from(*env, c),
                Some(f) => r matches Err(e) && reports(e, f, *env),
            },
    {
        let mut pg_port: u16 = 5432;
        if is_given(&env.pg_port) {
            pg_port = parse_u16_env("OPENSNOW_PG_PORT", env.pg_port.as_ref().unwrap().as_str())?;
        }
        let mut http_port: u16 = 8080;
        if is_given(&env.http_port) {
            http_port = parse_u16_env("OPENSNOW_HTTP_PORT", env.http_port.as_ref().unwrap().as_str())?;
        }
        let mut auth_mode = AuthMode::Local;
        if is_given(&env.auth_mode) {
            let low = lower_chars(&chars_of(env.auth_mode.as_ref().unwrap().as_str()));
            if chars_eq(&low, &chars_of("local")) {
                auth_mode = AuthMode::Local;
            } else if chars_eq(&low, &chars_of("oidc")) {
                auth_mode = AuthMode::Oidc;
            } else {
                let m1 = concat_chars(&chars_of("invalid OPENSNOW_AUTH_MODE `"), &low);
                let m2 = concat_chars(&m1, &chars_of("`, expected `local` or `oidc`"));
                return Err(OpenSnowError::Config(string_from_chars(&m2)));
            }
        }
        let mut ttl: u64 = 300;
        if is_given(&env.oidc_jwks_cache_ttl_seconds) {
            let raw = env.oidc_jwks_cache_ttl_seconds.as_ref().unwrap().as_str();
            match parse_unsigned_chars(&chars_of(raw), u64::MAX) {
                Ok(v) => {
                    ttl = v;
                },
                Err(k) => {
                    return Err(
                        OpenSnowError::InvalidEnvVar {
                            key: "OPENSNOW_OIDC_JWKS_CACHE_TTL_SECONDS".to_string(),
                            source: k,
                        },
                    );
                },
            }
        }
        let oidc_jwks_url = optional_value(&env.oidc_jwks_url);
        if auth_mode == AuthMode::Oidc && oidc_jwks_url.is_none() {
            return Err(
                OpenSnowError::Config(
                    "OPENSNOW_OIDC_JWKS_URL is required when OPENSNOW_AUTH_MODE=oidc".to_string(),
                ),
            );
        }
        Ok(
            ServerConfig {
                pg_port,
                http_port,
                polaris_catalog_url: optional_value(&env.polaris_catalog_url),
                bootstrap_user: text_value(&env.bootstrap_user, "admin"),
                bootstrap_password: text_value(&env.bootstrap_password, "password"),
                session_secret: text_value(&env.session_secret, "dev-secret-change-me"),
                previous_session_secret: optional_value(&env.previous_session_secret),
                auth_mode,
                oidc_jwks_url,
                oidc_issuer: optional_value(&env.oidc_issuer),
                oidc_audience: optional_value(&env.oidc_audience),
                oidc_jwks_cache_ttl_seconds: ttl,
            },
        )
    }
}

} // verus!
