//! Session tokens of the REST API: the claims a login issues, and verification under
//! the current and previous signing secrets.

use vstd::prelude::*;

use crate::auth::session::{clone_opt, SessionContext};

verus! {

/// The claims a session token carries.
#[derive(Debug, Clone, PartialEq, Eq)]
pub struct SessionClaims {
    pub sub: String,
    pub account: Option<String>,
    pub role: Option<String>,
    pub warehouse: Option<String>,
    pub database: Option<String>,
    pub schema: Option<String>,
    pub iat: u64,
    pub exp: u64,
    pub jti: String,
}

/// Why a session token could not be issued or verified.
#[derive(Debug, Clone, Copy, PartialEq, Eq, Structural)]
pub enum SessionTokenError {
    Encode,
    Decode,
    MissingUser,
}

/// `Uuid::new_v4().to_string()`: a random UUID in its 36-character hyphenated form.
#[verifier::external_body]
fn random_token_id() -> (r: String)
    ensures
        r@.len() == 36,
{
    uuid::Uuid::new_v4().to_string()
}

pub open spec fn same_text(a: Option<String>, b: Option<String>) -> bool {
    match a {
        Some(x) => b matches Some(y) && y@ == x@,
        None => b is None,
    }
}

/// `c` are the claims of `session` issued at `now` for `ttl` seconds: the session's
/// user as subject, its context copied, expiry saturating at `u64::MAX`, and a token
/// id of 36 characters.
pub open spec fn claims_for(session: SessionContext, now: u64, ttl: u64, c: SessionClaims) -> bool {
    &&& session.user matches Some(u) && c.sub@ == u@
    &&& same_text(session.account, c.account)
    &&& same_text(session.role, c.role)
    &&& same_text(session.warehouse, c.warehouse)
    &&& same_text(session.database, c.database)
    &&& same_text(session.schema, c.schema)
    &&& c.iat == now
    &&& c.exp == (if now + ttl > u64::MAX {
        u64::MAX as int
    } else {
        now + ttl
    })
    &&& c.jti@.len() == 36
}

/// The claims for a session issued at `now_epoch_secs` that lasts `ttl_secs`, with a
/// fresh random token id; a session without a user has none.
pub fn session_claims(session: &SessionContext, now_epoch_secs: u64, ttl_secs: u64) -> (r: Result<
    SessionClaims,
    SessionTokenError,
>)
    ensures
        session.user is None ==> r == Err::<SessionClaims, SessionTokenError>(SessionTokenError::MissingUser),
        session.user is Some ==> (r matches Ok(c) && claims_for(*session, now_epoch_secs, ttl_secs, c)),
{
    let sub = match &session.user {
        Some(u) => u.clone(),
        None => {
            return Err(SessionTokenError::MissingUser);
        },
    };
    Ok(
        SessionClaims {
            sub,
            account: clone_opt(&session.account),
            role: clone_opt(&session.role),
            warehouse: clone_opt(&session.warehouse),
            database: clone_opt(&session.database),
            schema: clone_opt(&session.schema),
            iat: now_epoch_secs,
            exp: now_epoch_secs.saturating_add(ttl_secs),
            jti: random_token_id(),
        },
    )
}

/// Issues a session token: the claims of `session` for `ttl_secs` from
/// `now_epoch_secs`, signed with `secret` by `sign`.
pub fn issue_session_token<E>(secret: &str, session: &SessionContext, now_epoch_secs: u64, ttl_secs: u64, sign: E) -> (r:
    Result<String, SessionTokenError>) where E: Fn(&str, &SessionClaims) -> Result<String, SessionTokenError>
    requires
        forall|c: &SessionClaims| call_requires(sign, (secret, c)),
    ensures
        session.user is None ==> r == Err::<String, SessionTokenError>(SessionTokenError::MissingUser),
        session.user is Some ==> exists|c: SessionClaims|
            #[trigger] claims_for(*session, now_epoch_secs, ttl_secs, c) && call_ensures(sign, (secret, &c), r),
{
    let claims = session_claims(session, now_epoch_secs, ttl_secs)?;
    let r = sign(secret, &claims);
    assert(claims_for(*session, now_epoch_secs, ttl_secs, claims));
    r
}

/// Verification of `token` under `secret` can fail.
pub open spec fn attempt_fails<F: Fn(&String, &str) -> Result<SessionClaims, SessionTokenError>>(
    verify: F,
    secret: &String,
    token: &str,
) -> bool {
    exists|e: SessionTokenError| #[trigger] call_ensures(verify, (secret, token), Err::<SessionClaims, SessionTokenError>(e))
}

/// The outcome of trying `token` with each secret in turn: the claims of the first
/// secret whose check succeeds, or `Decode` when every check fails.
pub open spec fn secrets_outcome<F: Fn(&String, &str) -> Result<SessionClaims, SessionTokenError>>(
    verify: F,
    secrets: Seq<String>,
    token: &str,
    r: Result<SessionClaims, SessionTokenError>,
) -> bool {
    &&& r matches Ok(c) ==> exists|i: int|
        0 <= i < secrets.len() && call_ensures(verify, (&#[trigger] secrets[i], token), Ok::<SessionClaims, SessionTokenError>(c))
            && forall|j: int| 0 <= j < i ==> attempt_fails(verify, &#[trigger] secrets[j], token)
    &&& r is Err ==> r == Err::<SessionClaims, SessionTokenError>(SessionTokenError::Decode)
        && forall|j: int| 0 <= j < secrets.len() ==> attempt_fails(verify, &#[trigger] secrets[j], token)
}

/// When the check of a token under one secret has one outcome, and every secret that
/// accepts the token yields the same claims (the claims are the token's own payload),
/// the outcome depends only on which secrets are given, not on their order or
/// repetition: it is `Ok(c)` exactly when some secret accepts the token with claims
/// `c`, and `Decode` when none does.
pub proof fn law_secret_order_irrelevant<F: Fn(&String, &str) -> Result<SessionClaims, SessionTokenError>>(
    verify: F,
    secrets: Seq<String>,
    token: &str,
    r: Result<SessionClaims, SessionTokenError>,
)
    requires
        secrets_outcome(verify, secrets, token, r),
        forall|s: &String, a: Result<SessionClaims, SessionTokenError>, b: Result<SessionClaims, SessionTokenError>|
            call_ensures(verify, (s, token), a) && call_ensures(verify, (s, token), b) ==> a == b,
        forall|s1: &String, s2: &String, c1: SessionClaims, c2: SessionClaims|
            call_ensures(verify, (s1, token), Ok::<SessionClaims, SessionTokenError>(c1)) && call_ensures(
                verify,
                (s2, token),
                Ok::<SessionClaims, SessionTokenError>(c2),
            ) ==> c1 == c2,
    ensures
        forall|c: SessionClaims|
            r == Ok::<SessionClaims, SessionTokenError>(c) <==> exists|i: int|
                0 <= i < secrets.len() && #[trigger] call_ensures(
                    verify,
                    (&secrets[i], token),
                    Ok::<SessionClaims, SessionTokenError>(c),
                ),
        r is Err <==> r == Err::<SessionClaims, SessionTokenError>(SessionTokenError::Decode),
        secrets.len() == 0 ==> r == Err::<SessionClaims, SessionTokenError>(SessionTokenError::Decode),
{
    assert forall|c: SessionClaims|
        (exists|i: int|
            0 <= i < secrets.len() && #[trigger] call_ensures(
                verify,
                (&secrets[i], token),
                Ok::<SessionClaims, SessionTokenError>(c),
            )) implies r == Ok::<SessionClaims, SessionTokenError>(c) by {
        {
            let i = choose|i: int|
                0 <= i < secrets.len() && #[trigger] call_ensures(
                    verify,
                    (&secrets[i], token),
                    Ok::<SessionClaims, SessionTokenError>(c),
                );
            match r {
                Ok(c2) => {
                    let k = choose|k: int|
                        0 <= k < secrets.len() && call_ensures(
                            verify,
                            (&#[trigger] secrets[k], token),
                            Ok::<SessionClaims, SessionTokenError>(c2),
                        ) && forall|j: int| 0 <= j < k ==> attempt_fails(verify, &#[trigger] secrets[j], token);
                    assert(c2 == c);
                },
                Err(_) => {
                    assert(attempt_fails(verify, &secrets[i], token));
                    let e = choose|e: SessionTokenError| #[trigger] call_ensures(
                        verify,
                        (&secrets[i], token),
                        Err::<SessionClaims, SessionTokenError>(e),
                    );
                    assert(false);
                },
            }
        }
    }
}

/// Verifies `token` with each secret in turn (the current secret first, then any that
/// are still accepted during rotation) and returns the claims of the first secret that
/// verifies it. `verify` checks a token under one secret.
pub fn verify_session_token_with_secrets<F>(secrets: &[String], token: &str, verify: F) -> (r: Result<
    SessionClaims,
    SessionTokenError,
>) where F: Fn(&String, &str) -> Result<SessionClaims, SessionTokenError>
    requires
        forall|i: int| 0 <= i < secrets@.len() ==> call_requires(verify, (&#[trigger] secrets@[i], token)),
    ensures
        secrets_outcome(verify, secrets@, token, r),
{
    let mut i: usize = 0;
    while i < secrets.len()
        invariant
            i <= secrets@.len(),
            forall|k: int| 0 <= k < secrets@.len() ==> call_requires(verify, (&#[trigger] secrets@[k], token)),
            forall|j: int| 0 <= j < i ==> attempt_fails(verify, &#[trigger] secrets@[j], token),
        decreases secrets.len() - i,
    {
        let outcome = verify(&secrets[i], token);
        match outcome {
            Ok(claims) => {
                return Ok(claims);
            },
            Err(e) => {
                assert(call_ensures(verify, (&secrets@[i as int], token), Err::<SessionClaims, SessionTokenError>(e)));
            },
        }
        i += 1;
    }
    Err(SessionTokenError::Decode)
}

} // verus!
