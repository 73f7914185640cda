//! Who may call the REST API: the `Authorization` header read as a bearer token or
//! basic credentials, the user table of bcrypt hashes, revoked session tokens, the
//! cached JWKS document of `oidc` mode, and session login and logout.

use vstd::prelude::*;

use base64::Engine;

use crate::auth::jwt::{SessionClaims, SessionTokenError};
use crate::auth::password::{hash_password, password_check, verify_password, PasswordError};
use crate::auth::session::SessionContext;
use crate::config::AuthMode;
use crate::pgwire::encode::utf8;
use crate::pgwire::message::decode_text;
use crate::pgwire::names::NameMap;
use crate::rest::Reply;
use crate::text::{
    chars_of, concat_chars, find_chars, first_occurrence, never_occurs, slice_chars, starts_with,
    starts_with_chars, string_from_chars,
};
use vstd::utf8::{decode_utf8, valid_utf8};

verus! {

broadcast use vstd::string::group_string_axioms;

/// The error of the `base64` crate's decoder.
#[verifier::external_type_specification]
#[verifier::external_body]
pub struct ExDecodeError(base64::DecodeError);

/// What the standard base64 engine (standard alphabet, padding required) decodes
/// from the given bytes, or `None` when they are not valid base64.
pub uninterp spec fn standard_base64_decode(input: Seq<u8>) -> Option<Seq<u8>>;

/// `base64::engine::general_purpose::STANDARD.decode`: a deterministic function of
/// the input bytes.
#[verifier::external_body]
fn base64_decode(input: &[u8]) -> (r: Result<Vec<u8>, base64::DecodeError>)
    ensures
        match r {
            Ok(v) => standard_base64_decode(input@) == Some(v@),
            Err(_) => standard_base64_decode(input@) is None,
        },
{
    base64::engine::general_purpose::STANDARD.decode(input)
}

/// A byte a header value may hold as text: visible ASCII or a tab.
pub open spec fn visible_ascii(b: u8) -> bool {
    (32 <= b && b < 127) || b == 9
}

/// The text of header bytes that are all visible ASCII (one character per byte).
pub open spec fn ascii_text(b: Seq<u8>) -> Seq<char> {
    b.map_values(|x: u8| (x as u32) as char)
}

/// A header value as text, as `HeaderValue::to_str` reads it: `None` unless every
/// byte is visible ASCII or a tab.
pub fn header_text(value: &[u8]) -> (r: Option<String>)
    ensures
        (forall|i: int| 0 <= i < value@.len() ==> visible_ascii(#[trigger] value@[i])) ==> (r matches Some(t) && t@
            == ascii_text(value@)),
        !(forall|i: int| 0 <= i < value@.len() ==> visible_ascii(#[trigger] value@[i])) ==> r is None,
{
    let mut out: Vec<char> = Vec::new();
    let mut i: usize = 0;
    while i < value.len()
        invariant
            i <= value@.len(),
            forall|k: int| 0 <= k < i ==> visible_ascii(#[trigger] value@[k]),
            out@ == ascii_text(value@.take(i as int)),
        decreases value.len() - i,
    {
        let b = value[i];
        if !((32 <= b && b < 127) || b == 9) {
            return None;
        }
        out.push(crate::text::char_of_byte(b));
        proof {
            assert(ascii_text(value@.take(i + 1)) =~= ascii_text(value@.take(i as int)).push((b as u32) as char));
        }
        i += 1;
    }
    assert(value@.take(value@.len() as int) =~= value@);
    Some(string_from_chars(&out))
}

/// How a request asks to be let in.
pub enum AuthRoute {
    /// Not let in.
    Reject,
    /// An `oidc` access token, to be verified against the JWKS document at `jwks_url`.
    Oidc { token: String, jwks_url: String },
    /// A session token issued by login.
    Session { token: String },
    /// A user name and password.
    Basic { user: String, password: String },
}

/// The credentials of an `Authorization: Basic` value after the prefix: base64 of
/// `user:password`, split at the first colon.
pub open spec fn basic_route(encoded: Seq<u8>, r: AuthRoute) -> bool {
    match standard_base64_decode(encoded) {
        None => r is Reject,
        Some(raw) => if !valid_utf8(raw) {
            r is Reject
        } else {
            let text = decode_utf8(raw);
            if never_occurs(text, seq![':']) {
                r is Reject
            } else {
                r matches AuthRoute::Basic { user, password } && exists|i: int|
                    first_occurrence(text, seq![':'], i) && user@ == text.take(i) && password@ == text.skip(i + 1)
            }
        },
    }
}

/// How a request with the given `Authorization` header value asks to be let in: in
/// `oidc` mode only a bearer access token (and only when a JWKS URL is configured);
/// otherwise a bearer session token or basic credentials.
pub open spec fn auth_route(header: Option<Seq<u8>>, mode: AuthMode, jwks_url: Option<Seq<char>>, r: AuthRoute) -> bool {
    match header {
        None => r is Reject,
        Some(h) => if !(forall|i: int| 0 <= i < h.len() ==> visible_ascii(#[trigger] h[i])) {
            r is Reject
        } else {
            let t = ascii_text(h);
            if mode == AuthMode::Oidc {
                if !starts_with(t, "Bearer "@) {
                    r is Reject
                } else {
                    match jwks_url {
                        None => r is Reject,
                        Some(u) => r matches AuthRoute::Oidc { token, jwks_url: url } && token@ == t.skip(7)
                            && url@ == u,
                    }
                }
            } else if starts_with(t, "Bearer "@) {
                r matches AuthRoute::Session { token } && token@ == t.skip(7)
            } else if starts_with(t, "Basic "@) {
                basic_route(h.skip(6), r)
            } else {
                r is Reject
            }
        },
    }
}

pub open spec fn opt_view(o: Option<String>) -> Option<Seq<char>> {
    match o {
        Some(s) => Some(s@),
        None => None,
    }
}

fn copy_text(s: &str) -> (r: String)
    ensures
        r@ == s@,
{
    string_from_chars(&chars_of(s))
}

/// Reads the `Authorization` header value (if any) of a request.
pub fn route_auth(header: Option<&[u8]>, mode: AuthMode, jwks_url: &Option<String>) -> (r: AuthRoute)
    ensures
        auth_route(
            match header {
                Some(h) => Some(h@),
                None => None,
            },
            mode,
            opt_view(*jwks_url),
            r,
        ),
{
    let h = match header {
        None => {
            return AuthRoute::Reject;
        },
        Some(h) => h,
    };
    let text = match header_text(h) {
        None => {
            return AuthRoute::Reject;
        },
        Some(t) => t,
    };
    let t = chars_of(text.as_str());
    let bearer = starts_with_chars(&t, &chars_of("Bearer "));
    proof {
        reveal_strlit("Bearer ");
        reveal_strlit("Basic ");
    }
    if mode == AuthMode::Oidc {
        if !bearer {
            return AuthRoute::Reject;
        }
        return match jwks_url {
            None => AuthRoute::Reject,
            Some(u) => AuthRoute::Oidc {
                token: string_from_chars(&slice_chars(&t, 7, t.len())),
                jwks_url: copy_text(u.as_str()),
            },
        };
    }
    if bearer {
        return AuthRoute::Session { token: string_from_chars(&slice_chars(&t, 7, t.len())) };
    }
    if !starts_with_chars(&t, &chars_of("Basic ")) {
        return AuthRoute::Reject;
    }
    let encoded = &h[6..h.len()];
    assert(encoded@ =~= h@.skip(6));
    let raw = match base64_decode(encoded) {
        Ok(v) => v,
        Err(_) => {
            return AuthRoute::Reject;
        },
    };
    let decoded = match decode_text(raw.as_slice()) {
        Ok(s) => s,
        Err(_) => {
            return AuthRoute::Reject;
        },
    };
    let c = chars_of(decoded.as_str());
    let mut colon: Vec<char> = Vec::new();
    colon.push(':');
    assert(colon@ =~= seq![':']);
    match find_chars(&c, &colon) {
        None => AuthRoute::Reject,
        Some(i) => {
            assert(crate::text::occurs_at(c@, colon@, i as int));
            let n = c.len();
            assert(i + 1 <= n);
            let user = string_from_chars(&slice_chars(&c, 0, i));
            let password = string_from_chars(&slice_chars(&c, i + 1, n));
            assert(user@ =~= c@.take(i as int));
            assert(password@ =~= c@.skip(i + 1));
            AuthRoute::Basic { user, password }
        },
    }
}

/// The users the API knows, each with the bcrypt hash of their password.
pub struct UserTable {
    users: NameMap<String>,
}

impl UserTable {
    pub closed spec fn wf(&self) -> bool {
        self.users.wf()
    }

    /// Password hashes by user name.
    pub closed spec fn hashes(&self) -> Map<Seq<char>, Seq<char>> {
        self.users@.map_values(|h: String| h@)
    }

    /// A table with one user, whose password is hashed here.
    pub fn with_user(user: &str, password: &str) -> (r: Result<UserTable, PasswordError>)
        ensures
            r matches Ok(t) ==> t.wf() && t.hashes().dom() == set![user@] && password_check(
                utf8(password@),
                t.hashes()[user@],
            ) == Ok::<bool, PasswordError>(true),
            r is Err ==> r == Err::<UserTable, PasswordError>(PasswordError::Hash),
    {
        let hash = hash_password(password.as_bytes())?;
        let ghost hv = hash@;
        let mut users: NameMap<String> = NameMap::new();
        users.insert(copy_text(user), hash);
        let t = UserTable { users };
        assert(t.hashes().dom() =~= set![user@]);
        assert(t.hashes()[user@] == hv);
        Ok(t)
    }

    /// The stored hash of a user.
    pub fn hash_of(&self, user: &str) -> (r: Option<&String>)
        requires
            self.wf(),
        ensures
            match r {
                Some(h) => self.hashes().contains_key(user@) && h@ == self.hashes()[user@],
                None => !self.hashes().contains_key(user@),
            },
    {
        self.users.get(user)
    }

    /// Whether `password` checks against the stored hash of `user`; an unknown user,
    /// a wrong password and an unusable hash all fail.
    pub fn credentials_ok(&self, user: &str, password: &str) -> (r: bool)
        requires
            self.wf(),
        ensures
            r == (self.hashes().contains_key(user@) && password_check(utf8(password@), self.hashes()[user@])
                == Ok::<bool, PasswordError>(true)),
    {
        match self.hash_of(user) {
            None => false,
            Some(h) => match verify_password(password.as_bytes(), h.as_str()) {
                Ok(b) => b,
                Err(_) => false,
            },
        }
    }
}

/// The secrets session tokens are verified with: the current one first, then the
/// previous one while secrets rotate (when given and different).
pub fn session_secrets(current: &str, previous: &Option<String>) -> (r: Vec<String>)
    ensures
        match previous {
            Some(p) => if p@ != current@ {
                r@.len() == 2 && r@[0]@ == current@ && r@[1]@ == p@
            } else {
                r@.len() == 1 && r@[0]@ == current@
            },
            None => r@.len() == 1 && r@[0]@ == current@,
        },
{
    let mut v: Vec<String> = Vec::new();
    v.push(copy_text(current));
    if let Some(p) = previous {
        if !crate::pgwire::message::chars_eq(&chars_of(p.as_str()), &chars_of(current)) {
            v.push(copy_text(p.as_str()));
        }
    }
    v
}

/// The ids of session tokens that were revoked.
pub struct RevokedTokens {
    ids: NameMap<()>,
}

impl RevokedTokens {
    pub closed spec fn wf(&self) -> bool {
        self.ids.wf()
    }

    /// The revoked token ids.
    pub closed spec fn ids(&self) -> Set<Seq<char>> {
        self.ids@.dom()
    }

    pub fn new() -> (r: Self)
        ensures
            r.wf(),
            r.ids().is_empty(),
    {
        RevokedTokens { ids: NameMap::new() }
    }

    pub fn contains(&self, id: &str) -> (r: bool)
        requires
            self.wf(),
        ensures
            r == self.ids().contains(id@),
    {
        self.ids.get(id).is_some()
    }

    /// Revokes a token id; `false` when it was already revoked.
    pub fn insert(&mut self, id: &str) -> (r: bool)
        requires
            old(self).wf(),
        ensures
            final(self).wf(),
            r == !old(self).ids().contains(id@),
            final(self).ids() == old(self).ids().insert(id@),
    {
        if self.ids.get(id).is_some() {
            return false;
        }
        self.ids.insert(copy_text(id), ());
        assert(self.ids@.dom() =~= old(self).ids@.dom().insert(id@));
        true
    }
}

/// A session token lets a request in when its claims were verified and its id is not
/// among the revoked ones.
pub open spec fn token_admitted(claims: Result<SessionClaims, SessionTokenError>, revoked: Set<Seq<char>>) -> bool {
    claims matches Ok(c) && !revoked.contains(c.jti@)
}

/// Once a logout revoked a token's id, the token no longer lets a request in, and a
/// second logout of it is answered as for an unknown token.
pub proof fn law_logout_revokes(revoked: Set<Seq<char>>, c: SessionClaims)
    ensures
        !token_admitted(Ok(c), revoked.insert(c.jti@)),
        revoked.insert(c.jti@).contains(c.jti@),
{
}

/// Whether a verified session token lets a request in.
pub fn session_token_ok(claims: &Result<SessionClaims, SessionTokenError>, revoked: &RevokedTokens) -> (r: bool)
    requires
        revoked.wf(),
    ensures
        r == token_admitted(*claims, revoked.ids()),
{
    match claims {
        Ok(c) => !revoked.contains(c.jti.as_str()),
        Err(_) => false,
    }
}

/// `401 Unauthorized` (sent with `WWW-Authenticate: Basic realm="opensnow"`).
pub fn unauthorized() -> (r: Reply)
    ensures
        r.status == 401,
        r.message@ == "Authentication required"@,
{
    Reply { status: 401, message: "Authentication required".to_string() }
}

/// The JWKS document fetched last in `oidc` mode and when (seconds since the epoch).
pub struct JwksCache {
    entry: Option<(String, u64)>,
}

/// How long ago `then` was, as seen at `now`; zero when the clock went back.
pub open spec fn age(now: u64, then: u64) -> int {
    if now >= then {
        now - then
    } else {
        0
    }
}

/// The cached document if it is younger than `ttl`.
pub open spec fn fresh_document(entry: Option<(Seq<char>, u64)>, ttl: u64, now: u64) -> Option<Seq<char>> {
    match entry {
        Some((j, t)) => if age(now, t) < ttl {
            Some(j)
        } else {
            None
        },
        None => None,
    }
}

/// A document just fetched is used until it is `ttl` seconds old (with a positive
/// `ttl`), and not after.
pub proof fn law_fetched_document_stays_fresh(j: Seq<char>, fetched_at: u64, ttl: u64, now: u64)
    requires
        fetched_at <= now,
    ensures
        now - fetched_at < ttl ==> fresh_document(Some((j, fetched_at)), ttl, now) == Some(j),
        now - fetched_at >= ttl ==> fresh_document(Some((j, fetched_at)), ttl, now) is None,
{
}

impl JwksCache {
    /// The cached document and its fetch time.
    pub closed spec fn entry(&self) -> Option<(Seq<char>, u64)> {
        match self.entry {
            Some((j, t)) => Some((j@, t)),
            None => None,
        }
    }

    pub fn new() -> (r: Self)
        ensures
            r.entry() is None,
    {
        JwksCache { entry: None }
    }

    /// The cached document while it is younger than `ttl_secs`.
    pub fn fresh(&self, ttl_secs: u64, now_secs: u64) -> (r: Option<String>)
        ensures
            opt_view(r) == fresh_document(self.entry(), ttl_secs, now_secs),
    {
        match &self.entry {
            Some((j, t)) => {
                let a = now_secs.saturating_sub(*t);
                if a < ttl_secs {
                    Some(copy_text(j.as_str()))
                } else {
                    None
                }
            },
            None => None,
        }
    }

    /// Takes the outcome of fetching the document at `now_secs`: a fetched document is
    /// cached and used; when the fetch failed, a cached document is used however old,
    /// and without one the request fails.
    pub fn after_fetch(&mut self, fetched: Result<String, String>, now_secs: u64) -> (r: Result<String, String>)
        ensures
            match fetched {
                Ok(j) => r matches Ok(x) && x@ == j@ && final(self).entry() == Some((j@, now_secs)),
                Err(e) => final(self).entry() == old(self).entry() && match old(self).entry() {
                    Some((j, _)) => r matches Ok(x) && x@ == j,
                    None => r matches Err(m) && m@ == "failed to fetch oidc jwks: "@ + e@,
                },
            },
    {
        match fetched {
            Ok(j) => {
                self.entry = Some((copy_text(j.as_str()), now_secs));
                Ok(j)
            },
            Err(e) => match &self.entry {
                Some((j, _)) => Ok(copy_text(j.as_str())),
                None => Err(
                    string_from_chars(&concat_chars(&chars_of("failed to fetch oidc jwks: "), &chars_of(e.as_str()))),
                ),
            },
        }
    }
}

/// A login request.
#[derive(Debug, Clone, PartialEq, Eq)]
pub struct SessionRequest {
    pub username: String,
    pub password: String,
    pub role: Option<String>,
    pub warehouse: Option<String>,
    pub database: Option<String>,
    pub schema: Option<String>,
    pub session_ttl_seconds: Option<u64>,
}

/// What a login leads to.
pub enum LoginStep {
    /// Answer with this reply.
    Refuse(Reply),
    /// Issue a token for this session, valid for `ttl_secs`.
    Issue { session: SessionContext, ttl_secs: u64 },
}

/// The reply to a login in `oidc` mode.
pub open spec fn login_disabled_message() -> Seq<char> {
    "Session login endpoint is disabled in oidc auth mode"@
}

/// The reply to a logout in `oidc` mode.
pub open spec fn logout_disabled_message() -> Seq<char> {
    "Session revoke endpoint is disabled in oidc auth mode"@
}

/// Decides a login: refused in `oidc` mode (`405`) and for bad credentials (`401`);
/// otherwise a session of account `local` for the user, with the requested role
/// (`PUBLIC` by default), warehouse, database and schema, valid for the requested
/// number of seconds (an hour by default).
pub fn login(mode: AuthMode, users: &UserTable, req: SessionRequest) -> (r: LoginStep)
    requires
        users.wf(),
    ensures
        mode == AuthMode::Oidc ==> (r matches LoginStep::Refuse(rep) && rep.status == 405 && rep.message@
            == login_disabled_message()),
        mode != AuthMode::Oidc && !(users.hashes().contains_key(req.username@) && password_check(
            utf8(req.password@),
            users.hashes()[req.username@],
        ) == Ok::<bool, PasswordError>(true)) ==> (r matches LoginStep::Refuse(rep) && rep.status == 401
            && rep.message@ == "Authentication required"@),
        mode != AuthMode::Oidc && users.hashes().contains_key(req.username@) && password_check(
            utf8(req.password@),
            users.hashes()[req.username@],
        ) == Ok::<bool, PasswordError>(true) ==> (r matches LoginStep::Issue { session, ttl_secs } && {
            &&& opt_view(session.account) == Some("local"@)
            &&& opt_view(session.user) == Some(req.username@)
            &&& opt_view(session.role) == (match req.role {
                Some(x) => Some(x@),
                None => Some("PUBLIC"@),
            })
            &&& opt_view(session.warehouse) == opt_view(req.warehouse)
            &&& opt_view(session.database) == opt_view(req.database)
            &&& opt_view(session.schema) == opt_view(req.schema)
            &&& ttl_secs == (match req.session_ttl_seconds {
                Some(t) => t,
                None => 3600u64,
            })
        }),
{
    if mode == AuthMode::Oidc {
        return LoginStep::Refuse(
            Reply { status: 405, message: "Session login endpoint is disabled in oidc auth mode".to_string() },
        );
    }
    if !users.credentials_ok(req.username.as_str(), req.password.as_str()) {
        return LoginStep::Refuse(unauthorized());
    }
    let role = match req.role {
        Some(x) => Some(x),
        None => Some("PUBLIC".to_string()),
    };
    let ttl_secs = match req.session_ttl_seconds {
        Some(t) => t,
        None => 3600,
    };
    let session = SessionContext {
        account: Some("local".to_string()),
        user: Some(req.username),
        role,
        warehouse: req.warehouse,
        database: req.database,
        schema: req.schema,
    };
    LoginStep::Issue { session, ttl_secs }
}

/// When a session issued at `now_ms` (milliseconds) for `ttl_secs` seconds expires.
pub fn session_expiry_ms(now_ms: u128, ttl_secs: u64) -> (r: u128)
    requires
        now_ms + ttl_secs * 1000 <= u128::MAX,
    ensures
        r == now_ms + ttl_secs * 1000,
{
    now_ms + (ttl_secs as u128) * 1000
}

/// The reply when a session token could not be created.
pub fn token_failure() -> (r: Reply)
    ensures
        r.status == 500,
        r.message@ == "Failed to create session token"@,
{
    Reply { status: 500, message: "Failed to create session token".to_string() }
}

/// Decides a logout with the verified claims of the token (or the verification
/// error): refused in `oidc` mode (`405`); an invalid or already revoked token is
/// unknown (`404`); otherwise its id is revoked.
pub fn logout(mode: AuthMode, revoked: &mut RevokedTokens, claims: Result<SessionClaims, SessionTokenError>) -> (r: Reply)
    requires
        old(revoked).wf(),
    ensures
        final(revoked).wf(),
        mode == AuthMode::Oidc ==> r.status == 405 && r.message@ == logout_disabled_message() && final(revoked).ids()
            == old(revoked).ids(),
        mode != AuthMode::Oidc ==> match claims {
            Err(_) => r.status == 404 && r.message@ == "Unknown session token"@ && final(revoked).ids() == old(
                revoked,
            ).ids(),
            Ok(c) => {
                &&& final(revoked).ids() == old(revoked).ids().insert(c.jti@)
                &&& if old(revoked).ids().contains(c.jti@) {
                    r.status == 404 && r.message@ == "Unknown session token"@
                } else {
                    r.status == 200 && r.message@ == "Session revoked"@
                }
            },
        },
{
    if mode == AuthMode::Oidc {
        return Reply { status: 405, message: "Session revoke endpoint is disabled in oidc auth mode".to_string() };
    }
    match claims {
        Err(_) => Reply { status: 404, message: "Unknown session token".to_string() },
        Ok(c) => {
            if revoked.insert(c.jti.as_str()) {
                Reply { status: 200, message: "Session revoked".to_string() }
            } else {
                Reply { status: 404, message: "Unknown session token".to_string() }
            }
        },
    }
}

} // verus!
