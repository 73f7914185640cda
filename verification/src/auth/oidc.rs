//! OIDC access tokens: choosing the signing key from a JWKS document and the RSA
//! algorithm it names.

use vstd::prelude::*;

use crate::pgwire::message::chars_eq;
use crate::text::chars_of;

verus! {

/// Claims read from a verified OIDC access token.
#[derive(Debug, Clone)]
pub struct OidcClaims {
    pub sub: String,
    pub preferred_username: Option<String>,
    pub iss: Option<String>,
    pub exp: u64,
}

/// Why an OIDC access token was not accepted.
#[derive(Debug, Clone, Copy, PartialEq, Eq, Structural)]
pub enum OidcError {
    InvalidHeader,
    Fetch,
    MissingKey,
    Verify,
}

/// One key of a JWKS document.
#[derive(Debug, Clone)]
pub struct Jwk {
    pub kid: Option<String>,
    pub kty: String,
    pub alg: Option<String>,
    pub n: Option<String>,
    pub e: Option<String>,
}

/// A key can verify a token whose header names key id `kid`: it is an RSA key with
/// modulus and exponent, and when the header names a key id the key has the same id.
pub open spec fn key_usable(k: Jwk, kid: Option<Seq<char>>) -> bool {
    &&& k.kty@ == "RSA"@
    &&& k.n is Some
    &&& k.e is Some
    &&& match kid {
        Some(expected) => k.kid matches Some(actual) && actual@ == expected,
        None => true,
    }
}

pub open spec fn kid_view(kid: Option<String>) -> Option<Seq<char>> {
    match kid {
        Some(s) => Some(s@),
        None => None,
    }
}

fn opt_text_eq(a: &Option<String>, b: &String) -> (r: bool)
    ensures
        r == (*a matches Some(x) && x@ == b@),
{
    match a {
        Some(x) => chars_eq(&chars_of(x.as_str()), &chars_of(b.as_str())),
        None => false,
    }
}

fn usable(k: &Jwk, kid: &Option<String>) -> (r: bool)
    ensures
        r == key_usable(*k, kid_view(*kid)),
{
    if !chars_eq(&chars_of(k.kty.as_str()), &chars_of("RSA")) || k.n.is_none() || k.e.is_none() {
        return false;
    }
    match kid {
        Some(expected) => opt_text_eq(&k.kid, expected),
        None => true,
    }
}

/// `i` is the first key of `keys` that can verify a token naming key id `kid`.
pub open spec fn first_usable(keys: Seq<Jwk>, kid: Option<Seq<char>>, i: int) -> bool {
    &&& 0 <= i < keys.len()
    &&& key_usable(keys[i], kid)
    &&& forall|j: int| 0 <= j < i ==> !key_usable(#[trigger] keys[j], kid)
}

/// The first key of the document that can verify the token.
pub fn select_jwk(keys: &[Jwk], header_kid: &Option<String>) -> (r: Option<usize>)
    ensures
        match r {
            Some(i) => first_usable(keys@, kid_view(*header_kid), i as int),
            None => forall|j: int| 0 <= j < keys@.len() ==> !key_usable(#[trigger] keys@[j], kid_view(*header_kid)),
        },
{
    let mut i: usize = 0;
    while i < keys.len()
        invariant
            i <= keys@.len(),
            forall|j: int| 0 <= j < i ==> !key_usable(#[trigger] keys@[j], kid_view(*header_kid)),
        decreases keys.len() - i,
    {
        if usable(&keys[i], header_kid) {
            return Some(i);
        }
        i += 1;
    }
    None
}

/// The RSA signature algorithms a key may name.
#[derive(Debug, Clone, Copy, PartialEq, Eq, Structural)]
pub enum RsaAlgorithm {
    RS256,
    RS384,
    RS512,
}

/// The algorithm for a key: `RS384` and `RS512` when named, `RS256` otherwise.
pub open spec fn algorithm_for(alg: Option<String>) -> RsaAlgorithm {
    match alg {
        Some(a) => if a@ == "RS384"@ {
            RsaAlgorithm::RS384
        } else if a@ == "RS512"@ {
            RsaAlgorithm::RS512
        } else {
            RsaAlgorithm::RS256
        },
        None => RsaAlgorithm::RS256,
    }
}

/// The name of a signing algorithm as a JWK writes it.
pub open spec fn algorithm_name(a: RsaAlgorithm) -> Seq<char> {
    match a {
        RsaAlgorithm::RS256 => "RS256"@,
        RsaAlgorithm::RS384 => "RS384"@,
        RsaAlgorithm::RS512 => "RS512"@,
    }
}

/// A key that names one of the RSA algorithms is used with exactly that algorithm; a
/// key that names none of them is used with RS256.
pub proof fn law_named_algorithm_is_used(alg: Option<String>)
    ensures
        alg matches Some(a) && (a@ == "RS256"@ || a@ == "RS384"@ || a@ == "RS512"@) ==> algorithm_name(
            algorithm_for(alg),
        ) == alg->0@,
        !(alg matches Some(a) && (a@ == "RS256"@ || a@ == "RS384"@ || a@ == "RS512"@)) ==> algorithm_for(
            alg,
        ) == RsaAlgorithm::RS256,
{
    reveal_strlit("RS256");
    reveal_strlit("RS384");
    reveal_strlit("RS512");
    assert("RS256"@[3] != "RS384"@[3]);
    assert("RS256"@[3] != "RS512"@[3]);
    assert("RS384"@[3] != "RS512"@[3]);
}

pub fn jwk_algorithm(alg: &Option<String>) -> (r: RsaAlgorithm)
    ensures
        r == algorithm_for(*alg),
{
    match alg {
        Some(a) => {
            let c = chars_of(a.as_str());
            if chars_eq(&c, &chars_of("RS384")) {
                RsaAlgorithm::RS384
            } else if chars_eq(&c, &chars_of("RS512")) {
                RsaAlgorithm::RS512
            } else {
                RsaAlgorithm::RS256
            }
        },
        None => RsaAlgorithm::RS256,
    }
}

/// A verified OIDC token is accepted while its expiry lies after the current time.
pub fn oidc_token_current(claims: &OidcClaims, now_epoch_secs: u64) -> (r: bool)
    ensures
        r == (claims.exp > now_epoch_secs),
{
    claims.exp > now_epoch_secs
}

/// The error of the `jsonwebtoken` crate.
#[verifier::external_type_specification]
#[verifier::external_body]
pub struct ExJwtError(jsonwebtoken::errors::Error);

/// The key id that the header of a JWT names, as `jsonwebtoken::decode_header` reads
/// it (`Some(None)` for a header without one), or `None` when the header cannot be read.
pub uninterp spec fn jwt_header_kid(token: Seq<char>) -> Option<Option<Seq<char>>>;

/// `jsonwebtoken::decode_header`, keeping the key id: a deterministic function of the
/// token's text.
#[verifier::external_body]
fn header_kid(token: &str) -> (r: Result<Option<String>, jsonwebtoken::errors::Error>)
    ensures
        match r {
            Ok(k) => jwt_header_kid(token@) == Some(kid_view(k)),
            Err(_) => jwt_header_kid(token@) is None,
        },
{
    jsonwebtoken::decode_header(token).map(|h| h.kid)
}

/// The outcome of verifying an access token, given what reading the JWKS document
/// gave (`parsed`) and the key id of the token's header: an unreadable document is a
/// fetch error, a document without a usable key a missing key, and otherwise the token
/// is decoded with the first usable key and the algorithm that key names.
pub open spec fn jwks_outcome<D: Fn(&str, &Jwk, RsaAlgorithm, Option<&str>, Option<&str>) -> Result<OidcClaims, OidcError>>(
    decode: D,
    token: &str,
    issuer: Option<&str>,
    audience: Option<&str>,
    kid: Option<Seq<char>>,
    parsed: Option<Vec<Jwk>>,
    r: Result<OidcClaims, OidcError>,
) -> bool {
    match parsed {
        None => r == Err::<OidcClaims, OidcError>(OidcError::Fetch),
        Some(keys) => if forall|j: int| 0 <= j < keys@.len() ==> !key_usable(#[trigger] keys@[j], kid) {
            r == Err::<OidcClaims, OidcError>(OidcError::MissingKey)
        } else {
            exists|i: int|
                #[trigger] first_usable(keys@, kid, i) && call_ensures(
                    decode,
                    (token, &keys@[i], algorithm_for(keys@[i].alg), issuer, audience),
                    r,
                )
        },
    }
}

/// Verifies an OIDC access token against a JWKS document: reads the key id from the
/// token's header, reads the keys of the document with `parse_jwks`, picks the first
/// usable key and decodes the token with it, the algorithm it names and the expected
/// issuer and audience (`decode` checks signature and claims).
pub fn verify_oidc_access_token_with_jwks_json<P, D>(
    token: &str,
    jwks_json: &str,
    issuer: Option<&str>,
    audience: Option<&str>,
    parse_jwks: P,
    decode: D,
) -> (r: Result<OidcClaims, OidcError>) where
    P: Fn(&str) -> Option<Vec<Jwk>>,
    D: Fn(&str, &Jwk, RsaAlgorithm, Option<&str>, Option<&str>) -> Result<OidcClaims, OidcError>,

    requires
        call_requires(parse_jwks, (jwks_json,)),
        forall|k: &Jwk, a: RsaAlgorithm| call_requires(decode, (token, k, a, issuer, audience)),
    ensures
        match jwt_header_kid(token@) {
            None => r == Err::<OidcClaims, OidcError>(OidcError::InvalidHeader),
            Some(kid) => exists|parsed: Option<Vec<Jwk>>|
                #[trigger] call_ensures(parse_jwks, (jwks_json,), parsed) && jwks_outcome(
                    decode,
                    token,
                    issuer,
                    audience,
                    kid,
                    parsed,
                    r,
                ),
        },
{
    let kid = match header_kid(token) {
        Ok(k) => k,
        Err(_) => {
            return Err(OidcError::InvalidHeader);
        },
    };
    let parsed = parse_jwks(jwks_json);
    let keys = match parsed {
        None => {
            return Err(OidcError::Fetch);
        },
        Some(v) => v,
    };
    let ghost kv = kid_view(kid);
    match select_jwk(keys.as_slice(), &kid) {
        None => Err(OidcError::MissingKey),
        Some(i) => {
            let alg = jwk_algorithm(&keys[i].alg);
            let r = decode(token, &keys[i], alg, issuer, audience);
            assert(first_usable(keys@, kv, i as int));
            r
        },
    }
}

} // verus!
