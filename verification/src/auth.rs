//! Admission at the relay: API keys and session tokens.
//!
//! A request is admitted when it carries a known API key; admitted callers
//! get a short signed claim (subject, audience, expiry) wrapped in base64.
//! The signing and wrapping are done by outside crates behind the trusted
//! items below; everything decided here — which keys are valid, what a
//! claim carries, when admission is refused — is verified.

use vstd::prelude::*;

use vstd::utf8::{decode_utf8, encode_utf8, valid_utf8};

use crate::codec::bytes_to_string;
use crate::order::{str_compare, StrOrd};

verus! {

/// The HMAC secret the relay signs claims with.
const SECRET: &'static str = "mightysecretb000o";

/// The relay's admission error.
#[derive(Debug, Clone, Copy, PartialEq, Eq, Structural)]
pub enum WebError {
    InvalidAPIKey,
}

impl WebError {
    /// The response body for this error.
    pub fn message(&self) -> (s: &'static str)
        ensures
            s@ == "invalid API key"@,
    {
        "invalid API key"
    }

    /// The HTTP status this error answers with.
    pub fn status_code(&self) -> (c: u16)
        ensures
            c == 401,
    {
        401
    }
}

/// The API key the relay accepts.
pub open spec fn spec_api_key() -> Seq<char> {
    "ZXlKMGVYQWlPaUpLVjFRaUxDSmhiR2NpT2lKSVV6STFOaUo5LmV5SnpkV0lpT2lKeVlYTjJhU0lzSW1GMVpDSTZJbWgwZEhCek9pOHZZV3hzYjNScGVtVXVZMjl0SWl3aVpYaHdJam94TmpVM01Ea3hNVGN4ZlEuR09YQnRRTGJYUHRtYkhDSy00b3pMSnI1Q09QRzgtMXNzTjgtMWROeXlmQQ=="@
}

/// Whether a presented key is one the relay accepts. Admission to `/auth`
/// and `/connect` turns on exactly this test: a request without a valid
/// key is answered 401 before any room state is touched.
pub fn api_key_valid(key: &str) -> (r: bool)
    ensures
        r <==> key@ == spec_api_key(),
{
    matches!(
        str_compare(
            key,
            "ZXlKMGVYQWlPaUpLVjFRaUxDSmhiR2NpT2lKSVV6STFOaUo5LmV5SnpkV0lpT2lKeVlYTjJhU0lzSW1GMVpDSTZJbWgwZEhCek9pOHZZV3hzYjNScGVtVXVZMjl0SWl3aVpYaHdJam94TmpVM01Ea3hNVGN4ZlEuR09YQnRRTGJYUHRtYkhDSy00b3pMSnI1Q09QRzgtMXNzTjgtMWROeXlmQQ=="
        ),
        StrOrd::Eq
    )
}

/// The signed token the signer produces for a claim: a fixed function of
/// subject, audience and expiry (the signing key is a process constant).
pub uninterp spec fn token_of(sub: Seq<char>, aud: Seq<char>, exp: u64) -> Seq<char>;

/// What a signed token decodes to, when its signature checks out: the
/// claim it was made from, or nothing for text that never was a token.
pub uninterp spec fn claims_of(token: Seq<char>) -> Option<(Seq<char>, Seq<char>, u64)>;

/// What base64 text decodes to; encoding then decoding gives the input
/// back, as the crate documents.
pub uninterp spec fn b64_decoded(s: Seq<char>) -> Option<Seq<u8>>;

/// Relies on `jsonwebtoken::encode` with the default HS256 header: the
/// token is a deterministic function of the claim fields (HMAC signing
/// involves no randomness), `jsonwebtoken::decode` reads the same claim
/// back out of it, and for a string-keyed claim object of two strings and
/// an integer it cannot fail (the key family matches the header, JSON
/// serialisation of such an object cannot error, and HMAC signing cannot
/// error), so the call always yields a token.
#[verifier::external_body]
fn jwt_encode(sub: &str, aud: &str, exp: u64) -> (r: Option<String>)
    ensures
        r is Some,
        r matches Some(t) ==> t@ == token_of(sub@, aud@, exp) && claims_of(t@) == Some(
            (sub@, aud@, exp),
        ),
{
    let mut claims = serde_json::Map::new();
    claims.insert("sub".to_string(), serde_json::Value::from(sub));
    claims.insert("aud".to_string(), serde_json::Value::from(aud));
    claims.insert("exp".to_string(), serde_json::Value::from(exp));
    jsonwebtoken::encode(
        &jsonwebtoken::Header::default(),
        &serde_json::Value::Object(claims),
        &jsonwebtoken::EncodingKey::from_secret(SECRET.as_ref()),
    )
        .ok()
}

/// Relies on `jsonwebtoken::decode` with HS256: it succeeds only when the
/// signature verifies and the expiry has not passed (so success depends
/// on the clock), and then yields the claim the token carries.
#[verifier::external_body]
fn jwt_decode(token: &str) -> (r: Option<(String, String, u64)>)
    ensures
        r matches Some(c) ==> claims_of(token@) == Some((c.0@, c.1@, c.2)),
{
    let key = jsonwebtoken::DecodingKey::from_secret(SECRET.as_ref());
    let data = jsonwebtoken::decode::<serde_json::Value>(
        token,
        &key,
        &jsonwebtoken::Validation::default(),
    )
        .ok()?;
    let sub = data.claims.get("sub")?.as_str()?.to_string();
    let aud = data.claims.get("aud")?.as_str()?.to_string();
    let exp = data.claims.get("exp")?.as_u64()?;
    Some((sub, aud, exp))
}

/// Relies on `base64::encode` (standard alphabet): deterministic, and
/// `base64::decode` inverts it.
#[verifier::external_body]
fn base64_encode(data: &[u8]) -> (r: String)
    ensures
        b64_decoded(r@) == Some(data@),
{
    base64::encode(data)
}

/// Relies on `base64::decode`: it yields exactly what the text encodes,
/// or nothing for text that is not base64.
#[verifier::external_body]
fn base64_decode(s: &str) -> (r: Option<Vec<u8>>)
    ensures
        match r {
            Some(v) => b64_decoded(s@) == Some(v@),
            None => b64_decoded(s@) is None,
        },
{
    base64::decode(s).ok()
}

/// Relies on `chrono::Utc::now` for the wall clock, read as seconds since
/// the epoch. Nothing is assumed about the value.
#[verifier::external_body]
fn now_unix() -> (t: i64) {
    chrono::Utc::now().timestamp()
}

/// A signed admission claim: who it was issued to, for which audience,
/// and until when (seconds since the epoch).
pub struct Claims {
    pub sub: String,
    pub aud: String,
    pub exp: u64,
}

impl Claims {
    /// A claim for `sub` at `aud`, expiring `valid_for_secs` from now.
    pub fn new(sub: String, aud: String, valid_for_secs: u64) -> (c: Claims)
        ensures
            c.sub@ == sub@,
            c.aud@ == aud@,
    {
        let now = now_unix();
        let base: u64 = if now > 0 {
            now as u64
        } else {
            0
        };
        let exp = if base > u64::MAX - valid_for_secs {
            u64::MAX
        } else {
            base + valid_for_secs
        };
        Claims { sub, aud, exp }
    }

    /// Signs the claim and wraps the token in base64. Signing a claim
    /// cannot fail, so a token is always produced.
    pub fn tokenize(&self) -> (r: Option<String>)
        ensures
            r is Some,
            r matches Some(t) ==> b64_decoded(t@) == Some(
                encode_utf8(token_of(self.sub@, self.aud@, self.exp)),
            ) && claims_of(token_of(self.sub@, self.aud@, self.exp)) == Some(
                (self.sub@, self.aud@, self.exp),
            ),
    {
        let jwt = match jwt_encode(self.sub.as_str(), self.aud.as_str(), self.exp) {
            Some(t) => t,
            None => {
                return None;
            },
        };
        let wrapped = base64_encode(jwt.as_str().as_bytes());
        Some(wrapped)
    }

    /// Unwraps and verifies a token. Text that is not base64, or whose
    /// unwrapped bytes are not text, is refused outright; past that, the
    /// claim is handed back exactly when the signature checks out and the
    /// expiry has not passed, and it is the claim the token carries.
    pub fn decode(token: &str) -> (r: Option<Claims>)
        ensures
            r matches Some(c) ==> match b64_decoded(token@) {
                Some(bs) => valid_utf8(bs) && claims_of(decode_utf8(bs)) == Some(
                    (c.sub@, c.aud@, c.exp),
                ),
                None => false,
            },
            b64_decoded(token@) is None ==> r is None,
            b64_decoded(token@) matches Some(bs) && !valid_utf8(bs) ==> r is None,
    {
        let unwrapped = match base64_decode(token) {
            Some(v) => v,
            None => {
                return None;
            },
        };
        let jwt = match bytes_to_string(unwrapped) {
            Some(s) => s,
            None => {
                return None;
            },
        };
        match jwt_decode(jwt.as_str()) {
            Some((sub, aud, exp)) => Some(Claims { sub, aud, exp }),
            None => None,
        }
    }
}

/// The `/auth` decision: a valid key — and nothing else — gets a session
/// token and a signed claim for the presented key at the service's
/// audience; anything else is refused with 401, and no room state is in
/// reach of this function at all.
pub fn authorize(x_api_key: &str, valid_for_secs: u64) -> (r: Result<(String, String), WebError>)
    ensures
        r is Ok <==> x_api_key@ == spec_api_key(),
        r is Err ==> r == Err::<(String, String), WebError>(WebError::InvalidAPIKey),
        r matches Ok(out) ==> out.0@ == "ok"@ && (exists|exp: u64|
            b64_decoded(out.1@) == Some(
                encode_utf8(#[trigger] token_of(x_api_key@, "allotize.com"@, exp)),
            )),
{
    if !api_key_valid(x_api_key) {
        return Err(WebError::InvalidAPIKey);
    }
    let claims = Claims::new(x_api_key.to_owned(), "allotize.com".to_owned(), valid_for_secs);
    match claims.tokenize() {
        Some(token) => {
            proof {
                assert(b64_decoded(token@) == Some(
                    encode_utf8(token_of(x_api_key@, "allotize.com"@, claims.exp)),
                ));
            }
            Ok(("ok".to_owned(), token))
        },
        None => {
            proof {
                assert(false);
            }
            Err(WebError::InvalidAPIKey)
        },
    }
}

/// The `/connect` admission check: the upgrade proceeds only with a valid
/// key; an invalid key is refused before the room registry is touched.
pub fn connect_allowed(x_api_key: &str) -> (r: bool)
    ensures
        r <==> x_api_key@ == spec_api_key(),
{
    api_key_valid(x_api_key)
}

} // verus!
