//! HTTP basic authentication: header parsing, credential validation, and
//! the policy decision of when a request must authenticate.

use vstd::prelude::*;
use vstd::string::StringExecFns;
use vstd::string::StringSliceAdditionalSpecFns;
use vstd::utf8::*;

use base64::Engine as _;

use crate::config::{SecurityConfig, SecurityPolicy};
use crate::strutil::string_from_utf8;
use crate::Method;

verus! {

/// Basic authentication credentials.
#[derive(Debug, Clone)]
pub struct BasicCredentials {
    pub username: String,
    pub password: String,
}

/// What decoding a standard-alphabet base64 text yields; the result depends
/// on the characters alone.
pub uninterp spec fn base64_decoded(s: Seq<char>) -> Option<Seq<u8>>;

/// Relies on base64's `STANDARD` engine `decode`: strict standard alphabet
/// with padding, a pure function of the input text.
#[verifier::external_body]
fn base64_decode_standard(s: &str) -> (r: Option<Vec<u8>>)
    ensures
        r is Some <==> base64_decoded(s@) is Some,
        r matches Some(v) ==> base64_decoded(s@) == Some(v@),
{
    base64::engine::general_purpose::STANDARD.decode(s).ok()
}

/// Constant-time byte comparison: equal lengths are compared to the end
/// with no early exit on a mismatch.
pub fn constant_time_eq(a: &[u8], b: &[u8]) -> (r: bool)
    ensures
        r == (a@ == b@),
{
    if a.len() != b.len() {
        proof {
            assert(a@ != b@);
        }
        return false;
    }
    let len = a.len();
    let mut acc: u8 = 0;
    let mut i: usize = 0;
    while i < len
        invariant
            len == a@.len(),
            len == b@.len(),
            0 <= i <= len,
            (acc == 0) <==> (forall|j: int| 0 <= j < i ==> a@[j] == b@[j]),
        decreases len - i,
    {
        let x = a[i];
        let y = b[i];
        proof {
            assert((x ^ y) == 0 <==> x == y) by (bit_vector);
            assert((acc | (x ^ y)) == 0 <==> (acc == 0 && (x ^ y) == 0)) by (bit_vector);
        }
        acc = acc | (x ^ y);
        i = i + 1;
    }
    if acc == 0 {
        proof {
            assert(a@ =~= b@);
        }
        true
    } else {
        proof {
            assert(a@ != b@) by {
                if a@ == b@ {
                    assert(forall|j: int| 0 <= j < len ==> a@[j] == b@[j]);
                }
            }
        }
        false
    }
}

/// The configured credentials exist and equal the presented ones.
pub open spec fn spec_credentials_match(
    cfg: SecurityConfig,
    user: Seq<char>,
    pass: Seq<char>,
) -> bool {
    &&& cfg.username matches Some(u) && u@ == user
    &&& cfg.password matches Some(p) && p@ == pass
}

/// Validates presented credentials against the configuration.  False
/// whenever either side is unconfigured, a length differs, or any byte
/// differs; the comparison itself runs in constant time per string.
pub fn validate_credentials(security_config: &SecurityConfig, credentials: &BasicCredentials) -> (r:
    bool)
    ensures
        r == spec_credentials_match(
            *security_config,
            credentials.username@,
            credentials.password@,
        ),
{
    let expected_username = match &security_config.username {
        Some(username) => username,
        None => {
            return false;
        },
    };
    let expected_password = match &security_config.password {
        Some(password) => password,
        None => {
            return false;
        },
    };
    let user_ok = constant_time_eq(
        credentials.username.as_str().as_bytes(),
        expected_username.as_str().as_bytes(),
    );
    let pass_ok = constant_time_eq(
        credentials.password.as_str().as_bytes(),
        expected_password.as_str().as_bytes(),
    );
    proof {
        crate::strutil::lemma_encode_utf8_injective_iff(
            credentials.username@,
            expected_username@,
        );
        crate::strutil::lemma_encode_utf8_injective_iff(
            credentials.password@,
            expected_password@,
        );
    }
    user_ok && pass_ok
}

/// ASCII whitespace, the separators accepted inside the header.
pub open spec fn spec_is_ws(c: char) -> bool {
    c == ' ' || c == '\t' || c == '\n' || c == '\r' || c == '\u{b}' || c == '\u{c}'
}

/// The first index at or after `i` holding a non-whitespace character.
pub open spec fn spec_skip_ws(s: Seq<char>, i: int) -> int
    recommends
        0 <= i <= s.len(),
    decreases s.len() - i when 0 <= i <= s.len()
{
    if i >= s.len() || !spec_is_ws(s[i]) {
        i
    } else {
        spec_skip_ws(s, i + 1)
    }
}

/// The first index at or after `i` holding whitespace (the end of a token).
pub open spec fn spec_end_token(s: Seq<char>, i: int) -> int
    recommends
        0 <= i <= s.len(),
    decreases s.len() - i when 0 <= i <= s.len()
{
    if i >= s.len() || spec_is_ws(s[i]) {
        i
    } else {
        spec_end_token(s, i + 1)
    }
}

fn is_ws(c: char) -> (r: bool)
    ensures
        r == spec_is_ws(c),
{
    c == ' ' || c == '\t' || c == '\n' || c == '\r' || c == '\u{b}' || c == '\u{c}'
}

fn skip_ws(s: &str, i: usize) -> (r: usize)
    requires
        i <= s@.len(),
    ensures
        i <= r <= s@.len(),
        r == spec_skip_ws(s@, i as int),
{
    let len = s.unicode_len();
    let mut j: usize = i;
    while j < len && is_ws(s.get_char(j))
        invariant
            i <= j <= len,
            len == s@.len(),
            spec_skip_ws(s@, i as int) == spec_skip_ws(s@, j as int),
        decreases len - j,
    {
        j = j + 1;
    }
    j
}

fn end_token(s: &str, i: usize) -> (r: usize)
    requires
        i <= s@.len(),
    ensures
        i <= r <= s@.len(),
        r == spec_end_token(s@, i as int),
{
    let len = s.unicode_len();
    let mut j: usize = i;
    while j < len && !is_ws(s.get_char(j))
        invariant
            i <= j <= len,
            len == s@.len(),
            spec_end_token(s@, i as int) == spec_end_token(s@, j as int),
        decreases len - j,
    {
        j = j + 1;
    }
    j
}

/// The scheme token spans `[a, b)` and spells `basic` in any ASCII case.
pub open spec fn spec_is_basic_scheme(s: Seq<char>, a: int, b: int) -> bool {
    &&& b - a == 5
    &&& (s[a] == 'b' || s[a] == 'B')
    &&& (s[a + 1] == 'a' || s[a + 1] == 'A')
    &&& (s[a + 2] == 's' || s[a + 2] == 'S')
    &&& (s[a + 3] == 'i' || s[a + 3] == 'I')
    &&& (s[a + 4] == 'c' || s[a + 4] == 'C')
}

/// Splits at the first colon: the part before it and everything after.
pub open spec fn spec_split_colon(cs: Seq<char>) -> Option<(Seq<char>, Seq<char>)>
    decreases cs.len(),
{
    if cs.len() == 0 {
        None
    } else if cs[0] == ':' {
        Some((Seq::<char>::empty(), cs.skip(1)))
    } else {
        match spec_split_colon(cs.skip(1)) {
            Some(pair) => Some((seq![cs[0]] + pair.0, pair.1)),
            None => None,
        }
    }
}

/// What a well-formed `Authorization` header yields: a case-insensitive
/// `Basic` scheme, exactly one credential token, base64 holding UTF-8 text
/// with a colon between user and password.
pub open spec fn spec_basic_auth(h: Seq<char>) -> Option<(Seq<char>, Seq<char>)> {
    let a = spec_skip_ws(h, 0);
    let b = spec_end_token(h, a);
    let c = spec_skip_ws(h, b);
    let d = spec_end_token(h, c);
    let e = spec_skip_ws(h, d);
    if a >= h.len() {
        None
    } else if !spec_is_basic_scheme(h, a, b) {
        None
    } else if c >= h.len() {
        None
    } else if e < h.len() {
        None
    } else {
        match base64_decoded(h.subrange(c, d)) {
            Some(bytes) => if !valid_utf8(bytes) {
                None
            } else {
                spec_split_colon(decode_utf8(bytes))
            },
            None => None,
        }
    }
}

/// The first colon of `cs` sits at `k`: the split takes what is before it.
proof fn lemma_split_colon_at(cs: Seq<char>, k: int)
    requires
        0 <= k < cs.len(),
        cs[k] == ':',
        forall|j: int| 0 <= j < k ==> cs[j] != ':',
    ensures
        spec_split_colon(cs) == Some((cs.take(k), cs.skip(k + 1))),
    decreases k,
{
    if k == 0 {
        assert(cs.take(0) =~= Seq::<char>::empty());
    } else {
        assert(cs[0] != ':');
        assert(cs.skip(1)[k - 1] == ':');
        assert(forall|j: int| 0 <= j < k - 1 ==> #[trigger] cs.skip(1)[j] != ':');
        lemma_split_colon_at(cs.skip(1), k - 1);
        assert(cs.skip(1).take(k - 1) =~= cs.take(k).skip(1));
        assert(seq![cs[0]] + cs.skip(1).take(k - 1) =~= cs.take(k));
        assert(cs.skip(1).skip(k - 1 + 1) =~= cs.skip(k + 1));
    }
}

/// Without any colon the split fails.
proof fn lemma_split_colon_none(cs: Seq<char>)
    requires
        forall|j: int| 0 <= j < cs.len() ==> cs[j] != ':',
    ensures
        spec_split_colon(cs) is None,
    decreases cs.len(),
{
    if cs.len() > 0 {
        assert(forall|j: int| 0 <= j < cs.len() - 1 ==> #[trigger] cs.skip(1)[j] != ':');
        lemma_split_colon_none(cs.skip(1));
    }
}

/// Parses an HTTP basic authentication header: scheme matched without
/// regard to ASCII case, any run of whitespace before the single credential
/// token, nothing after it.
pub fn parse_basic_auth(auth_header: &str) -> (r: Result<BasicCredentials, &'static str>)
    ensures
        r is Ok <==> spec_basic_auth(auth_header@) is Some,
        r matches Ok(cr) ==> spec_basic_auth(auth_header@) == Some(
            (cr.username@, cr.password@),
        ),
{
    let len = auth_header.unicode_len();
    let a = skip_ws(auth_header, 0);
    let b = end_token(auth_header, a);
    let c = skip_ws(auth_header, b);
    let d = end_token(auth_header, c);
    let e = skip_ws(auth_header, d);
    if a >= len {
        return Err("not a basic auth header");
    }
    if b - a != 5 {
        return Err("not a basic auth header");
    }
    let c0 = auth_header.get_char(a);
    let c1 = auth_header.get_char(a + 1);
    let c2 = auth_header.get_char(a + 2);
    let c3 = auth_header.get_char(a + 3);
    let c4 = auth_header.get_char(a + 4);
    if !((c0 == 'b' || c0 == 'B') && (c1 == 'a' || c1 == 'A') && (c2 == 's' || c2 == 'S') && (c3
        == 'i' || c3 == 'I') && (c4 == 'c' || c4 == 'C')) {
        return Err("not a basic auth header");
    }
    if c >= len {
        return Err("missing basic auth credentials");
    }
    if e < len {
        return Err("invalid basic auth header");
    }
    let token = auth_header.substring_char(c, d);
    let decoded = match base64_decode_standard(token) {
        Some(v) => v,
        None => {
            return Err("invalid base64 encoding");
        },
    };
    let text = match string_from_utf8(decoded.as_slice()) {
        Some(t) => t,
        None => {
            return Err("invalid utf8 in credentials");
        },
    };
    let tlen = text.as_str().unicode_len();
    let mut k: usize = 0;
    while k < tlen && text.as_str().get_char(k) != ':'
        invariant
            tlen == text@.len(),
            0 <= k <= tlen,
            forall|j: int| 0 <= j < k ==> text@[j] != ':',
        decreases tlen - k,
    {
        k = k + 1;
    }
    if k >= tlen {
        proof {
            lemma_split_colon_none(text@);
        }
        return Err("invalid credential format");
    }
    proof {
        lemma_split_colon_at(text@, k as int);
    }
    let username = text.as_str().substring_char(0, k).to_owned();
    let password = text.as_str().substring_char(k + 1, tlen).to_owned();
    proof {
        assert(username@ =~= text@.take(k as int));
        assert(password@ =~= text@.skip(k + 1));
    }
    Ok(BasicCredentials { username, password })
}

/// Whether a request with this method must authenticate under this policy.
/// `OPTIONS` never authenticates, so CORS preflight always passes.
pub open spec fn spec_auth_required(policy: SecurityPolicy, method: Method) -> bool {
    if method == Method::Options {
        false
    } else {
        let is_download = method == Method::Get || method == Method::Head;
        match policy {
            SecurityPolicy::AuthenticateNone => false,
            SecurityPolicy::AuthenticateAll => true,
            SecurityPolicy::AuthenticateUpload => !is_download,
            SecurityPolicy::AuthenticateDownload => is_download,
        }
    }
}

/// Decides whether this request needs authentication.
pub fn determine_auth_requirement(security_config: &SecurityConfig, method: Method) -> (r: bool)
    ensures
        r == spec_auth_required(security_config.policy, method),
{
    if matches!(method, Method::Options) {
        return false;
    }
    let is_download = matches!(method, Method::Get) || matches!(method, Method::Head);
    match security_config.policy {
        SecurityPolicy::AuthenticateNone => false,
        SecurityPolicy::AuthenticateAll => true,
        SecurityPolicy::AuthenticateUpload => !is_download,
        SecurityPolicy::AuthenticateDownload => is_download,
    }
}

/// The outcome of the authentication middleware, before any routing.
#[derive(Clone, Copy, Debug, PartialEq, Eq, Structural)]
pub enum AuthOutcome {
    /// Let the request through.
    Allow,
    /// Answer 401 with the basic-auth challenge.
    Unauthorized,
    /// Authentication is required but no credentials are configured: 500.
    ServerError,
}

/// What the middleware must answer, as a function of the policy, the
/// method, and the `Authorization` header.
pub open spec fn spec_authenticate(
    cfg: SecurityConfig,
    method: Method,
    header: Option<Seq<char>>,
) -> AuthOutcome {
    if !spec_auth_required(cfg.policy, method) {
        AuthOutcome::Allow
    } else if cfg.username is None || cfg.password is None {
        AuthOutcome::ServerError
    } else {
        match header {
            None => AuthOutcome::Unauthorized,
            Some(h) => match spec_basic_auth(h) {
                None => AuthOutcome::Unauthorized,
                Some(pair) => if spec_credentials_match(cfg, pair.0, pair.1) {
                    AuthOutcome::Allow
                } else {
                    AuthOutcome::Unauthorized
                },
            },
        }
    }
}

/// The authentication middleware decision: pass, challenge, or fail.
pub fn authenticate_request(
    security_config: &SecurityConfig,
    method: Method,
    auth_header: Option<&str>,
) -> (r: AuthOutcome)
    ensures
        r == spec_authenticate(
            *security_config,
            method,
            match auth_header {
                Some(h) => Some(h@),
                None => None::<Seq<char>>,
            },
        ),
{
    if !determine_auth_requirement(security_config, method) {
        return AuthOutcome::Allow;
    }
    let configured = security_config.username.is_some() && security_config.password.is_some();
    if !configured {
        return AuthOutcome::ServerError;
    }
    let header = match auth_header {
        Some(h) => h,
        None => {
            return AuthOutcome::Unauthorized;
        },
    };
    let credentials = match parse_basic_auth(header) {
        Ok(creds) => creds,
        Err(_) => {
            return AuthOutcome::Unauthorized;
        },
    };
    if validate_credentials(security_config, &credentials) {
        AuthOutcome::Allow
    } else {
        AuthOutcome::Unauthorized
    }
}

} // verus!
