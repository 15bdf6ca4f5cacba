//! Routing and middleware decisions: method and path dispatch, the status
//! mapping for filesystem failures, CORS, and the security headers every
//! response carries.

use vstd::prelude::*;
use vstd::string::StringExecFns;
use vstd::string::StringSliceAdditionalSpecFns;

use crate::paths::{FsError, IoErrorKind, PathTraversalError};
use crate::Method;

verus! {

/// The status an I/O failure maps to: 404, 403, or 500.
pub open spec fn spec_io_status(kind: IoErrorKind) -> u16 {
    match kind {
        IoErrorKind::NotFound => 404,
        IoErrorKind::PermissionDenied => 403,
        IoErrorKind::Other => 500,
    }
}

pub fn map_io_error(kind: IoErrorKind) -> (r: u16)
    ensures
        r == spec_io_status(kind),
{
    match kind {
        IoErrorKind::NotFound => 404,
        IoErrorKind::PermissionDenied => 403,
        IoErrorKind::Other => 500,
    }
}

/// The status a path-resolution failure maps to: every jail refusal is a
/// client error, every I/O failure keeps its own mapping.
pub open spec fn spec_fs_status(e: FsError) -> u16 {
    match e {
        FsError::InvalidPath(_) => 400,
        FsError::Io(kind) => spec_io_status(kind),
    }
}

pub fn map_fs_error(e: &FsError) -> (r: u16)
    ensures
        r == spec_fs_status(*e),
{
    match e {
        FsError::InvalidPath(_) => 400,
        FsError::Io(kind) => map_io_error(*kind),
    }
}

/// The security headers added to every response, error responses included.
pub fn security_headers() -> (r: Vec<(String, String)>)
    ensures
        r@.len() == 5,
        r@[0].0@ == "X-Frame-Options"@ && r@[0].1@ == "DENY"@,
        r@[1].0@ == "X-Content-Type-Options"@ && r@[1].1@ == "nosniff"@,
        r@[2].0@ == "X-XSS-Protection"@ && r@[2].1@ == "1; mode=block"@,
        r@[3].0@ == "Referrer-Policy"@ && r@[3].1@ == "strict-origin-when-cross-origin"@,
        r@[4].0@ == "Content-Security-Policy"@ && r@[4].1@
            == "default-src 'self'; style-src 'self' 'unsafe-inline'; img-src 'self' data:; object-src 'none'"@,
{
    let mut v: Vec<(String, String)> = Vec::new();
    v.push((String::from_str("X-Frame-Options"), String::from_str("DENY")));
    v.push((String::from_str("X-Content-Type-Options"), String::from_str("nosniff")));
    v.push((String::from_str("X-XSS-Protection"), String::from_str("1; mode=block")));
    v.push(
        (String::from_str("Referrer-Policy"), String::from_str("strict-origin-when-cross-origin")),
    );
    v.push(
        (
            String::from_str("Content-Security-Policy"),
            String::from_str(
                "default-src 'self'; style-src 'self' 'unsafe-inline'; img-src 'self' data:; object-src 'none'",
            ),
        ),
    );
    v
}

/// The `WWW-Authenticate` challenge sent with every 401.
pub fn auth_challenge_header() -> (r: (String, String))
    ensures
        r.0@ == "WWW-Authenticate"@,
        r.1@ == "Basic realm=\"soop3\""@,
{
    (String::from_str("WWW-Authenticate"), String::from_str("Basic realm=\"soop3\""))
}

/// One string starts with another.
pub open spec fn spec_starts_with(s: Seq<char>, prefix: Seq<char>) -> bool {
    s.len() >= prefix.len() && s.take(prefix.len() as int) == prefix
}

pub fn str_starts_with(s: &str, prefix: &str) -> (r: bool)
    ensures
        r == spec_starts_with(s@, prefix@),
{
    let slen = s.unicode_len();
    let plen = prefix.unicode_len();
    if slen < plen {
        return false;
    }
    let mut i: usize = 0;
    while i < plen
        invariant
            slen == s@.len(),
            plen == prefix@.len(),
            plen <= slen,
            0 <= i <= plen,
            forall|j: int| 0 <= j < i ==> s@[j] == prefix@[j],
        decreases plen - i,
    {
        if s.get_char(i) != prefix.get_char(i) {
            proof {
                assert(s@.take(plen as int)[i as int] != prefix@[i as int]);
            }
            return false;
        }
        i = i + 1;
    }
    proof {
        assert(s@.take(plen as int) =~= prefix@);
    }
    true
}

/// One string ends with another.
pub open spec fn spec_ends_with(s: Seq<char>, suffix: Seq<char>) -> bool {
    s.len() >= suffix.len() && s.skip(s.len() - suffix.len()) == suffix
}

pub fn str_ends_with(s: &str, suffix: &str) -> (r: bool)
    ensures
        r == spec_ends_with(s@, suffix@),
{
    let slen = s.unicode_len();
    let xlen = suffix.unicode_len();
    if slen < xlen {
        return false;
    }
    let off = slen - xlen;
    let mut i: usize = 0;
    while i < xlen
        invariant
            slen == s@.len(),
            xlen == suffix@.len(),
            xlen <= slen,
            off == slen - xlen,
            0 <= i <= xlen,
            forall|j: int| 0 <= j < i ==> s@[off + j] == suffix@[j],
        decreases xlen - i,
    {
        if s.get_char(off + i) != suffix.get_char(i) {
            proof {
                assert(s@.skip(off as int)[i as int] != suffix@[i as int]);
            }
            return false;
        }
        i = i + 1;
    }
    proof {
        assert(s@.skip(off as int) =~= suffix@);
    }
    true
}

/// Two strings are equal.
pub fn str_eq(a: &str, b: &str) -> (r: bool)
    ensures
        r == (a@ == b@),
{
    let alen = a.unicode_len();
    let blen = b.unicode_len();
    if alen != blen {
        return false;
    }
    let mut i: usize = 0;
    while i < alen
        invariant
            alen == a@.len(),
            blen == b@.len(),
            alen == blen,
            0 <= i <= alen,
            forall|j: int| 0 <= j < i ==> a@[j] == b@[j],
        decreases alen - i,
    {
        if a.get_char(i) != b.get_char(i) {
            return false;
        }
        i = i + 1;
    }
    proof {
        assert(a@ =~= b@);
    }
    true
}

/// Where a request goes.
#[derive(Debug)]
pub enum Route {
    /// `GET`/`HEAD` under the static prefix: the asset key follows it.
    StaticAsset(String),
    /// `GET`/`HEAD` anywhere else: serve a file or listing.
    Serve(String),
    /// `POST`: an upload to the request path.
    Upload(String),
    /// Anything else: 405.
    MethodNotAllowed,
}

/// The reserved prefix for bundled assets.
pub open spec fn spec_static_prefix() -> Seq<char> {
    "/__soop_static/"@
}

/// Route dispatch as a predicate over the method and path.
pub open spec fn spec_route_is(method: Method, path: Seq<char>, r: Route) -> bool {
    if method == Method::Get || method == Method::Head {
        if spec_starts_with(path, spec_static_prefix()) {
            r matches Route::StaticAsset(k) && k@ == path.skip(spec_static_prefix().len() as int)
        } else {
            r matches Route::Serve(p) && p@ == path
        }
    } else if method == Method::Post {
        r matches Route::Upload(p) && p@ == path
    } else {
        r == Route::MethodNotAllowed
    }
}

/// Routes a request: static assets first, then file serving, then uploads;
/// other methods are refused.
pub fn route_request(method: Method, path: &str) -> (r: Route)
    ensures
        spec_route_is(method, path@, r),
{
    let is_get = matches!(method, Method::Get) || matches!(method, Method::Head);
    if is_get {
        if str_starts_with(path, "/__soop_static/") {
            proof {
                reveal_strlit("/__soop_static/");
                assert(spec_static_prefix().len() == 15);
            }
            let plen = path.unicode_len();
            let key = path.substring_char(15, plen).to_owned();
            proof {
                assert(key@ =~= path@.skip(15));
            }
            Route::StaticAsset(key)
        } else {
            Route::Serve(path.to_owned())
        }
    } else if matches!(method, Method::Post) {
        Route::Upload(path.to_owned())
    } else {
        Route::MethodNotAllowed
    }
}

/// What a `GET` path points at on disk, as the handler's caller saw it.
#[derive(Clone, Copy, Debug, PartialEq, Eq, Structural)]
pub enum PathKind {
    Missing,
    File,
    Directory,
}

/// The next step for a `GET` of a resolved path.
#[derive(Clone, Copy, Debug, PartialEq, Eq, Structural)]
pub enum GetAction {
    /// The path is missing but asks for `/favicon.ico`: serve the bundled
    /// icon.
    EmbeddedFavicon,
    /// The path is missing: 404.
    NotFound,
    /// A directory reached without a trailing slash: 301 to `path/`.
    RedirectAddSlash,
    /// A directory with its slash: look for an index file, else list it.
    DirectoryIndex,
    /// A regular file: serve it, honoring any range header.
    ServeFile,
}

/// The `GET` decision once the path has been resolved and checked on disk.
pub open spec fn spec_classify_get(kind: PathKind, path: Seq<char>) -> GetAction {
    match kind {
        PathKind::Missing => {
            if spec_ends_with(path, "/favicon.ico"@) {
                GetAction::EmbeddedFavicon
            } else {
                GetAction::NotFound
            }
        },
        PathKind::Directory => {
            if path.len() > 0 && path.last() == '/' {
                GetAction::DirectoryIndex
            } else {
                GetAction::RedirectAddSlash
            }
        },
        PathKind::File => GetAction::ServeFile,
    }
}

/// Decides what a `GET` does, from what the filesystem said about the
/// resolved path and from the request path itself.
pub fn classify_get(kind: PathKind, request_path: &str) -> (r: GetAction)
    ensures
        r == spec_classify_get(kind, request_path@),
{
    match kind {
        PathKind::Missing => {
            if str_ends_with(request_path, "/favicon.ico") {
                GetAction::EmbeddedFavicon
            } else {
                GetAction::NotFound
            }
        },
        PathKind::Directory => {
            let plen = request_path.unicode_len();
            if plen > 0 && request_path.get_char(plen - 1) == '/' {
                GetAction::DirectoryIndex
            } else {
                GetAction::RedirectAddSlash
            }
        },
        PathKind::File => GetAction::ServeFile,
    }
}

/// The `Location` of the trailing-slash redirect.
pub fn redirect_location(request_path: &str) -> (r: String)
    ensures
        r@ == request_path@ + "/"@,
{
    request_path.to_owned().concat("/")
}

/// The index files tried before a listing is generated, in order.
pub fn index_candidates() -> (r: Vec<String>)
    ensures
        r@.len() == 2,
        r@[0]@ == "index.html"@,
        r@[1]@ == "index.htm"@,
{
    let mut v: Vec<String> = Vec::new();
    v.push(String::from_str("index.html"));
    v.push(String::from_str("index.htm"));
    v
}

/// The MIME type of a bundled asset, by its file extension.
pub open spec fn spec_asset_mime(path: Seq<char>) -> Seq<char> {
    if spec_ends_with(path, ".css"@) {
        "text/css"@
    } else if spec_ends_with(path, ".svg"@) {
        "image/svg+xml"@
    } else if spec_ends_with(path, ".ico"@) {
        "image/x-icon"@
    } else if spec_ends_with(path, ".png"@) {
        "image/png"@
    } else if spec_ends_with(path, ".jpg"@) || spec_ends_with(path, ".jpeg"@) {
        "image/jpeg"@
    } else {
        "application/octet-stream"@
    }
}

/// Determines the MIME type for a bundled static asset.
pub fn get_asset_mime_type(file_path: &str) -> (r: &'static str)
    ensures
        r@ == spec_asset_mime(file_path@),
{
    if str_ends_with(file_path, ".css") {
        "text/css"
    } else if str_ends_with(file_path, ".svg") {
        "image/svg+xml"
    } else if str_ends_with(file_path, ".ico") {
        "image/x-icon"
    } else if str_ends_with(file_path, ".png") {
        "image/png"
    } else if str_ends_with(file_path, ".jpg") || str_ends_with(file_path, ".jpeg") {
        "image/jpeg"
    } else {
        "application/octet-stream"
    }
}

/// The cache header every bundled asset is served with.
pub fn asset_cache_control() -> (r: (String, String))
    ensures
        r.0@ == "Cache-Control"@,
        r.1@ == "public, max-age=31536000"@,
{
    (String::from_str("Cache-Control"), String::from_str("public, max-age=31536000"))
}

/// Whether this origin is allowed by the configured list: a literal `*`
/// entry allows anyone, otherwise the origin must match exactly.
pub open spec fn spec_cors_allowed(origins: Seq<String>, origin: Option<Seq<char>>) -> bool {
    match origin {
        Some(o) => exists|i: int|
            0 <= i < origins.len() && ((#[trigger] origins[i])@ == "*"@ || origins[i]@ == o),
        None => false,
    }
}

/// What the CORS middleware does before or after the inner handler.
#[derive(Clone, Copy, Debug, PartialEq, Eq, Structural)]
pub enum CorsAction {
    /// Hand the request on; add `headers` to whatever response comes back.
    Forward,
    /// Answer the preflight directly with 200 and `headers`.
    PreflightAllow,
    /// Answer the preflight directly with 403 and no CORS headers.
    PreflightForbid,
}

/// The CORS decision with the headers to add.
#[derive(Debug)]
pub struct CorsPlan {
    pub action: CorsAction,
    pub headers: Vec<(String, String)>,
}

/// Decides CORS handling.  With no configured origins every request is
/// forwarded untouched.  A preflight (`OPTIONS`) from an allowed origin is
/// answered directly with the allow headers; from anyone else with 403.
/// Other requests are forwarded, and an allowed origin's echo and `Vary`
/// header are added to the response — whatever its status turns out to be.
pub fn cors_decision(
    origins: &Vec<String>,
    method: Method,
    origin: Option<&str>,
    requested_headers: Option<&str>,
) -> (r: CorsPlan)
    ensures
        origins@.len() == 0 ==> r.action == CorsAction::Forward && r.headers@.len() == 0,
        ({
            let o = match origin {
                Some(s) => Some(s@),
                None => None::<Seq<char>>,
            };
            let allowed = spec_cors_allowed(origins@, o);
            origins@.len() > 0 ==> {
                &&& (method == Method::Options && allowed) ==> {
                    &&& r.action == CorsAction::PreflightAllow
                    &&& r.headers@.len() == 5
                    &&& r.headers@[0].0@ == "Access-Control-Allow-Origin"@ && Some(
                        r.headers@[0].1@,
                    ) == o
                    &&& r.headers@[1].0@ == "Vary"@ && r.headers@[1].1@ == "Origin"@
                    &&& r.headers@[2].0@ == "Access-Control-Allow-Methods"@ && r.headers@[2].1@
                        == "GET, HEAD, POST, OPTIONS"@
                    &&& r.headers@[3].0@ == "Access-Control-Allow-Headers"@ && r.headers@[3].1@
                        == (match requested_headers {
                        Some(h) => h@,
                        None => "*"@,
                    })
                    &&& r.headers@[4].0@ == "Access-Control-Max-Age"@ && r.headers@[4].1@
                        == "3600"@
                }
                &&& (method == Method::Options && !allowed) ==> r.action
                    == CorsAction::PreflightForbid && r.headers@.len() == 0
                &&& (method != Method::Options && allowed) ==> {
                    &&& r.action == CorsAction::Forward
                    &&& r.headers@.len() == 2
                    &&& r.headers@[0].0@ == "Access-Control-Allow-Origin"@ && Some(
                        r.headers@[0].1@,
                    ) == o
                    &&& r.headers@[1].0@ == "Vary"@ && r.headers@[1].1@ == "Origin"@
                }
                &&& (method != Method::Options && !allowed) ==> r.action == CorsAction::Forward
                    && r.headers@.len() == 0
            }
        }),
{
    if origins.len() == 0 {
        return CorsPlan { action: CorsAction::Forward, headers: Vec::new() };
    }
    let allowed = match origin {
        Some(o) => {
            let n = origins.len();
            let mut found = false;
            let mut i: usize = 0;
            while i < n
                invariant
                    n == origins@.len(),
                    0 <= i <= n,
                    found == exists|j: int|
                        0 <= j < i && ((#[trigger] origins@[j])@ == "*"@ || origins@[j]@ == o@),
                decreases n - i,
            {
                if str_eq(origins[i].as_str(), "*") || str_eq(origins[i].as_str(), o) {
                    found = true;
                }
                i = i + 1;
            }
            found
        },
        None => false,
    };
    let is_preflight = matches!(method, Method::Options);
    if is_preflight {
        if allowed {
            let mut headers: Vec<(String, String)> = Vec::new();
            let o = match origin {
                Some(o) => o,
                None => unreached(),
            };
            headers.push(
                (String::from_str("Access-Control-Allow-Origin"), String::from_str(o)),
            );
            headers.push((String::from_str("Vary"), String::from_str("Origin")));
            headers.push(
                (
                    String::from_str("Access-Control-Allow-Methods"),
                    String::from_str("GET, HEAD, POST, OPTIONS"),
                ),
            );
            match requested_headers {
                Some(h) => {
                    headers.push(
                        (String::from_str("Access-Control-Allow-Headers"), String::from_str(h)),
                    );
                },
                None => {
                    headers.push(
                        (String::from_str("Access-Control-Allow-Headers"), String::from_str("*")),
                    );
                },
            }
            headers.push((String::from_str("Access-Control-Max-Age"), String::from_str("3600")));
            CorsPlan { action: CorsAction::PreflightAllow, headers }
        } else {
            CorsPlan { action: CorsAction::PreflightForbid, headers: Vec::new() }
        }
    } else {
        if allowed {
            let mut headers: Vec<(String, String)> = Vec::new();
            let o = match origin {
                Some(o) => o,
                None => unreached(),
            };
            headers.push(
                (String::from_str("Access-Control-Allow-Origin"), String::from_str(o)),
            );
            headers.push((String::from_str("Vary"), String::from_str("Origin")));
            CorsPlan { action: CorsAction::Forward, headers }
        } else {
            CorsPlan { action: CorsAction::Forward, headers: Vec::new() }
        }
    }
}

/// A CORS preflight is never challenged: under every policy and whatever
/// the `Authorization` header holds, an `OPTIONS` request passes the
/// authentication middleware, so preflight works even when uploads or
/// downloads require credentials.
pub proof fn lemma_preflight_bypasses_auth(
    cfg: crate::config::SecurityConfig,
    header: Option<Seq<char>>,
)
    ensures
        crate::auth::spec_authenticate(cfg, Method::Options, header)
            == crate::auth::AuthOutcome::Allow,
{
}

} // verus!
