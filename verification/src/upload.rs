//! The upload policy: filename sanitation, target naming, the streaming
//! size guard, and the status each failure maps to.

use vstd::prelude::*;
use vstd::string::StringExecFns;
use vstd::string::StringSliceAdditionalSpecFns;
use vstd::utf8::encode_utf8;

use crate::paths::{
    contains_byte, find_byte, join_path_jailed, spec_resolve, PathTraversalError,
};

verus! {

/// The longest accepted file name, in bytes.
pub const MAX_FILENAME_BYTES: usize = 255;

/// Why an upload was refused.
#[derive(Clone, Copy, Debug, PartialEq, Eq, Structural)]
pub enum UploadError {
    /// The multipart file name is empty, too long, or holds a separator.
    InvalidFilename,
    /// The target path failed the jail.
    InvalidPath(PathTraversalError),
    /// The target's parent exists but is not a directory.
    ParentNotDirectory,
    /// The target's directory is missing and may not be created.
    MissingDirectory,
    /// The upload root itself is not a directory.
    InvalidBase,
    /// The target exists and overwriting is prevented.
    Conflict,
    /// The streamed body went past the configured ceiling.
    PayloadTooLarge,
    /// Any other I/O failure.
    Io,
    /// The multipart stream itself failed, with the status it reported.
    Multipart(u16),
}

/// The status each upload failure maps to.
pub open spec fn spec_upload_status(e: UploadError) -> u16 {
    match e {
        UploadError::InvalidFilename => 400,
        UploadError::InvalidPath(_) => 400,
        UploadError::ParentNotDirectory => 409,
        UploadError::MissingDirectory => 404,
        UploadError::InvalidBase => 500,
        UploadError::Conflict => 409,
        UploadError::PayloadTooLarge => 413,
        UploadError::Io => 500,
        UploadError::Multipart(s) => s,
    }
}

impl UploadError {
    pub fn status_code(&self) -> (r: u16)
        ensures
            r == spec_upload_status(*self),
    {
        match self {
            UploadError::InvalidFilename => 400,
            UploadError::InvalidPath(_) => 400,
            UploadError::ParentNotDirectory => 409,
            UploadError::MissingDirectory => 404,
            UploadError::InvalidBase => 500,
            UploadError::Conflict => 409,
            UploadError::PayloadTooLarge => 413,
            UploadError::Io => 500,
            UploadError::Multipart(s) => *s,
        }
    }
}

/// A usable multipart file name: non-empty, at most 255 bytes, and free of
/// both separators.
pub open spec fn spec_valid_upload_filename(bs: Seq<u8>) -> bool {
    &&& 0 < bs.len() <= 255
    &&& !contains_byte(bs, 0x2f)
    &&& !contains_byte(bs, 0x5c)
}

/// Accepts a multipart file name or refuses the upload.
pub fn sanitize_filename(filename: &str) -> (r: Result<String, UploadError>)
    ensures
        r is Ok <==> spec_valid_upload_filename(filename.spec_bytes()),
        r matches Ok(s) ==> s@ == filename@,
        r is Err ==> r == Err::<String, UploadError>(UploadError::InvalidFilename),
{
    let bytes = filename.as_bytes();
    if bytes.len() == 0 {
        return Err(UploadError::InvalidFilename);
    }
    if bytes.len() > MAX_FILENAME_BYTES {
        return Err(UploadError::InvalidFilename);
    }
    if find_byte(bytes, 0x2f) || find_byte(bytes, 0x5c) {
        return Err(UploadError::InvalidFilename);
    }
    Ok(filename.to_owned())
}

/// What one character contributes once `%` is protected from the decoder.
pub open spec fn spec_escape_percent_char(c: char) -> Seq<char> {
    if c == '%' {
        "%25"@
    } else {
        seq![c]
    }
}

/// The name with every `%` turned into `%25`, so that the jail's decoding
/// step gives back the literal name.
pub open spec fn spec_escape_percent(s: Seq<char>) -> Seq<char>
    decreases s.len(),
{
    if s.len() == 0 {
        seq![]
    } else {
        spec_escape_percent_char(s[0]) + spec_escape_percent(s.skip(1))
    }
}

proof fn lemma_escape_percent_step(s: Seq<char>, i: int)
    requires
        0 < i <= s.len(),
    ensures
        spec_escape_percent(s.take(i)) == spec_escape_percent(s.take(i - 1))
            + spec_escape_percent_char(s[i - 1]),
    decreases i,
{
    lemma_escape_percent_concat(s.take(i - 1), seq![s[i - 1]]);
    assert(s.take(i) =~= s.take(i - 1) + seq![s[i - 1]]);
    let single = seq![s[i - 1]];
    assert(single.skip(1) =~= Seq::<char>::empty());
    assert(spec_escape_percent(single.skip(1)) =~= Seq::<char>::empty());
    assert(spec_escape_percent(single) == spec_escape_percent_char(single[0])
        + spec_escape_percent(single.skip(1)));
    assert(spec_escape_percent_char(single[0]) + Seq::<char>::empty()
        =~= spec_escape_percent_char(s[i - 1]));
}

proof fn lemma_escape_percent_concat(a: Seq<char>, b: Seq<char>)
    ensures
        spec_escape_percent(a + b) == spec_escape_percent(a) + spec_escape_percent(b),
    decreases a.len(),
{
    if a.len() == 0 {
        assert(a + b =~= b);
        assert(spec_escape_percent(a) =~= Seq::<char>::empty());
    } else {
        lemma_escape_percent_concat(a.skip(1), b);
        assert((a + b).skip(1) =~= a.skip(1) + b);
        assert((a + b)[0] == a[0]);
        assert(spec_escape_percent(a + b) =~= spec_escape_percent_char(a[0]) + (
        spec_escape_percent(a.skip(1)) + spec_escape_percent(b)));
        assert(spec_escape_percent_char(a[0]) + (spec_escape_percent(a.skip(1))
            + spec_escape_percent(b)) =~= (spec_escape_percent_char(a[0]) + spec_escape_percent(
            a.skip(1),
        )) + spec_escape_percent(b));
    }
}

/// Escapes `%` so a later percent-decoding cannot alter the name.
pub fn escape_percent_for_join(value: &str) -> (r: String)
    ensures
        r@ == spec_escape_percent(value@),
{
    let len = value.unicode_len();
    let mut out = String::new();
    let mut i: usize = 0;
    while i < len
        invariant
            len == value@.len(),
            0 <= i <= len,
            out@ == spec_escape_percent(value@.take(i as int)),
        decreases len - i,
    {
        let c = value.get_char(i);
        if c == '%' {
            out.append("%25");
        } else {
            let piece = value.substring_char(i, i + 1);
            proof {
                assert(piece@ =~= seq![value@[i as int]]);
            }
            out.append(piece);
        }
        i = i + 1;
        proof {
            lemma_escape_percent_step(value@, i as int);
        }
    }
    proof {
        assert(value@.take(len as int) =~= value@);
    }
    out
}

/// The final component of a slash-separated path: everything after the
/// last separator byte.
pub open spec fn spec_final_component(bs: Seq<u8>) -> Seq<u8>
    decreases bs.len(),
{
    if bs.len() == 0 {
        bs
    } else if bs.last() == 0x2f {
        Seq::<u8>::empty()
    } else {
        spec_final_component(bs.drop_last()).push(bs.last())
    }
}

/// A final component the upload naming accepts.
pub open spec fn spec_final_component_ok(bs: Seq<u8>) -> bool {
    let c = spec_final_component(bs);
    &&& c.len() > 0
    &&& c != seq![0x2eu8]
    &&& c != seq![0x2eu8, 0x2eu8]
    &&& c.len() <= 255
}

/// Rejects a composed name whose final path component is empty, `.`, `..`,
/// or longer than 255 bytes.
pub fn validate_final_component(path: &str) -> (r: Result<(), UploadError>)
    ensures
        r is Ok <==> spec_final_component_ok(path.spec_bytes()),
        r is Err ==> r == Err::<(), UploadError>(UploadError::InvalidFilename),
{
    let bytes = path.as_bytes();
    let len = bytes.len();
    let mut start: usize = 0;
    let mut i: usize = 0;
    while i < len
        invariant
            len == bytes@.len(),
            0 <= start <= i <= len,
            spec_final_component(bytes@.take(i as int)) =~= bytes@.subrange(
                start as int,
                i as int,
            ),
            start == 0 || bytes@[start - 1] == 0x2f,
            forall|j: int| start <= j < i ==> bytes@[j] != 0x2f,
        decreases len - i,
    {
        proof {
            let t = bytes@.take(i + 1);
            assert(t.drop_last() =~= bytes@.take(i as int));
            assert(t.last() == bytes@[i as int]);
        }
        if bytes[i] == 0x2f {
            start = i + 1;
            proof {
                assert(spec_final_component(bytes@.take(i + 1)) =~= bytes@.subrange(
                    start as int,
                    i + 1,
                ));
            }
        } else {
            proof {
                assert(spec_final_component(bytes@.take(i + 1)) =~= bytes@.subrange(
                    start as int,
                    i + 1,
                ));
            }
        }
        i = i + 1;
    }
    proof {
        assert(bytes@.take(len as int) =~= bytes@);
    }
    let clen = len - start;
    if clen == 0 {
        return Err(UploadError::InvalidFilename);
    }
    if clen > MAX_FILENAME_BYTES {
        return Err(UploadError::InvalidFilename);
    }
    let ghost comp = bytes@.subrange(start as int, len as int);
    if clen == 1 && bytes[start] == 0x2e {
        proof {
            assert(comp =~= seq![0x2eu8]);
        }
        return Err(UploadError::InvalidFilename);
    }
    if clen == 2 && bytes[start] == 0x2e && bytes[start + 1] == 0x2e {
        proof {
            assert(comp =~= seq![0x2eu8, 0x2eu8]);
        }
        return Err(UploadError::InvalidFilename);
    }
    proof {
        assert(comp != seq![0x2eu8]) by {
            if comp == seq![0x2eu8] {
                assert(comp.len() == 1 && comp[0] == 0x2e);
            }
        }
        assert(comp != seq![0x2eu8, 0x2eu8]) by {
            if comp == seq![0x2eu8, 0x2eu8] {
                assert(comp.len() == 2 && comp[0] == 0x2e && comp[1] == 0x2e);
            }
        }
    }
    Ok(())
}

/// The path with trailing separators removed.
pub open spec fn spec_trim_trailing_slashes(s: Seq<char>) -> Seq<char>
    decreases s.len(),
{
    if s.len() > 0 && s.last() == '/' {
        spec_trim_trailing_slashes(s.drop_last())
    } else {
        s
    }
}

/// Removes trailing separators from the request's directory path.
pub fn trim_trailing_slashes(s: &str) -> (r: String)
    ensures
        r@ == spec_trim_trailing_slashes(s@),
{
    let len = s.unicode_len();
    let mut end: usize = len;
    proof {
        assert(s@.take(len as int) =~= s@);
    }
    while end > 0 && s.get_char(end - 1) == '/'
        invariant
            len == s@.len(),
            0 <= end <= len,
            spec_trim_trailing_slashes(s@) == spec_trim_trailing_slashes(s@.take(end as int)),
        decreases end,
    {
        proof {
            let t = s@.take(end as int);
            assert(t.last() == s@[end - 1]);
            assert(t.drop_last() =~= s@.take(end - 1));
        }
        end = end - 1;
    }
    proof {
        let t = s@.take(end as int);
        if end > 0 {
            assert(t.last() == s@[end - 1]);
        }
        assert(spec_trim_trailing_slashes(t) == t);
    }
    s.substring_char(0, end).to_owned()
}

/// The name the upload is stored under, relative to the upload root: the
/// request's directory path (trailing separators dropped), the
/// percent-protected file name, and an optional timestamp prefix.
pub open spec fn spec_upload_name(
    upload_path: Seq<char>,
    filename: Seq<char>,
    prefix: Option<Seq<char>>,
) -> Seq<char> {
    let enc = spec_escape_percent(filename);
    let trimmed = spec_trim_trailing_slashes(upload_path);
    let base = if trimmed.len() == 0 {
        enc
    } else {
        trimmed + "/"@ + enc
    };
    match prefix {
        Some(p) => p + "_"@ + base,
        None => base,
    }
}

/// The name whose final component is validated: the raw file name with the
/// same optional prefix, before percent protection.
pub open spec fn spec_validation_name(filename: Seq<char>, prefix: Option<Seq<char>>) -> Seq<
    char,
> {
    match prefix {
        Some(p) => p + "_"@ + filename,
        None => filename,
    }
}

/// The whole naming decision: sanitation, final-component validation, and
/// the jail, in that order.
pub open spec fn spec_plan_upload(
    root: Seq<u8>,
    upload_path: Seq<char>,
    filename: Seq<char>,
    prefix: Option<Seq<char>>,
) -> Result<Seq<u8>, UploadError> {
    if !spec_valid_upload_filename(encode_utf8(filename)) {
        Err(UploadError::InvalidFilename)
    } else if !spec_final_component_ok(encode_utf8(spec_validation_name(filename, prefix))) {
        Err(UploadError::InvalidFilename)
    } else {
        match spec_resolve(root, encode_utf8(spec_upload_name(upload_path, filename, prefix))) {
            Ok(t) => Ok(t),
            Err(e) => Err(UploadError::InvalidPath(e)),
        }
    }
}

/// Computes the upload target for a known name prefix.
pub fn plan_upload_with_prefix(
    upload_root: &str,
    upload_path: &str,
    original_filename: &str,
    prefix: Option<&str>,
) -> (r: Result<String, UploadError>)
    ensures
        ({
            let res = spec_plan_upload(
                upload_root.spec_bytes(),
                upload_path@,
                original_filename@,
                match prefix {
                    Some(p) => Some(p@),
                    None => None::<Seq<char>>,
                },
            );
            match r {
                Ok(t) => res == Ok::<Seq<u8>, UploadError>(encode_utf8(t@)),
                Err(e) => res == Err::<Seq<u8>, UploadError>(e),
            }
        }),
{
    let sanitized = match sanitize_filename(original_filename) {
        Ok(s) => s,
        Err(e) => {
            return Err(e);
        },
    };
    let encoded = escape_percent_for_join(sanitized.as_str());
    let trimmed = trim_trailing_slashes(upload_path);
    let base = if trimmed.as_str().unicode_len() == 0 {
        encoded
    } else {
        trimmed.concat("/").concat(encoded.as_str())
    };
    let (full, vname): (String, String) = match prefix {
        Some(p) => {
            let full = p.to_owned().concat("_").concat(base.as_str());
            let vname = p.to_owned().concat("_").concat(sanitized.as_str());
            (full, vname)
        },
        None => (base, sanitized),
    };
    match validate_final_component(vname.as_str()) {
        Ok(_) => {},
        Err(e) => {
            return Err(e);
        },
    }
    match join_path_jailed(upload_root, full.as_str()) {
        Ok(t) => Ok(t),
        Err(e) => Err(UploadError::InvalidPath(e)),
    }
}

/// Relies on chrono's `Utc::now` formatted as `%Y%m%d_%H%M%S`: at least
/// fifteen characters, none of which is a separator, a backslash, a percent
/// sign, or NUL — whatever the clock says.
#[verifier::external_body]
fn utc_compact_timestamp() -> (r: String)
    ensures
        r@.len() >= 15,
        forall|i: int|
            0 <= i < r@.len() ==> #[trigger] r@[i] != '/' && r@[i] != '\\' && r@[i] != '%'
                && r@[i] != '\u{0}',
{
    chrono::Utc::now().format("%Y%m%d_%H%M%S").to_string()
}

/// Computes the upload target, prefixing the stored name with the current
/// UTC time when asked to.
pub fn plan_upload(
    upload_root: &str,
    upload_path: &str,
    original_filename: &str,
    prepend_timestamp: bool,
) -> (r: Result<String, UploadError>)
    ensures
        !prepend_timestamp ==> ({
            let res = spec_plan_upload(
                upload_root.spec_bytes(),
                upload_path@,
                original_filename@,
                None::<Seq<char>>,
            );
            match r {
                Ok(t) => res == Ok::<Seq<u8>, UploadError>(encode_utf8(t@)),
                Err(e) => res == Err::<Seq<u8>, UploadError>(e),
            }
        }),
        prepend_timestamp ==> (exists|p: Seq<char>|
            {
                &&& p.len() >= 15
                &&& (forall|i: int|
                    0 <= i < p.len() ==> #[trigger] p[i] != '/' && p[i] != '\\' && p[i] != '%'
                        && p[i] != '\u{0}')
                &&& ({
                    let res = #[trigger] spec_plan_upload(
                        upload_root.spec_bytes(),
                        upload_path@,
                        original_filename@,
                        Some(p),
                    );
                    match r {
                        Ok(t) => res == Ok::<Seq<u8>, UploadError>(encode_utf8(t@)),
                        Err(e) => res == Err::<Seq<u8>, UploadError>(e),
                    }
                })
            }),
{
    if prepend_timestamp {
        let ts = utc_compact_timestamp();
        let r = plan_upload_with_prefix(upload_root, upload_path, original_filename, Some(
            ts.as_str(),
        ));
        proof {
            let p = ts@;
            assert(spec_plan_upload(
                upload_root.spec_bytes(),
                upload_path@,
                original_filename@,
                Some(p),
            ) == spec_plan_upload(
                upload_root.spec_bytes(),
                upload_path@,
                original_filename@,
                Some(ts@),
            ));
        }
        r
    } else {
        plan_upload_with_prefix(upload_root, upload_path, original_filename, None)
    }
}

/// The running byte count of one streaming upload, against its ceiling.
/// The guard fails the moment the streamed bytes would pass the ceiling,
/// before anything over it is written.
#[derive(Debug, Clone, Copy)]
pub struct UploadStream {
    pub written: u64,
    pub max_bytes: u64,
}

impl UploadStream {
    pub open spec fn wf(&self) -> bool {
        self.written <= self.max_bytes
    }

    pub fn new(max_bytes: u64) -> (s: Self)
        ensures
            s.max_bytes == max_bytes,
            s.written == 0,
            s.wf(),
    {
        UploadStream { written: 0, max_bytes }
    }

    /// Accounts one chunk.  The upload fails with `PayloadTooLarge`
    /// exactly when the total streamed bytes would exceed the ceiling.
    pub fn on_chunk(&mut self, chunk_len: u64) -> (r: Result<(), UploadError>)
        requires
            old(self).wf(),
        ensures
            final(self).max_bytes == old(self).max_bytes,
            final(self).wf(),
            (old(self).written + chunk_len > old(self).max_bytes) <==> (r == Err::<
                (),
                UploadError,
            >(UploadError::PayloadTooLarge)),
            r is Ok ==> final(self).written == old(self).written + chunk_len,
            r is Err ==> final(self).written == old(self).written && r == Err::<
                (),
                UploadError,
            >(UploadError::PayloadTooLarge),
    {
        if chunk_len > self.max_bytes - self.written {
            Err(UploadError::PayloadTooLarge)
        } else {
            self.written = self.written + chunk_len;
            Ok(())
        }
    }
}

/// What to do about a directory the upload needs.
#[derive(Clone, Copy, Debug, PartialEq, Eq, Structural)]
pub enum DirAction {
    /// The directory is there: carry on.
    Proceed,
    /// Create it (with parents), then carry on.
    Create,
    /// Refuse the upload.
    Fail(UploadError),
}

/// The policy for the target's parent directory: an existing non-directory
/// is a conflict, a missing one is created only when configured, anything
/// unreadable is an I/O failure.
pub open spec fn spec_parent_action(
    status: crate::config::DirStatus,
    create_directories: bool,
) -> DirAction {
    match status {
        crate::config::DirStatus::Directory => DirAction::Proceed,
        crate::config::DirStatus::NotDirectory => DirAction::Fail(
            UploadError::ParentNotDirectory,
        ),
        crate::config::DirStatus::Missing => if create_directories {
            DirAction::Create
        } else {
            DirAction::Fail(UploadError::MissingDirectory)
        },
        crate::config::DirStatus::Unreadable => DirAction::Fail(UploadError::Io),
    }
}

/// Decides what to do about the target's parent directory.
pub fn upload_parent_action(
    status: crate::config::DirStatus,
    create_directories: bool,
) -> (r: DirAction)
    ensures
        r == spec_parent_action(status, create_directories),
{
    match status {
        crate::config::DirStatus::Directory => DirAction::Proceed,
        crate::config::DirStatus::NotDirectory => DirAction::Fail(
            UploadError::ParentNotDirectory,
        ),
        crate::config::DirStatus::Missing => {
            if create_directories {
                DirAction::Create
            } else {
                DirAction::Fail(UploadError::MissingDirectory)
            }
        },
        crate::config::DirStatus::Unreadable => DirAction::Fail(UploadError::Io),
    }
}

/// The policy for the upload root itself: it must be a directory, and a
/// missing root is created only when configured.
pub open spec fn spec_base_action(
    status: crate::config::DirStatus,
    create_directories: bool,
) -> DirAction {
    match status {
        crate::config::DirStatus::Directory => DirAction::Proceed,
        crate::config::DirStatus::NotDirectory => DirAction::Fail(UploadError::InvalidBase),
        crate::config::DirStatus::Missing => if create_directories {
            DirAction::Create
        } else {
            DirAction::Fail(UploadError::MissingDirectory)
        },
        crate::config::DirStatus::Unreadable => DirAction::Fail(UploadError::Io),
    }
}

/// Decides what to do about the upload root before any upload is written.
pub fn upload_base_action(
    status: crate::config::DirStatus,
    create_directories: bool,
) -> (r: DirAction)
    ensures
        r == spec_base_action(status, create_directories),
{
    match status {
        crate::config::DirStatus::Directory => DirAction::Proceed,
        crate::config::DirStatus::NotDirectory => DirAction::Fail(UploadError::InvalidBase),
        crate::config::DirStatus::Missing => {
            if create_directories {
                DirAction::Create
            } else {
                DirAction::Fail(UploadError::MissingDirectory)
            }
        },
        crate::config::DirStatus::Unreadable => DirAction::Fail(UploadError::Io),
    }
}

/// The sibling temporary a no-overwrite upload streams into before the
/// rename: `<target>.<nanos>.tmp`.
pub fn temp_path_for_target(target_path: &str, unique_nanos: u64) -> (r: String)
    ensures
        r@ == target_path@ + "."@ + crate::files::spec_decimal(unique_nanos as int) + ".tmp"@,
{
    target_path.to_owned().concat(".").concat(
        crate::files::u64_to_string(unique_nanos).as_str(),
    ).concat(".tmp")
}

} // verus!
