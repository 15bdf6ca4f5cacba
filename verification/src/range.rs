//! Range-request planning: what status, headers and body bounds a file
//! response gets, for any outcome of parsing the `Range` header.

use vstd::prelude::*;
use vstd::string::StringExecFns;

use crate::files::{spec_decimal, u64_to_string};

verus! {

/// What the range header parse and validation yielded.
#[derive(Clone, Copy, Debug, PartialEq, Eq, Structural)]
pub enum RangeEval {
    /// The header is not a well-formed byte-ranges value.
    Malformed,
    /// Well-formed, but unsatisfiable against this file size.
    Unsatisfiable,
    /// No usable range came back; the whole file is served.
    Empty,
    /// The first validated range, inclusive on both ends.
    First(u64, u64),
}

/// Relies on http-range-header's `parse_range_header` and
/// `ParsedRanges::validate`: a validated range has `start <= end`, with
/// `end` clamped below the file size (or zero for an empty file).
#[verifier::external_body]
pub fn parse_and_validate_range(header: &str, file_size: u64) -> (r: RangeEval)
    ensures
        r matches RangeEval::First(s, e) ==> s <= e && (file_size > 0 ==> e < file_size) && (
        file_size == 0 ==> e == 0),
{
    match http_range_header::parse_range_header(header) {
        Ok(parsed) => match parsed.validate(file_size) {
            Ok(ranges) => match ranges.first() {
                Some(range) => RangeEval::First(*range.start(), *range.end()),
                None => RangeEval::Empty,
            },
            Err(_) => RangeEval::Unsatisfiable,
        },
        Err(_) => RangeEval::Malformed,
    }
}

/// How the response body is produced from the opened file.
#[derive(Clone, Copy, Debug, PartialEq, Eq, Structural)]
pub enum FileBody {
    /// Stream the whole file.
    Full,
    /// Seek to `start` and stream exactly `len` bytes.
    Range { start: u64, len: u64 },
    /// No body.
    Empty,
}

/// The verified shape of a file response: status, body bounds, and the
/// range-related header values.
#[derive(Debug)]
pub struct FilePlan {
    pub status: u16,
    pub body: FileBody,
    /// The `Content-Length` value, absent on an unsatisfiable range.
    pub content_length: Option<u64>,
    /// The `Content-Range` value, present on 206 and 416.
    pub content_range: Option<String>,
    /// Whether `Accept-Ranges: bytes` is sent.
    pub accept_ranges: bool,
}

/// `bytes start-end/size`.
pub open spec fn spec_content_range(start: u64, end: u64, size: u64) -> Seq<char> {
    "bytes "@ + spec_decimal(start as int) + "-"@ + spec_decimal(end as int) + "/"@ + spec_decimal(
        size as int,
    )
}

/// `bytes */size`.
pub open spec fn spec_content_range_unsat(size: u64) -> Seq<char> {
    "bytes */"@ + spec_decimal(size as int)
}

/// The plan serving the whole file: 200 with the size as length.
pub open spec fn spec_full_plan(p: FilePlan, size: u64) -> bool {
    &&& p.status == 200
    &&& p.body == FileBody::Full
    &&& p.content_length == Some(size)
    &&& p.content_range is None
    &&& p.accept_ranges
}

/// The plan refusing the range: 416 with `Content-Range: bytes */size`.
pub open spec fn spec_unsat_plan(p: FilePlan, size: u64) -> bool {
    &&& p.status == 416
    &&& p.body == FileBody::Empty
    &&& p.content_length is None
    &&& p.content_range matches Some(cr) && cr@ == spec_content_range_unsat(size)
    &&& !p.accept_ranges
}

/// The plan serving one range: 206 with the exact window and headers.
pub open spec fn spec_partial_plan(p: FilePlan, start: u64, end: u64, size: u64) -> bool {
    &&& p.status == 206
    &&& p.body == (FileBody::Range { start, len: (end - start + 1) as u64 })
    &&& p.content_length == Some((end - start + 1) as u64)
    &&& p.content_range matches Some(cr) && cr@ == spec_content_range(start, end, size)
    &&& p.accept_ranges
}

/// Builds the response plan for one range evaluation.
pub fn plan_from_range(eval: RangeEval, file_size: u64) -> (p: FilePlan)
    requires
        eval matches RangeEval::First(s, e) ==> s <= e && e - s < u64::MAX,
    ensures
        eval == RangeEval::Empty ==> spec_full_plan(p, file_size),
        (eval == RangeEval::Malformed || eval == RangeEval::Unsatisfiable) ==> spec_unsat_plan(
            p,
            file_size,
        ),
        eval matches RangeEval::First(s, e) ==> spec_partial_plan(p, s, e, file_size),
{
    match eval {
        RangeEval::Empty => FilePlan {
            status: 200,
            body: FileBody::Full,
            content_length: Some(file_size),
            content_range: None,
            accept_ranges: true,
        },
        RangeEval::Malformed | RangeEval::Unsatisfiable => {
            let cr = String::from_str("bytes */").concat(u64_to_string(file_size).as_str());
            FilePlan {
                status: 416,
                body: FileBody::Empty,
                content_length: None,
                content_range: Some(cr),
                accept_ranges: false,
            }
        },
        RangeEval::First(start, end) => {
            let len = end - start + 1;
            let mut cr = String::from_str("bytes ");
            cr.append(u64_to_string(start).as_str());
            cr.append("-");
            cr.append(u64_to_string(end).as_str());
            cr.append("/");
            cr.append(u64_to_string(file_size).as_str());
            FilePlan {
                status: 206,
                body: FileBody::Range { start, len },
                content_length: Some(len),
                content_range: Some(cr),
                accept_ranges: true,
            }
        },
    }
}

/// Plans the response for an open file of known size: the whole file
/// without a `Range` header, otherwise whatever the header's evaluation
/// calls for.
pub fn file_response_plan(range_header: Option<&str>, file_size: u64) -> (p: FilePlan)
    ensures
        range_header is None ==> spec_full_plan(p, file_size),
        p.status == 200 ==> spec_full_plan(p, file_size),
        p.status == 416 ==> spec_unsat_plan(p, file_size),
        p.status == 206 ==> exists|s: u64, e: u64|
            s <= e && (file_size > 0 ==> e < file_size) && (file_size == 0 ==> e == 0)
                && #[trigger] spec_partial_plan(p, s, e, file_size),
        p.status == 200 || p.status == 206 || p.status == 416,
{
    match range_header {
        None => plan_from_range(RangeEval::Empty, file_size),
        Some(h) => {
            let eval = parse_and_validate_range(h, file_size);
            let p = plan_from_range(eval, file_size);
            proof {
                if eval is First {
                    let s = eval->First_0;
                    let e = eval->First_1;
                    assert(spec_partial_plan(p, s, e, file_size));
                }
            }
            p
        },
    }
}

} // verus!
