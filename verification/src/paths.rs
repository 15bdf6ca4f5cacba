//! The path jail: resolving a client-supplied, percent-encoded path suffix
//! against a base directory so that the result provably stays inside it.
//!
//! Resolution works on the raw bytes of the suffix.  An encoded slash is
//! rejected before decoding, the decoded bytes must be valid UTF-8 and free
//! of NUL and backslash, a leading `/` is rejected, and `..` components may
//! pop earlier components but never the base itself.  The result is the base
//! followed by the surviving components; it contains no `.` or `..` and is a
//! lexical descendant of the base.  Symlink resolution on disk is the
//! caller's concern: this module decides from the path text alone.

use vstd::prelude::*;
use vstd::string::StringSliceAdditionalSpecFns;
use vstd::string::StringExecFns;
use vstd::utf8::*;

use crate::percent::{
    percent_decode, spec_escape_at, spec_escape_value, spec_is_hex_digit, spec_percent_decode,
};
use crate::strutil::string_from_utf8;

verus! {

broadcast use vstd::seq_lib::group_seq_properties;

/// Why a path suffix was refused by the jail.
#[derive(Clone, Copy, Debug, PartialEq, Eq, Structural)]
pub enum PathTraversalError {
    /// The base directory could not be used (reported by callers that check
    /// the base on disk; the lexical resolver itself never returns it).
    InvalidBasePath,
    /// The decoded path claims the filesystem root.
    InvalidTargetPath,
    /// The raw suffix holds `%2F`/`%2f`, an encoded separator.
    EncodedSlash,
    /// `..` components would step above the base.
    OutsideJail,
    /// The decoded bytes are not valid UTF-8 or hold NUL.
    InvalidEncoding,
    /// A platform drive prefix was found (never produced on this platform).
    WindowsPrefix,
    /// The decoded path holds a backslash.
    Backslash,
}

pub open spec fn spec_ascii_lower(b: u8) -> u8 {
    if 0x41 <= b <= 0x5a {
        (b + 0x20) as u8
    } else {
        b
    }
}

/// An encoded slash `%2F` or `%2f` starts at some index of the raw bytes.
pub open spec fn spec_has_encoded_slash(s: Seq<u8>) -> bool {
    exists|i: int|
        0 <= i && i + 2 < s.len() && #[trigger] s[i] == 0x25 && spec_ascii_lower(s[i + 1]) == 0x32
            && spec_ascii_lower(s[i + 2]) == 0x66
}

pub open spec fn contains_byte(s: Seq<u8>, b: u8) -> bool {
    exists|i: int| 0 <= i < s.len() && s[i] == b
}

/// Splits bytes on `/`; always yields at least one (possibly empty) segment.
pub open spec fn spec_split_slash(d: Seq<u8>) -> Seq<Seq<u8>>
    decreases d.len(),
{
    if d.len() == 0 {
        seq![Seq::<u8>::empty()]
    } else if d.last() == 0x2f {
        spec_split_slash(d.drop_last()).push(Seq::<u8>::empty())
    } else {
        let prev = spec_split_slash(d.drop_last());
        prev.update(prev.len() - 1, prev.last().push(d.last()))
    }
}

pub proof fn lemma_split_slash_len(d: Seq<u8>)
    ensures
        spec_split_slash(d).len() >= 1,
    decreases d.len(),
{
    if d.len() > 0 {
        lemma_split_slash_len(d.drop_last());
    }
}

/// One step of the component walk: empty and `.` are skipped, `..` pops one
/// kept component and fails on an empty stack, anything else is kept.
pub open spec fn spec_step(st: Seq<Seq<u8>>, sg: Seq<u8>) -> Option<Seq<Seq<u8>>> {
    if sg.len() == 0 || sg == seq![0x2eu8] {
        Some(st)
    } else if sg == seq![0x2eu8, 0x2eu8] {
        if st.len() == 0 {
            None
        } else {
            Some(st.drop_last())
        }
    } else {
        Some(st.push(sg))
    }
}

/// The component walk over all segments.
pub open spec fn spec_walk(segs: Seq<Seq<u8>>) -> Option<Seq<Seq<u8>>>
    decreases segs.len(),
{
    if segs.len() == 0 {
        Some(Seq::<Seq<u8>>::empty())
    } else {
        match spec_walk(segs.drop_last()) {
            Some(st) => spec_step(st, segs.last()),
            None => None,
        }
    }
}

/// The bytes appended to the base for the kept components: `/c` for each.
pub open spec fn spec_join_from(ks: Seq<Seq<u8>>) -> Seq<u8>
    decreases ks.len(),
{
    if ks.len() == 0 {
        Seq::<u8>::empty()
    } else {
        spec_join_from(ks.drop_last()) + seq![0x2fu8] + ks.last()
    }
}

/// The whole resolution, from the raw bytes of the suffix to the bytes of
/// the resolved path or the error, in the order the checks are made.
pub open spec fn spec_resolve(base: Seq<u8>, raw: Seq<u8>) -> Result<Seq<u8>, PathTraversalError> {
    if spec_has_encoded_slash(raw) {
        Err(PathTraversalError::EncodedSlash)
    } else {
        let d = spec_percent_decode(raw);
        if !valid_utf8(d) {
            Err(PathTraversalError::InvalidEncoding)
        } else if contains_byte(d, 0) {
            Err(PathTraversalError::InvalidEncoding)
        } else if contains_byte(d, 0x5c) {
            Err(PathTraversalError::Backslash)
        } else if d.len() > 0 && d[0] == 0x2f {
            Err(PathTraversalError::InvalidTargetPath)
        } else {
            match spec_walk(spec_split_slash(d)) {
                Some(ks) => Ok(base + spec_join_from(ks)),
                None => Err(PathTraversalError::OutsideJail),
            }
        }
    }
}

fn ascii_lower(b: u8) -> (r: u8)
    ensures
        r == spec_ascii_lower(b),
{
    if 0x41 <= b && b <= 0x5a {
        b + 0x20
    } else {
        b
    }
}

/// Scans the raw bytes of a path suffix for an encoded slash.
pub fn contains_encoded_slash(s: &[u8]) -> (r: bool)
    ensures
        r == spec_has_encoded_slash(s@),
{
    let len = s.len();
    let mut i: usize = 0;
    while i < len && len - i > 2
        invariant
            len == s@.len(),
            0 <= i,
            forall|j: int|
                0 <= j < i && j + 2 < len ==> !(#[trigger] s@[j] == 0x25 && spec_ascii_lower(
                    s@[j + 1],
                ) == 0x32 && spec_ascii_lower(s@[j + 2]) == 0x66),
        decreases len - i,
    {
        if s[i] == 0x25 {
            let a = ascii_lower(s[i + 1]);
            let b = ascii_lower(s[i + 2]);
            if a == 0x32 && b == 0x66 {
                return true;
            }
        }
        i = i + 1;
    }
    false
}

/// In valid UTF-8, the position after an ASCII byte is a character boundary.
proof fn lemma_boundary_after_ascii(d: Seq<u8>, i: int)
    requires
        valid_utf8(d),
        0 <= i < d.len(),
        d[i] < 0x80,
    ensures
        is_char_boundary(d, i + 1),
{
    broadcast use is_char_boundary_iff_not_is_continuation_byte;
    broadcast use is_char_boundary_start_end_of_seq;
    broadcast use valid_utf8_split;

    assert(!is_continuation_byte(d[i]));
    assert(is_char_boundary(d, i));
    let suffix = d.subrange(i, d.len() as int);
    assert(valid_utf8(suffix));
    assert(suffix[0] == d[i]);
    assert(is_leading_byte_width_1(suffix[0]));
    assert(length_of_first_scalar(suffix) == 1);
    if i + 1 < d.len() {
        let rest = pop_first_scalar(suffix);
        assert(valid_utf8(rest));
        assert(rest =~= d.subrange(i + 1, d.len() as int));
        assert(rest.len() > 0);
        assert(valid_first_scalar(rest));
        assert(rest[0] == d[i + 1]);
        assert(!is_continuation_byte(d[i + 1]));
        assert(is_char_boundary(d, i + 1));
    } else {
        assert(i + 1 == d.len());
        assert(is_char_boundary(d, d.len() as int));
    }
}

/// A maximal slash-free span of a valid UTF-8 sequence is itself valid UTF-8.
proof fn lemma_segment_valid(d: Seq<u8>, a: int, b: int)
    requires
        valid_utf8(d),
        0 <= a <= b <= d.len(),
        a == 0 || d[a - 1] == 0x2f,
        b == d.len() || d[b] == 0x2f,
    ensures
        valid_utf8(d.subrange(a, b)),
{
    broadcast use is_char_boundary_iff_not_is_continuation_byte;
    broadcast use is_char_boundary_start_end_of_seq;
    broadcast use valid_utf8_split;

    if a == 0 {
        assert(is_char_boundary(d, 0));
    } else {
        lemma_boundary_after_ascii(d, a - 1);
    }
    assert(is_char_boundary(d, a));
    let suffix = d.subrange(a, d.len() as int);
    assert(valid_utf8(suffix));
    if b == d.len() {
        assert(is_char_boundary(suffix, suffix.len() as int));
    } else if b == a {
        assert(is_char_boundary(suffix, 0));
    } else {
        assert(suffix[b - a] == d[b]);
        assert(!is_continuation_byte(suffix[b - a]));
        assert(is_char_boundary(suffix, b - a));
    }
    assert(valid_utf8(suffix.subrange(0, b - a)));
    assert(suffix.subrange(0, b - a) =~= d.subrange(a, b));
}

/// The byte contents of a stack of kept components.
pub open spec fn kept_view(st: Seq<String>) -> Seq<Seq<u8>> {
    st.map_values(|s: String| encode_utf8(s@))
}

/// Applies one decoded component to the stack of kept components, exactly as
/// `spec_step` says.  Returns false when a `..` would leave the jail.
fn apply_segment(stack: &mut Vec<String>, seg: Vec<u8>) -> (ok: bool)
    requires
        valid_utf8(seg@),
    ensures
        ok == (spec_step(kept_view(old(stack)@), seg@) is Some),
        ok ==> Some(kept_view(final(stack)@)) == spec_step(kept_view(old(stack)@), seg@),
{
    broadcast use decode_utf8_encode_utf8;

    if seg.len() == 0 {
        true
    } else if seg.len() == 1 && seg[0] == 0x2e {
        proof {
            assert(seg@ =~= seq![0x2eu8]);
        }
        true
    } else if seg.len() == 2 && seg[0] == 0x2e && seg[1] == 0x2e {
        proof {
            assert(seg@ =~= seq![0x2eu8, 0x2eu8]);
        }
        if stack.len() == 0 {
            false
        } else {
            stack.pop();
            proof {
                assert(kept_view(stack@) =~= kept_view(old(stack)@).drop_last());
            }
            true
        }
    } else {
        proof {
            assert(seg@ != seq![0x2eu8]) by {
                if seg@ == seq![0x2eu8] {
                    assert(seg@.len() == 1 && seg@[0] == 0x2e);
                }
            }
            assert(seg@ != seq![0x2eu8, 0x2eu8]) by {
                if seg@ == seq![0x2eu8, 0x2eu8] {
                    assert(seg@.len() == 2 && seg@[0] == 0x2e && seg@[1] == 0x2e);
                }
            }
        }
        match string_from_utf8(seg.as_slice()) {
            Some(s) => {
                proof {
                    assert(encode_utf8(s@) == seg@);
                }
                stack.push(s);
                proof {
                    assert(kept_view(stack@) =~= kept_view(old(stack)@).push(seg@));
                }
                true
            },
            None => unreached(),
        }
    }
}

/// Scans bytes for one value.
pub fn find_byte(s: &[u8], b: u8) -> (r: bool)
    ensures
        r == contains_byte(s@, b),
{
    let len = s.len();
    let mut i: usize = 0;
    while i < len
        invariant
            len == s@.len(),
            0 <= i <= len,
            forall|j: int| 0 <= j < i ==> s@[j] != b,
        decreases len - i,
    {
        if s[i] == b {
            return true;
        }
        i = i + 1;
    }
    false
}

/// Extending the scanned prefix by one byte extends the segment split as the
/// definition says.
proof fn lemma_split_take_step(d: Seq<u8>, i: int)
    requires
        0 <= i < d.len(),
    ensures
        d[i] == 0x2f ==> spec_split_slash(d.take(i + 1)) == spec_split_slash(d.take(i)).push(
            Seq::<u8>::empty(),
        ),
        d[i] != 0x2f ==> spec_split_slash(d.take(i + 1)) == ({
            let prev = spec_split_slash(d.take(i));
            prev.update(prev.len() - 1, prev.last().push(d[i]))
        }),
{
    let t = d.take(i + 1);
    assert(t.len() == i + 1);
    assert(t.last() == d[i]);
    assert(t.drop_last() =~= d.take(i));
}

/// Appending one segment to the split extends the walk by one step.
proof fn lemma_walk_push(segs: Seq<Seq<u8>>, sg: Seq<u8>)
    ensures
        spec_walk(segs.push(sg)) == match spec_walk(segs) {
            Some(st) => spec_step(st, sg),
            None => None::<Seq<Seq<u8>>>,
        },
{
    assert(segs.push(sg).drop_last() =~= segs);
    assert(segs.push(sg).last() == sg);
}

/// A walk that has failed stays failed under any further segments.
proof fn lemma_walk_none_extends(a: Seq<Seq<u8>>, b: Seq<Seq<u8>>)
    requires
        spec_walk(a) is None,
    ensures
        spec_walk(a + b) is None,
    decreases b.len(),
{
    if b.len() == 0 {
        assert(a + b =~= a);
    } else {
        lemma_walk_none_extends(a, b.drop_last());
        assert((a + b).drop_last() =~= a + b.drop_last());
    }
}

/// Splitting distributes over a cut placed right after a slash (or at the
/// start): the whole split is the prefix's split, minus its dangling empty
/// last segment, followed by the suffix's split.
proof fn lemma_split_slash_concat_at(d: Seq<u8>, k: int)
    requires
        0 <= k <= d.len(),
        k == 0 || d[k - 1] == 0x2f,
    ensures
        spec_split_slash(d) == spec_split_slash(d.take(k)).drop_last() + spec_split_slash(
            d.skip(k),
        ),
    decreases d.len(),
{
    lemma_split_slash_len(d.take(k));
    lemma_split_slash_len(d.skip(k));
    if k == 0 {
        assert(d.take(0) =~= Seq::<u8>::empty());
        assert(spec_split_slash(d.take(0)).drop_last() =~= Seq::<Seq<u8>>::empty());
        assert(d.skip(0) =~= d);
        assert(spec_split_slash(d.take(k)).drop_last() + spec_split_slash(d.skip(k))
            =~= spec_split_slash(d));
    } else if k == d.len() {
        assert(d.take(k) =~= d);
        assert(d.skip(k) =~= Seq::<u8>::empty());
        assert(d.last() == 0x2f);
        assert(spec_split_slash(d) == spec_split_slash(d.drop_last()).push(Seq::<u8>::empty()));
        assert(spec_split_slash(d).drop_last() =~= spec_split_slash(d.drop_last()));
        assert(spec_split_slash(d.drop_last()) + seq![Seq::<u8>::empty()] =~= spec_split_slash(
            d,
        ));
    } else {
        lemma_split_slash_concat_at(d.drop_last(), k);
        lemma_split_slash_len(d.drop_last().skip(k));
        assert(d.drop_last().take(k) =~= d.take(k));
        assert(d.drop_last().skip(k) =~= d.skip(k).drop_last());
        let a = spec_split_slash(d.take(k)).drop_last();
        let b = spec_split_slash(d.skip(k).drop_last());
        assert(spec_split_slash(d.drop_last()) == a + b);
        assert(d.skip(k).len() > 0);
        assert(d.skip(k).last() == d.last());
        if d.last() == 0x2f {
            assert(spec_split_slash(d) == (a + b).push(Seq::<u8>::empty()));
            assert(spec_split_slash(d.skip(k)) == b.push(Seq::<u8>::empty()));
            assert((a + b).push(Seq::<u8>::empty()) =~= a + b.push(Seq::<u8>::empty()));
        } else {
            let prev = a + b;
            assert(spec_split_slash(d) == prev.update(prev.len() - 1, prev.last().push(d.last())));
            assert(spec_split_slash(d.skip(k)) == b.update(b.len() - 1, b.last().push(d.last())));
            assert(prev.last() == b.last());
            assert(prev.update(prev.len() - 1, prev.last().push(d.last())) =~= a + b.update(
                b.len() - 1,
                b.last().push(d.last()),
            ));
        }
    }
}

/// Resolves the raw bytes of a request suffix against a base directory path.
/// The returned path is the base followed by the kept components; its byte
/// form equals what `spec_resolve` computes.
pub fn resolve_path_bytes(base: &str, raw: &[u8]) -> (r: Result<String, PathTraversalError>)
    ensures
        ({
            let res = spec_resolve(base.spec_bytes(), raw@);
            match r {
                Ok(p) => res matches Ok(pb) && encode_utf8(p@) == pb,
                Err(e) => res == Err::<Seq<u8>, PathTraversalError>(e),
            }
        }),
{
    if contains_encoded_slash(raw) {
        return Err(PathTraversalError::EncodedSlash);
    }
    let d = percent_decode(raw);
    match string_from_utf8(d.as_slice()) {
        Some(_) => {},
        None => {
            return Err(PathTraversalError::InvalidEncoding);
        },
    }
    if find_byte(d.as_slice(), 0) {
        return Err(PathTraversalError::InvalidEncoding);
    }
    if find_byte(d.as_slice(), 0x5c) {
        return Err(PathTraversalError::Backslash);
    }
    let dlen = d.len();
    if dlen > 0 && d[0] == 0x2f {
        return Err(PathTraversalError::InvalidTargetPath);
    }
    let mut stack: Vec<String> = Vec::new();
    let mut current: Vec<u8> = Vec::new();
    let ghost mut seg_start: int = 0;
    let mut i: usize = 0;
    while i < dlen
        invariant
            !spec_has_encoded_slash(raw@),
            d@ == spec_percent_decode(raw@),
            !contains_byte(d@, 0),
            !contains_byte(d@, 0x5c),
            !(d@.len() > 0 && d@[0] == 0x2f),
            valid_utf8(d@),
            dlen == d@.len(),
            0 <= i <= dlen,
            0 <= seg_start <= i,
            seg_start == 0 || d@[seg_start - 1] == 0x2f,
            current@ == d@.subrange(seg_start, i as int),
            spec_split_slash(d@.take(i as int)).len() >= 1,
            spec_split_slash(d@.take(i as int)).last() == current@,
            spec_walk(spec_split_slash(d@.take(i as int)).drop_last()) == Some(
                kept_view(stack@),
            ),
        decreases dlen - i,
    {
        let ghost segs = spec_split_slash(d@.take(i as int));
        proof {
            lemma_split_take_step(d@, i as int);
        }
        let b = d[i];
        if b == 0x2f {
            proof {
                lemma_segment_valid(d@, seg_start, i as int);
                lemma_walk_push(segs.drop_last(), segs.last());
                assert(segs.drop_last().push(segs.last()) =~= segs);
                assert(spec_walk(segs) == spec_step(kept_view(stack@), current@));
            }
            let seg = current;
            current = Vec::new();
            let ok = apply_segment(&mut stack, seg);
            if !ok {
                proof {
                    assert(spec_walk(segs) is None);
                    lemma_split_slash_concat_at(d@, i + 1);
                    assert(spec_split_slash(d@.take(i + 1)).drop_last() =~= segs);
                    assert(spec_split_slash(d@) == segs + spec_split_slash(d@.skip(i + 1)));
                    lemma_walk_none_extends(segs, spec_split_slash(d@.skip(i + 1)));
                    assert(spec_walk(spec_split_slash(d@)) is None);
                    assert(spec_resolve(base.spec_bytes(), raw@) == Err::<
                        Seq<u8>,
                        PathTraversalError,
                    >(PathTraversalError::OutsideJail));
                }
                return Err(PathTraversalError::OutsideJail);
            }
            proof {
                seg_start = i + 1;
                let segs2 = spec_split_slash(d@.take(i + 1));
                assert(segs2 == segs.push(Seq::<u8>::empty()));
                assert(segs2.drop_last() =~= segs);
                assert(segs2.last() =~= d@.subrange(seg_start, i + 1));
            }
        } else {
            current.push(b);
            proof {
                let segs2 = spec_split_slash(d@.take(i + 1));
                assert(segs2 == segs.update(segs.len() - 1, segs.last().push(d@[i as int])));
                assert(segs2.drop_last() =~= segs.drop_last());
                assert(segs2.last() == segs.last().push(d@[i as int]));
                assert(current@ =~= d@.subrange(seg_start, i + 1));
            }
        }
        i = i + 1;
    }
    let ghost segs = spec_split_slash(d@);
    proof {
        assert(d@.take(dlen as int) =~= d@);
        lemma_segment_valid(d@, seg_start, dlen as int);
        lemma_walk_push(segs.drop_last(), segs.last());
        assert(segs.drop_last().push(segs.last()) =~= segs);
        assert(spec_walk(segs) == spec_step(kept_view(stack@), current@));
    }
    let ok = apply_segment(&mut stack, current);
    if !ok {
        return Err(PathTraversalError::OutsideJail);
    }
    let ghost ks = kept_view(stack@);
    proof {
        assert(spec_walk(spec_split_slash(d@)) == Some(ks));
        assert(spec_resolve(base.spec_bytes(), raw@) == Ok::<Seq<u8>, PathTraversalError>(
            base.spec_bytes() + spec_join_from(ks),
        ));
    }
    let mut result: String = base.to_owned();
    proof {
        assert(ks.take(0) =~= Seq::<Seq<u8>>::empty());
        assert(spec_join_from(ks.take(0)) =~= Seq::<u8>::empty());
        assert(encode_utf8(result@) =~= base.spec_bytes() + spec_join_from(ks.take(0)));
    }
    let slen = stack.len();
    let mut j: usize = 0;
    while j < slen
        invariant
            slen == stack@.len(),
            0 <= j <= slen,
            ks == kept_view(stack@),
            spec_resolve(base.spec_bytes(), raw@) == Ok::<Seq<u8>, PathTraversalError>(
                base.spec_bytes() + spec_join_from(ks),
            ),
            encode_utf8(result@) == base.spec_bytes() + spec_join_from(ks.take(j as int)),
        decreases slen - j,
    {
        let ghost before = result@;
        proof {
            reveal_strlit("/");
        }
        result.append("/");
        result.append(stack[j].as_str());
        proof {
            assert("/"@ =~= seq!['/']);
            assert(result@ == before + seq!['/'] + stack@[j as int]@);
            crate::strutil::lemma_encode_utf8_concat(before + seq!['/'], stack@[j as int]@);
            crate::strutil::lemma_encode_utf8_concat(before, seq!['/']);
            crate::strutil::lemma_encode_slash();
            assert(encode_utf8(result@) =~= encode_utf8(before) + seq![0x2fu8] + encode_utf8(
                stack@[j as int]@,
            ));
            let t = ks.take(j + 1);
            assert(t.drop_last() =~= ks.take(j as int));
            assert(t.last() == ks[j as int]);
            assert(spec_join_from(ks.take(j + 1)) == spec_join_from(ks.take(j as int)) + seq![
                0x2fu8,
            ] + ks[j as int]);
            assert(encode_utf8(result@) =~= base.spec_bytes() + spec_join_from(
                ks.take(j + 1),
            ));
        }
        j = j + 1;
    }
    proof {
        assert(ks.take(slen as int) =~= ks);
    }
    Ok(result)
}

/// Safely joins a client-supplied, percent-encoded suffix to a base
/// directory path, refusing anything that would step outside the base.
/// This is the core security function that prevents directory traversal.
pub fn join_path_jailed(base_dir: &str, component: &str) -> (r: Result<
    String,
    PathTraversalError,
>)
    ensures
        ({
            let res = spec_resolve(base_dir.spec_bytes(), component.spec_bytes());
            match r {
                Ok(p) => res matches Ok(pb) && encode_utf8(p@) == pb,
                Err(e) => res == Err::<Seq<u8>, PathTraversalError>(e),
            }
        }),
{
    resolve_path_bytes(base_dir, component.as_bytes())
}

/// The kinds of I/O failure the server distinguishes when touching a
/// resolved path on disk.
#[derive(Clone, Copy, Debug, PartialEq, Eq, Structural)]
pub enum IoErrorKind {
    NotFound,
    PermissionDenied,
    Other,
}

/// Failure to turn a request path into a usable filesystem path.
#[derive(Clone, Copy, Debug, PartialEq, Eq, Structural)]
pub enum FsError {
    InvalidPath(PathTraversalError),
    Io(IoErrorKind),
}

/// The request path with at most one leading `/` removed; the router keeps
/// the slash, the jail does not want it.
pub open spec fn spec_strip_leading_slash(raw: Seq<u8>) -> Seq<u8> {
    if raw.len() > 0 && raw[0] == 0x2f {
        raw.skip(1)
    } else {
        raw
    }
}

/// Resolves a full request path (with its leading `/`) inside the public
/// directory.
pub fn resolve_request_path(public_dir: &str, request_path: &str) -> (r: Result<String, FsError>)
    ensures
        ({
            let res = spec_resolve(
                public_dir.spec_bytes(),
                spec_strip_leading_slash(request_path.spec_bytes()),
            );
            match r {
                Ok(p) => res matches Ok(pb) && encode_utf8(p@) == pb,
                Err(e) => e matches FsError::InvalidPath(pe) && res == Err::<
                    Seq<u8>,
                    PathTraversalError,
                >(pe),
            }
        }),
{
    let bytes = request_path.as_bytes();
    let blen = bytes.len();
    let stripped: &[u8] = if blen > 0 && bytes[0] == 0x2f {
        vstd::slice::slice_subrange(bytes, 1, blen)
    } else {
        bytes
    };
    proof {
        assert(stripped@ == spec_strip_leading_slash(request_path.spec_bytes()));
    }
    match resolve_path_bytes(public_dir, stripped) {
        Ok(p) => Ok(p),
        Err(e) => Err(FsError::InvalidPath(e)),
    }
}

/// A plain path component: non-empty, not `.` or `..`, and free of the
/// separator, backslash, and NUL.
pub open spec fn spec_plain_name(c: Seq<u8>) -> bool {
    &&& c.len() > 0
    &&& c != seq![0x2eu8]
    &&& c != seq![0x2eu8, 0x2eu8]
    &&& !contains_byte(c, 0x2f)
    &&& !contains_byte(c, 0x5c)
    &&& !contains_byte(c, 0)
}

pub open spec fn spec_clean_components(ks: Seq<Seq<u8>>) -> bool {
    forall|i: int| 0 <= i < ks.len() ==> spec_plain_name(#[trigger] ks[i])
}

/// Every byte of every split segment comes from the input and is not `/`.
proof fn lemma_split_parts(d: Seq<u8>)
    ensures
        forall|i: int, j: int|
            0 <= i < spec_split_slash(d).len() && 0 <= j < spec_split_slash(d)[i].len()
                ==> #[trigger] spec_split_slash(d)[i][j] != 0x2f && contains_byte(
                d,
                spec_split_slash(d)[i][j],
            ),
    decreases d.len(),
{
    if d.len() == 0 {
    } else {
        lemma_split_parts(d.drop_last());
        let dd = d.drop_last();
        assert forall|x: u8| contains_byte(dd, x) implies contains_byte(d, x) by {
            let w = choose|w: int| 0 <= w < dd.len() && dd[w] == x;
            assert(d[w] == x);
        }
        let prev = spec_split_slash(dd);
        lemma_split_slash_len(dd);
        if d.last() == 0x2f {
            assert(spec_split_slash(d) == prev.push(Seq::<u8>::empty()));
        } else {
            let upd = prev.update(prev.len() - 1, prev.last().push(d.last()));
            assert(spec_split_slash(d) == upd);
            assert(contains_byte(d, d.last())) by {
                assert(d[d.len() - 1] == d.last());
            }
            assert forall|i: int, j: int|
                0 <= i < upd.len() && 0 <= j < upd[i].len() implies #[trigger] upd[i][j] != 0x2f
                && contains_byte(d, upd[i][j]) by {
                if i == prev.len() - 1 {
                    if j < prev.last().len() {
                        assert(upd[i][j] == prev.last()[j]);
                    } else {
                        assert(upd[i][j] == d.last());
                    }
                } else {
                    assert(upd[i] == prev[i]);
                }
            }
        }
    }
}

/// A walk over segments whose bytes are clean yields only plain components.
proof fn lemma_walk_clean(segs: Seq<Seq<u8>>)
    requires
        forall|i: int, j: int|
            0 <= i < segs.len() && 0 <= j < segs[i].len() ==> #[trigger] segs[i][j] != 0x2f
                && segs[i][j] != 0x5c && segs[i][j] != 0,
    ensures
        spec_walk(segs) matches Some(ks) ==> spec_clean_components(ks),
    decreases segs.len(),
{
    if segs.len() == 0 {
    } else {
        lemma_walk_clean(segs.drop_last());
        if spec_walk(segs.drop_last()) is Some {
            let st = spec_walk(segs.drop_last())->Some_0;
            let sg = segs.last();
            assert(forall|j: int| 0 <= j < sg.len() ==> sg[j] != 0x2f && sg[j] != 0x5c && sg[j] != 0)
                by {
                assert(segs[segs.len() - 1] == sg);
            }
            if sg.len() == 0 || sg == seq![0x2eu8] {
            } else if sg == seq![0x2eu8, 0x2eu8] {
                if st.len() > 0 {
                    assert(spec_clean_components(st.drop_last())) by {
                        assert(forall|i: int|
                            0 <= i < st.len() - 1 ==> #[trigger] st.drop_last()[i] == st[i]);
                    }
                }
            } else {
                assert(spec_plain_name(sg)) by {
                    assert(!contains_byte(sg, 0x2f));
                    assert(!contains_byte(sg, 0x5c));
                    assert(!contains_byte(sg, 0));
                }
                assert(spec_clean_components(st.push(sg))) by {
                    assert(forall|i: int| 0 <= i < st.len() ==> #[trigger] st.push(sg)[i] == st[i]);
                    assert(st.push(sg)[st.len() as int] == sg);
                }
            }
        }
    }
}

/// Containment: whenever resolution succeeds, the result is the base
/// followed by `/`-separated plain components — never `.` or `..`, never a
/// separator smuggled inside a component — so it is a lexical descendant of
/// the base.
pub proof fn lemma_resolve_stays_in_jail(base: Seq<u8>, raw: Seq<u8>)
    requires
        spec_resolve(base, raw) is Ok,
    ensures
        ({
            let p = spec_resolve(base, raw)->Ok_0;
            &&& p.len() >= base.len()
            &&& p.subrange(0, base.len() as int) == base
            &&& exists|ks: Seq<Seq<u8>>|
                p == base + spec_join_from(ks) && #[trigger] spec_clean_components(ks)
        }),
{
    let p = spec_resolve(base, raw)->Ok_0;
    let d = spec_percent_decode(raw);
    let ks = spec_walk(spec_split_slash(d))->Some_0;
    assert(p == base + spec_join_from(ks));
    lemma_split_parts(d);
    assert forall|i: int, j: int|
        0 <= i < spec_split_slash(d).len() && 0 <= j < spec_split_slash(d)[i].len()
        implies #[trigger] spec_split_slash(d)[i][j] != 0x2f && spec_split_slash(d)[i][j] != 0x5c
        && spec_split_slash(d)[i][j] != 0 by {
        assert(contains_byte(d, spec_split_slash(d)[i][j]));
        assert(!contains_byte(d, 0x5c));
        assert(!contains_byte(d, 0));
    }
    lemma_walk_clean(spec_split_slash(d));
    assert(spec_clean_components(ks));
    assert(p.subrange(0, base.len() as int) =~= base);
}

/// An encoded separator in the raw suffix is always refused.
pub proof fn lemma_encoded_slash_refused(base: Seq<u8>, raw: Seq<u8>)
    requires
        spec_has_encoded_slash(raw),
    ensures
        spec_resolve(base, raw) == Err::<Seq<u8>, PathTraversalError>(
            PathTraversalError::EncodedSlash,
        ),
{
}

/// Decoding keeps any byte that cannot take part in an escape.
proof fn lemma_decode_keeps_byte(raw: Seq<u8>, b: u8)
    requires
        contains_byte(raw, b),
        b != 0x25,
        !spec_is_hex_digit(b),
    ensures
        contains_byte(spec_percent_decode(raw), b),
    decreases raw.len(),
{
    let i = choose|i: int| 0 <= i < raw.len() && raw[i] == b;
    if spec_escape_at(raw, 0) {
        assert(i >= 3);
        assert(contains_byte(raw.skip(3), b)) by {
            assert(raw.skip(3)[i - 3] == b);
        }
        lemma_decode_keeps_byte(raw.skip(3), b);
        let tail = spec_percent_decode(raw.skip(3));
        let w = choose|w: int| 0 <= w < tail.len() && tail[w] == b;
        assert(spec_percent_decode(raw)[w + 1] == b);
    } else {
        if i == 0 {
            assert(spec_percent_decode(raw)[0] == b);
        } else {
            assert(contains_byte(raw.skip(1), b)) by {
                assert(raw.skip(1)[i - 1] == b);
            }
            lemma_decode_keeps_byte(raw.skip(1), b);
            let tail = spec_percent_decode(raw.skip(1));
            let w = choose|w: int| 0 <= w < tail.len() && tail[w] == b;
            assert(spec_percent_decode(raw)[w + 1] == b);
        }
    }
}

/// The value of any well-formed escape appears in the decoded bytes.
proof fn lemma_escape_value_decoded(raw: Seq<u8>, i: int)
    requires
        spec_escape_at(raw, i),
    ensures
        contains_byte(spec_percent_decode(raw), spec_escape_value(raw, i)),
    decreases raw.len(),
{
    let v = spec_escape_value(raw, i);
    if spec_escape_at(raw, 0) {
        if i == 0 {
            assert(spec_percent_decode(raw)[0] == v);
        } else {
            assert(i >= 3) by {
                assert(raw[i] == 0x25);
                assert(!spec_is_hex_digit(0x25));
            }
            assert(spec_escape_at(raw.skip(3), i - 3)) by {
                assert(raw.skip(3)[i - 3] == raw[i]);
                assert(raw.skip(3)[i - 3 + 1] == raw[i + 1]);
                assert(raw.skip(3)[i - 3 + 2] == raw[i + 2]);
            }
            lemma_escape_value_decoded(raw.skip(3), i - 3);
            assert(spec_escape_value(raw.skip(3), i - 3) == v);
            let tail = spec_percent_decode(raw.skip(3));
            let w = choose|w: int| 0 <= w < tail.len() && tail[w] == v;
            assert(spec_percent_decode(raw)[w + 1] == v);
        }
    } else {
        assert(i != 0);
        assert(spec_escape_at(raw.skip(1), i - 1)) by {
            assert(raw.skip(1)[i - 1] == raw[i]);
            assert(raw.skip(1)[i - 1 + 1] == raw[i + 1]);
            assert(raw.skip(1)[i - 1 + 2] == raw[i + 2]);
        }
        lemma_escape_value_decoded(raw.skip(1), i - 1);
        assert(spec_escape_value(raw.skip(1), i - 1) == v);
        let tail = spec_percent_decode(raw.skip(1));
        let w = choose|w: int| 0 <= w < tail.len() && tail[w] == v;
        assert(spec_percent_decode(raw)[w + 1] == v);
    }
}

/// An ASCII character of the text appears as its own byte in the text's
/// UTF-8 encoding.
proof fn lemma_ascii_char_in_encode(s: Seq<char>, i: int)
    requires
        0 <= i < s.len(),
        (s[i] as u32) < 0x80,
    ensures
        contains_byte(encode_utf8(s), s[i] as u8),
    decreases i,
{
    let head = encode_scalar(s[0] as u32);
    assert(encode_utf8(s) == head + encode_utf8(s.drop_first()));
    if i == 0 {
        crate::percent::lemma_encode_ascii_char1(s[0]);
        assert(encode_utf8(seq![s[0]]) == seq![s[0] as u8]);
        assert(seq![s[0]].drop_first() =~= Seq::<char>::empty());
        assert(encode_utf8(seq![s[0]].drop_first()) =~= Seq::<u8>::empty());
        assert(encode_utf8(seq![s[0]]) =~= head + Seq::<u8>::empty());
        assert(head =~= seq![s[0] as u8]);
        assert(encode_utf8(s)[0] == s[0] as u8);
    } else {
        assert(s.drop_first()[i - 1] == s[i]);
        lemma_ascii_char_in_encode(s.drop_first(), i - 1);
        let tail = encode_utf8(s.drop_first());
        let w = choose|w: int| 0 <= w < tail.len() && tail[w] == s[i] as u8;
        assert(encode_utf8(s)[head.len() + w] == s[i] as u8);
    }
}

/// A literal backslash character anywhere in the suffix is refused: its
/// UTF-8 byte survives into the raw bytes and the decoder keeps it.
pub proof fn lemma_backslash_char_refused(base: Seq<u8>, component: Seq<char>)
    requires
        exists|i: int| 0 <= i < component.len() && component[i] == '\\',
    ensures
        spec_resolve(base, encode_utf8(component)) is Err,
{
    let i = choose|i: int| 0 <= i < component.len() && component[i] == '\\';
    assert(('\\' as u32) < 0x80);
    lemma_ascii_char_in_encode(component, i);
    assert(contains_byte(encode_utf8(component), 0x5c));
    lemma_backslash_refused(base, encode_utf8(component));
}

/// The encoded-slash pattern, seen in the characters, survives into the
/// UTF-8 bytes.
proof fn lemma_encoded_slash_window(s: Seq<char>, i: int)
    requires
        0 <= i,
        i + 2 < s.len(),
        s[i] == '%',
        s[i + 1] == '2',
        s[i + 2] == 'F' || s[i + 2] == 'f',
    ensures
        spec_has_encoded_slash(encode_utf8(s)),
    decreases i,
{
    if i == 0 {
        let triple = seq![s[0], s[1], s[2]];
        let back = s.skip(3);
        assert(s =~= triple + back);
        crate::strutil::lemma_encode_utf8_concat(triple, back);
        crate::percent::lemma_encode_ascii_char3(s[0], s[1], s[2]);
        let eb = encode_utf8(s);
        assert(eb =~= seq![s[0] as u8, s[1] as u8, s[2] as u8] + encode_utf8(back));
        assert(eb[0] == 0x25);
        assert(spec_ascii_lower(eb[1]) == 0x32);
        assert(spec_ascii_lower(eb[2]) == 0x66);
        assert(0 + 2 < eb.len());
    } else {
        let rest = s.drop_first();
        assert(rest[i - 1] == s[i]);
        assert(rest[i - 1 + 1] == s[i + 1]);
        assert(rest[i - 1 + 2] == s[i + 2]);
        lemma_encoded_slash_window(rest, i - 1);
        let head = encode_scalar(s[0] as u32);
        let tail = encode_utf8(rest);
        assert(encode_utf8(s) == head + tail);
        let j = choose|j: int|
            0 <= j && j + 2 < tail.len() && #[trigger] tail[j] == 0x25 && spec_ascii_lower(
                tail[j + 1],
            ) == 0x32 && spec_ascii_lower(tail[j + 2]) == 0x66;
        let k = head.len() + j;
        assert(encode_utf8(s)[k] == tail[j]);
        assert(encode_utf8(s)[k + 1] == tail[j + 1]);
        assert(encode_utf8(s)[k + 2] == tail[j + 2]);
        assert(k + 2 < encode_utf8(s).len());
    }
}

/// The text `%2F` or `%2f` anywhere in the suffix is refused as an encoded
/// separator before anything is decoded.
pub proof fn lemma_encoded_slash_chars_refused(base: Seq<u8>, component: Seq<char>)
    requires
        exists|i: int|
            0 <= i && i + 2 < component.len() && #[trigger] component[i] == '%' && component[i + 1]
                == '2' && (component[i + 2] == 'F' || component[i + 2] == 'f'),
    ensures
        spec_resolve(base, encode_utf8(component)) == Err::<Seq<u8>, PathTraversalError>(
            PathTraversalError::EncodedSlash,
        ),
{
    let i = choose|i: int|
        0 <= i && i + 2 < component.len() && #[trigger] component[i] == '%' && component[i + 1]
            == '2' && (component[i + 2] == 'F' || component[i + 2] == 'f');
    lemma_encoded_slash_window(component, i);
}

/// A byte sequence without separators splits into itself alone.
proof fn lemma_split_slash_free(d: Seq<u8>)
    requires
        !contains_byte(d, 0x2f),
    ensures
        spec_split_slash(d) == seq![d],
    decreases d.len(),
{
    if d.len() == 0 {
        assert(spec_split_slash(d) =~= seq![d]);
    } else {
        assert(!contains_byte(d.drop_last(), 0x2f)) by {
            if contains_byte(d.drop_last(), 0x2f) {
                let w = choose|w: int| 0 <= w < d.drop_last().len() && d.drop_last()[w] == 0x2f;
                assert(d[w] == 0x2f);
            }
        }
        lemma_split_slash_free(d.drop_last());
        assert(d.last() != 0x2f) by {
            assert(d[d.len() - 1] == d.last());
        }
        let prev = seq![d.drop_last()];
        assert(spec_split_slash(d) == prev.update(0, prev.last().push(d.last())));
        assert(prev.last() == d.drop_last());
        assert(d.drop_last().push(d.last()) =~= d);
        assert(prev.update(0, d) =~= seq![d]);
    }
}

/// Round trip: the `href` the listing writes for a plain entry name leads
/// the resolver straight back to that name under the base.  The name's
/// UTF-8 bytes must be non-empty, free of `/`, `\` and NUL, and not `.` or
/// `..` — exactly what directory enumeration yields.
pub proof fn lemma_listing_href_resolves(base: Seq<u8>, name: Seq<char>)
    requires
        encode_utf8(name).len() > 0,
        !contains_byte(encode_utf8(name), 0x2f),
        !contains_byte(encode_utf8(name), 0x5c),
        !contains_byte(encode_utf8(name), 0),
        encode_utf8(name) != seq![0x2eu8],
        encode_utf8(name) != seq![0x2eu8, 0x2eu8],
    ensures
        spec_resolve(base, encode_utf8(crate::percent::spec_encode_path(name))) == Ok::<
            Seq<u8>,
            PathTraversalError,
        >(base + seq![0x2fu8] + encode_utf8(name)),
{
    broadcast use encode_utf8_valid_utf8;

    let nb = encode_utf8(name);
    let enc = crate::percent::spec_encode_bytes(nb);
    crate::percent::lemma_encode_path_bytes(name);
    assert(encode_utf8(crate::percent::spec_encode_path(name)) == enc);
    crate::percent::lemma_encode_bytes_no_encoded_slash(nb);
    assert(!spec_has_encoded_slash(enc));
    crate::percent::lemma_decode_encode_bytes(nb);
    assert(spec_percent_decode(enc) == nb);
    assert(valid_utf8(nb));
    assert(nb[0] != 0x2f) by {
        if nb[0] == 0x2f {
            assert(contains_byte(nb, 0x2f));
        }
    }
    lemma_split_slash_free(nb);
    let segs = seq![nb];
    assert(segs.drop_last() =~= Seq::<Seq<u8>>::empty());
    assert(spec_walk(segs.drop_last()) == Some(Seq::<Seq<u8>>::empty()));
    assert(segs.last() == nb);
    assert(spec_step(Seq::<Seq<u8>>::empty(), nb) == Some(Seq::<Seq<u8>>::empty().push(nb)));
    let ks = Seq::<Seq<u8>>::empty().push(nb);
    assert(spec_walk(segs) == Some(ks));
    assert(ks.drop_last() =~= Seq::<Seq<u8>>::empty());
    assert(ks.last() == nb);
    assert(spec_join_from(ks) == spec_join_from(Seq::<Seq<u8>>::empty()) + seq![0x2fu8] + nb);
    assert(spec_join_from(Seq::<Seq<u8>>::empty()) =~= Seq::<u8>::empty());
    assert(base + spec_join_from(ks) =~= base + seq![0x2fu8] + nb);
}

/// A backslash in the suffix — literal or percent-encoded — is always
/// refused.
pub proof fn lemma_backslash_refused(base: Seq<u8>, raw: Seq<u8>)
    requires
        contains_byte(raw, 0x5c) || (exists|i: int|
            #[trigger] spec_escape_at(raw, i) && spec_escape_value(raw, i) == 0x5c),
    ensures
        spec_resolve(base, raw) is Err,
{
    if !spec_has_encoded_slash(raw) {
        if contains_byte(raw, 0x5c) {
            assert(!spec_is_hex_digit(0x5c));
            lemma_decode_keeps_byte(raw, 0x5c);
        } else {
            let i = choose|i: int|
                #[trigger] spec_escape_at(raw, i) && spec_escape_value(raw, i) == 0x5c;
            lemma_escape_value_decoded(raw, i);
        }
        assert(contains_byte(spec_percent_decode(raw), 0x5c));
    }
}

} // verus!
