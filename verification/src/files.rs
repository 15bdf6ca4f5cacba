//! Directory entries and the small renderers the listing page needs:
//! HTML escaping, human-readable sizes, timestamps, and MIME lookup.

use vstd::prelude::*;
use vstd::string::StringExecFns;
use vstd::string::StringSliceAdditionalSpecFns;
use vstd::utf8::encode_utf8;

verus! {

/// What the MIME table answers for a file name; the guess depends on the
/// name's extension alone.
pub uninterp spec fn mime_guess_text(path: Seq<char>) -> Seq<char>;

/// Relies on mime_guess's `from_path(..).first_or_octet_stream()`: the
/// first known type for the extension, `application/octet-stream` when the
/// extension is unknown.
#[verifier::external_body]
pub fn get_mime_type(file_path: &str) -> (r: String)
    ensures
        r@ == mime_guess_text(file_path@),
{
    mime_guess::from_path(file_path).first_or_octet_stream().to_string()
}

/// Relies on chrono's `DateTime::from_timestamp` and the `Local` time zone:
/// `%Y-%m-%d %H:%M:%S` of a year between 1 and 9999 is exactly 19
/// characters.  The local offset keeps the year within that window for the
/// accepted range of seconds.
#[verifier::external_body]
pub fn format_timestamp(timestamp_secs: i64) -> (r: String)
    requires
        0 <= timestamp_secs < 250_000_000_000,
    ensures
        r@.len() == 19,
{
    match chrono::DateTime::from_timestamp(timestamp_secs, 0) {
        Some(utc) => utc.with_timezone(&chrono::Local).format("%Y-%m-%d %H:%M:%S").to_string(),
        None => String::new(),
    }
}

/// Metadata for one directory entry.  The modification time is kept as
/// seconds since the Unix epoch; the caller reads it from the filesystem.
#[derive(Debug, Clone)]
pub struct DirectoryEntry {
    pub name: String,
    pub size: u64,
    pub modified: i64,
    pub is_dir: bool,
}

/// What one character contributes to HTML-escaped text.
pub open spec fn spec_escape_html_char(c: char) -> Seq<char> {
    if c == '&' {
        "&amp;"@
    } else if c == '<' {
        "&lt;"@
    } else if c == '>' {
        "&gt;"@
    } else if c == '"' {
        "&quot;"@
    } else if c == '\'' {
        "&#x27;"@
    } else {
        seq![c]
    }
}

/// HTML-escaped text: every `&`, `<`, `>`, `"` and `'` becomes an entity.
pub open spec fn spec_escape_html(s: Seq<char>) -> Seq<char>
    decreases s.len(),
{
    if s.len() == 0 {
        seq![]
    } else {
        spec_escape_html_char(s[0]) + spec_escape_html(s.skip(1))
    }
}

/// `spec_escape_html` distributes over concatenation.
pub proof fn lemma_escape_html_concat(a: Seq<char>, b: Seq<char>)
    ensures
        spec_escape_html(a + b) == spec_escape_html(a) + spec_escape_html(b),
    decreases a.len(),
{
    if a.len() == 0 {
        assert(a + b =~= b);
        assert(spec_escape_html(a) =~= Seq::<char>::empty());
    } else {
        lemma_escape_html_concat(a.skip(1), b);
        assert((a + b).skip(1) =~= a.skip(1) + b);
        assert((a + b)[0] == a[0]);
        assert(spec_escape_html(a + b) =~= spec_escape_html_char(a[0]) + (spec_escape_html(
            a.skip(1),
        ) + spec_escape_html(b)));
        assert(spec_escape_html_char(a[0]) + (spec_escape_html(a.skip(1)) + spec_escape_html(b))
            =~= (spec_escape_html_char(a[0]) + spec_escape_html(a.skip(1))) + spec_escape_html(b));
    }
}

proof fn lemma_escape_html_step(s: Seq<char>, i: int)
    requires
        0 < i <= s.len(),
    ensures
        spec_escape_html(s.take(i)) == spec_escape_html(s.take(i - 1)) + spec_escape_html_char(
            s[i - 1],
        ),
{
    let single = seq![s[i - 1]];
    lemma_escape_html_concat(s.take(i - 1), single);
    assert(s.take(i) =~= s.take(i - 1) + single);
    assert(single.skip(1) =~= Seq::<char>::empty());
    assert(spec_escape_html(single.skip(1)) =~= Seq::<char>::empty());
    assert(spec_escape_html(single) == spec_escape_html_char(single[0]) + spec_escape_html(
        single.skip(1),
    ));
    assert(spec_escape_html_char(single[0]) + Seq::<char>::empty() =~= spec_escape_html_char(
        s[i - 1],
    ));
}

/// Escapes HTML special characters.
pub fn escape_html(input: &str) -> (r: String)
    ensures
        r@ == spec_escape_html(input@),
{
    let len = input.unicode_len();
    let mut out = String::new();
    let mut i: usize = 0;
    while i < len
        invariant
            len == input@.len(),
            0 <= i <= len,
            out@ == spec_escape_html(input@.take(i as int)),
        decreases len - i,
    {
        let c = input.get_char(i);
        if c == '&' {
            out.append("&amp;");
        } else if c == '<' {
            out.append("&lt;");
        } else if c == '>' {
            out.append("&gt;");
        } else if c == '"' {
            out.append("&quot;");
        } else if c == '\'' {
            out.append("&#x27;");
        } else {
            let piece = input.substring_char(i, i + 1);
            proof {
                assert(piece@ =~= seq![input@[i as int]]);
            }
            out.append(piece);
        }
        i = i + 1;
        proof {
            lemma_escape_html_step(input@, i as int);
        }
    }
    proof {
        assert(input@.take(len as int) =~= input@);
    }
    out
}

/// The decimal digit characters.
pub open spec fn spec_digit_char(d: int) -> char {
    if d == 0 {
        '0'
    } else if d == 1 {
        '1'
    } else if d == 2 {
        '2'
    } else if d == 3 {
        '3'
    } else if d == 4 {
        '4'
    } else if d == 5 {
        '5'
    } else if d == 6 {
        '6'
    } else if d == 7 {
        '7'
    } else if d == 8 {
        '8'
    } else {
        '9'
    }
}

/// The decimal text of a non-negative number.
pub open spec fn spec_decimal(n: int) -> Seq<char>
    decreases n,
{
    if n < 10 {
        seq![spec_digit_char(n)]
    } else {
        spec_decimal(n / 10) + seq![spec_digit_char(n % 10)]
    }
}

fn digit_str(d: u64) -> (r: &'static str)
    requires
        d < 10,
    ensures
        r@ == seq![spec_digit_char(d as int)],
{
    proof {
        reveal_strlit("0");
        reveal_strlit("1");
        reveal_strlit("2");
        reveal_strlit("3");
        reveal_strlit("4");
        reveal_strlit("5");
        reveal_strlit("6");
        reveal_strlit("7");
        reveal_strlit("8");
        reveal_strlit("9");
    }
    match d {
        0 => "0",
        1 => "1",
        2 => "2",
        3 => "3",
        4 => "4",
        5 => "5",
        6 => "6",
        7 => "7",
        8 => "8",
        _ => "9",
    }
}

/// Renders a number in decimal.
pub fn u64_to_string(n: u64) -> (r: String)
    ensures
        r@ == spec_decimal(n as int),
    decreases n,
{
    if n < 10 {
        digit_str(n).to_owned()
    } else {
        let prefix = u64_to_string(n / 10);
        prefix.concat(digit_str(n % 10))
    }
}

/// The size thresholds of the units B, KiB, MiB, GiB, TiB, PiB.
pub open spec fn spec_size_unit(size: u64) -> int {
    if size < 1024 {
        0
    } else if size < 1048576 {
        1
    } else if size < 1073741824 {
        2
    } else if size < 1099511627776 {
        3
    } else if size < 1125899906842624 {
        4
    } else {
        5
    }
}

pub open spec fn spec_unit_divisor(k: int) -> int {
    if k <= 1 {
        1024
    } else if k == 2 {
        1048576
    } else if k == 3 {
        1073741824
    } else if k == 4 {
        1099511627776
    } else {
        1125899906842624
    }
}

pub open spec fn spec_unit_name(k: int) -> Seq<char> {
    if k <= 0 {
        " B"@
    } else if k == 1 {
        " KiB"@
    } else if k == 2 {
        " MiB"@
    } else if k == 3 {
        " GiB"@
    } else if k == 4 {
        " TiB"@
    } else {
        " PiB"@
    }
}

/// Tenths of a unit, rounded half to even as decimal display rounds.
pub open spec fn spec_size_tenths(size: u64) -> int {
    let p = spec_unit_divisor(spec_size_unit(size));
    let t = 10 * size / p;
    let rem = 10 * size % p;
    if 2 * rem > p {
        t + 1
    } else if 2 * rem < p {
        t
    } else if t % 2 == 0 {
        t
    } else {
        t + 1
    }
}

/// The displayed size: bytes verbatim below one KiB, otherwise one decimal
/// place of the matching unit.
pub open spec fn spec_format_file_size(size: u64) -> Seq<char> {
    if size == 0 {
        "0 B"@
    } else if spec_size_unit(size) == 0 {
        spec_decimal(size as int) + " B"@
    } else {
        let tenths = spec_size_tenths(size);
        spec_decimal(tenths / 10) + "."@ + seq![spec_digit_char(tenths % 10)] + spec_unit_name(
            spec_size_unit(size),
        )
    }
}

/// Formats a file size in human-readable form (for example `1.5 KiB`).
pub fn format_file_size(size: u64) -> (r: String)
    ensures
        r@ == spec_format_file_size(size),
{
    if size == 0 {
        return String::from_str("0 B");
    }
    if size < 1024 {
        return u64_to_string(size).concat(" B");
    }
    let (p, unit): (u64, &'static str) = if size < 1048576 {
        (1024, " KiB")
    } else if size < 1073741824 {
        (1048576, " MiB")
    } else if size < 1099511627776 {
        (1073741824, " GiB")
    } else if size < 1125899906842624 {
        (1099511627776, " TiB")
    } else {
        (1125899906842624, " PiB")
    };
    let wide: u128 = (size as u128) * 10;
    let t: u128 = wide / (p as u128);
    let rem: u128 = wide % (p as u128);
    let tenths: u128 = if 2 * rem > (p as u128) {
        t + 1
    } else if 2 * rem < (p as u128) {
        t
    } else if t % 2 == 0 {
        t
    } else {
        t + 1
    };
    proof {
        assert(tenths == spec_size_tenths(size));
        assert(tenths <= wide);
    }
    let whole: u64 = (tenths / 10) as u64;
    let frac: u64 = (tenths % 10) as u64;
    let out = u64_to_string(whole).concat(".").concat(digit_str(frac)).concat(unit);
    out
}

/// Lexicographic order on byte strings.
pub open spec fn spec_lex_le(a: Seq<u8>, b: Seq<u8>) -> bool
    decreases a.len(),
{
    if a.len() == 0 {
        true
    } else if b.len() == 0 {
        false
    } else if a[0] < b[0] {
        true
    } else if a[0] > b[0] {
        false
    } else {
        spec_lex_le(a.drop_first(), b.drop_first())
    }
}

pub proof fn lemma_lex_le_total(a: Seq<u8>, b: Seq<u8>)
    ensures
        spec_lex_le(a, b) || spec_lex_le(b, a),
    decreases a.len(),
{
    if a.len() > 0 && b.len() > 0 && a[0] == b[0] {
        lemma_lex_le_total(a.drop_first(), b.drop_first());
    }
}

pub proof fn lemma_lex_le_trans(a: Seq<u8>, b: Seq<u8>, c: Seq<u8>)
    requires
        spec_lex_le(a, b),
        spec_lex_le(b, c),
    ensures
        spec_lex_le(a, c),
    decreases a.len(),
{
    if a.len() > 0 && b.len() > 0 && c.len() > 0 && a[0] == b[0] && b[0] == c[0] {
        lemma_lex_le_trans(a.drop_first(), b.drop_first(), c.drop_first());
    }
}

/// A matching prefix shifts the lexicographic comparison past it.
proof fn lemma_lex_le_skip(a: Seq<u8>, b: Seq<u8>, i: int)
    requires
        0 <= i <= a.len(),
        i <= b.len(),
        forall|j: int| 0 <= j < i ==> a[j] == b[j],
    ensures
        spec_lex_le(a, b) == spec_lex_le(a.skip(i), b.skip(i)),
    decreases i,
{
    if i > 0 {
        assert(a.len() > 0 && b.len() > 0 && a[0] == b[0]);
        assert(forall|j: int|
            0 <= j < i - 1 ==> #[trigger] a.drop_first()[j] == b.drop_first()[j]);
        lemma_lex_le_skip(a.drop_first(), b.drop_first(), i - 1);
        assert(a.drop_first().skip(i - 1) =~= a.skip(i));
        assert(b.drop_first().skip(i - 1) =~= b.skip(i));
    } else {
        assert(a.skip(0) =~= a);
        assert(b.skip(0) =~= b);
    }
}

/// Compares byte strings lexicographically.
pub fn lex_le_bytes(a: &[u8], b: &[u8]) -> (r: bool)
    ensures
        r == spec_lex_le(a@, b@),
{
    let alen = a.len();
    let blen = b.len();
    let mut i: usize = 0;
    while i < alen && i < blen
        invariant
            alen == a@.len(),
            blen == b@.len(),
            0 <= i <= alen,
            i <= blen,
            forall|j: int| 0 <= j < i ==> a@[j] == b@[j],
        decreases alen - i,
    {
        if a[i] < b[i] {
            proof {
                lemma_lex_le_skip(a@, b@, i as int);
                assert(a@.skip(i as int)[0] == a@[i as int]);
                assert(b@.skip(i as int)[0] == b@[i as int]);
            }
            return true;
        }
        if a[i] > b[i] {
            proof {
                lemma_lex_le_skip(a@, b@, i as int);
                assert(a@.skip(i as int)[0] == a@[i as int]);
                assert(b@.skip(i as int)[0] == b@[i as int]);
            }
            return false;
        }
        i = i + 1;
    }
    proof {
        lemma_lex_le_skip(a@, b@, i as int);
        if i >= alen {
            assert(a@.skip(i as int).len() == 0);
        } else {
            assert(b@.skip(i as int).len() == 0);
            assert(a@.skip(i as int).len() > 0);
        }
    }
    alen <= blen
}

/// Listing order: directories before files, each group ordered by name.
pub open spec fn spec_entry_le(a: DirectoryEntry, b: DirectoryEntry) -> bool {
    if a.is_dir != b.is_dir {
        a.is_dir
    } else {
        spec_lex_le(encode_utf8(a.name@), encode_utf8(b.name@))
    }
}

pub proof fn lemma_entry_le_total(a: DirectoryEntry, b: DirectoryEntry)
    ensures
        spec_entry_le(a, b) || spec_entry_le(b, a),
{
    if a.is_dir == b.is_dir {
        lemma_lex_le_total(encode_utf8(a.name@), encode_utf8(b.name@));
    }
}

pub proof fn lemma_entry_le_trans(a: DirectoryEntry, b: DirectoryEntry, c: DirectoryEntry)
    requires
        spec_entry_le(a, b),
        spec_entry_le(b, c),
    ensures
        spec_entry_le(a, c),
{
    if a.is_dir == b.is_dir && b.is_dir == c.is_dir {
        lemma_lex_le_trans(
            encode_utf8(a.name@),
            encode_utf8(b.name@),
            encode_utf8(c.name@),
        );
    }
}

fn entry_le(a: &DirectoryEntry, b: &DirectoryEntry) -> (r: bool)
    ensures
        r == spec_entry_le(*a, *b),
{
    if a.is_dir != b.is_dir {
        a.is_dir
    } else {
        lex_le_bytes(a.name.as_str().as_bytes(), b.name.as_str().as_bytes())
    }
}

pub open spec fn spec_entries_sorted(s: Seq<DirectoryEntry>) -> bool {
    forall|i: int, j: int| 0 <= i < j < s.len() ==> spec_entry_le(#[trigger] s[i], #[trigger] s[j])
}

/// Sorts entries for the listing: directories first, then files, each
/// lexicographically by the raw bytes of the name.  The entries themselves
/// are kept: only their order changes.
pub fn sort_entries(entries: &mut Vec<DirectoryEntry>)
    ensures
        final(entries)@.to_multiset() == old(entries)@.to_multiset(),
        spec_entries_sorted(final(entries)@),
{
    broadcast use vstd::seq_lib::group_to_multiset_ensures;
    broadcast use vstd::multiset::group_multiset_axioms;

    let mut rest: Vec<DirectoryEntry> = Vec::new();
    proof {
        assert(rest@.to_multiset().add(entries@.to_multiset()) =~= old(
            entries,
        )@.to_multiset());
    }
    while entries.len() > 0
        invariant
            rest@.to_multiset().add(entries@.to_multiset()) == old(entries)@.to_multiset(),
        decreases entries@.len(),
    {
        let ghost pre_rest = rest@;
        let ghost pre_entries = entries@;
        let x = match entries.pop() {
            Some(x) => x,
            None => unreached(),
        };
        rest.push(x);
        proof {
            assert(pre_entries == entries@.push(x)) by {
                assert(pre_entries =~= pre_entries.subrange(0, pre_entries.len() - 1).push(
                    pre_entries.last(),
                ));
            }
            vstd::seq_lib::to_multiset_build(entries@, x);
            vstd::seq_lib::to_multiset_build(pre_rest, x);
            assert(rest@.to_multiset().add(entries@.to_multiset()) =~= pre_rest.to_multiset().add(
                pre_entries.to_multiset(),
            ));
        }
    }
    proof {
        assert(spec_entries_sorted(entries@));
    }
    while rest.len() > 0
        invariant
            rest@.to_multiset().add(entries@.to_multiset()) == old(entries)@.to_multiset(),
            spec_entries_sorted(entries@),
            forall|i: int, j: int|
                0 <= i < entries@.len() && 0 <= j < rest@.len() ==> spec_entry_le(
                    #[trigger] entries@[i],
                    #[trigger] rest@[j],
                ),
        decreases rest@.len(),
    {
        let rlen = rest.len();
        let mut m: usize = 0;
        let mut k: usize = 1;
        proof {
            lemma_entry_le_total(rest@[0], rest@[0]);
        }
        while k < rlen
            invariant
                rlen == rest@.len(),
                0 <= m < k <= rlen,
                forall|j: int| 0 <= j < k ==> spec_entry_le(rest@[m as int], #[trigger] rest@[j]),
            decreases rlen - k,
        {
            if entry_le(&rest[k], &rest[m]) {
                proof {
                    lemma_entry_le_total(rest@[k as int], rest@[k as int]);
                    assert forall|j: int| 0 <= j < k + 1 implies spec_entry_le(
                        rest@[k as int],
                        #[trigger] rest@[j],
                    ) by {
                        if j < k {
                            lemma_entry_le_trans(rest@[k as int], rest@[m as int], rest@[j]);
                        }
                    }
                }
                m = k;
            } else {
                proof {
                    lemma_entry_le_total(rest@[m as int], rest@[k as int]);
                }
            }
            k = k + 1;
        }
        let ghost pre_rest = rest@;
        let ghost pre_entries = entries@;
        let x = rest.remove(m);
        entries.push(x);
        proof {
            // the minimum is not larger than anything left or already placed
            assert(forall|j: int|
                0 <= j < pre_rest.len() ==> spec_entry_le(x, #[trigger] pre_rest[j]));
            assert forall|i: int, j: int|
                0 <= i < entries@.len() && 0 <= j < rest@.len() implies spec_entry_le(
                    #[trigger] entries@[i],
                    #[trigger] rest@[j],
                ) by {
                assert(rest@[j] == pre_rest.remove(m as int)[j]);
                if j < m {
                    assert(rest@[j] == pre_rest[j]);
                } else {
                    assert(rest@[j] == pre_rest[j + 1]);
                }
                if i < pre_entries.len() {
                    assert(entries@[i] == pre_entries[i]);
                } else {
                    assert(entries@[i] == x);
                }
            }
            assert(spec_entries_sorted(entries@)) by {
                assert(forall|i: int|
                    0 <= i < pre_entries.len() ==> #[trigger] entries@[i] == pre_entries[i]);
                assert(entries@[entries@.len() - 1] == x);
                assert(forall|i: int|
                    0 <= i < pre_entries.len() ==> spec_entry_le(
                        #[trigger] pre_entries[i],
                        x,
                    ));
            }
            vstd::seq_lib::to_multiset_remove(pre_rest, m as int);
            assert(rest@.to_multiset() == pre_rest.to_multiset().remove(x));
            vstd::seq_lib::to_multiset_build(pre_entries, x);
            assert(entries@.to_multiset() == pre_entries.to_multiset().insert(x));
            assert(pre_rest.to_multiset().count(x) > 0) by {
                assert(pre_rest[m as int] == x);
                assert(pre_rest.contains(x));
                vstd::seq_lib::to_multiset_contains(pre_rest, x);
            }
            assert(rest@.to_multiset().add(entries@.to_multiset()) =~= pre_rest.to_multiset().add(
                pre_entries.to_multiset(),
            ));
        }
    }
}

} // verus!
