//! The ignore-pattern engine: glob-like lines compiled to anchored regex
//! sources, and the filtering of listing entries through them.

use vstd::prelude::*;
use vstd::string::StringExecFns;
use vstd::string::StringSliceAdditionalSpecFns;

use crate::auth::{spec_is_ws, spec_skip_ws};
use crate::files::DirectoryEntry;

verus! {

/// Whether a regex source compiles; a pure function of the source text.
pub uninterp spec fn spec_regex_compiles(src: Seq<char>) -> bool;

/// Whether a compiled regex source matches a text; a pure function of the
/// source and the text.
pub uninterp spec fn spec_regex_match(src: Seq<char>, text: Seq<char>) -> bool;

/// Relies on regex's `Regex::new`: compilation depends on the source text
/// alone.
#[verifier::external_body]
fn regex_compiles(src: &str) -> (r: bool)
    ensures
        r == spec_regex_compiles(src@),
{
    regex::Regex::new(src).is_ok()
}

/// Relies on regex's `Regex::new` and `Regex::is_match`: whether this
/// source matches this text, a pure function of the two.
#[verifier::external_body]
fn regex_is_match(src: &str, text: &str) -> (r: bool)
    requires
        spec_regex_compiles(src@),
    ensures
        r == spec_regex_match(src@, text@),
{
    match regex::Regex::new(src) {
        Ok(re) => re.is_match(text),
        Err(_) => false,
    }
}

/// What one pattern character contributes to the regex source: `*` and `?`
/// become wildcards, regex metacharacters are escaped, anything else is
/// itself.
pub open spec fn spec_glob_char(c: char) -> Seq<char> {
    if c == '*' {
        ".*"@
    } else if c == '?' {
        "."@
    } else if c == '\\' || c == '^' || c == '$' || c == '.' || c == '+' || c == '(' || c == ')'
        || c == '[' || c == ']' || c == '{' || c == '}' || c == '|' {
        seq!['\\', c]
    } else {
        seq![c]
    }
}

pub open spec fn spec_glob_body(s: Seq<char>) -> Seq<char>
    decreases s.len(),
{
    if s.len() == 0 {
        seq![]
    } else {
        spec_glob_char(s[0]) + spec_glob_body(s.skip(1))
    }
}

/// The full anchored regex source of a glob pattern.
pub open spec fn spec_glob_regex(pattern: Seq<char>) -> Seq<char> {
    let m = spec_glob_body(pattern);
    let m2 = if m.len() == 0 || m[0] != '^' {
        seq!['^'] + m
    } else {
        m
    };
    if m2.len() == 0 || m2.last() != '$' {
        m2.push('$')
    } else {
        m2
    }
}

proof fn lemma_glob_body_concat(a: Seq<char>, b: Seq<char>)
    ensures
        spec_glob_body(a + b) == spec_glob_body(a) + spec_glob_body(b),
    decreases a.len(),
{
    if a.len() == 0 {
        assert(a + b =~= b);
        assert(spec_glob_body(a) =~= Seq::<char>::empty());
    } else {
        lemma_glob_body_concat(a.skip(1), b);
        assert((a + b).skip(1) =~= a.skip(1) + b);
        assert((a + b)[0] == a[0]);
        assert(spec_glob_body(a + b) =~= spec_glob_char(a[0]) + (spec_glob_body(a.skip(1))
            + spec_glob_body(b)));
        assert(spec_glob_char(a[0]) + (spec_glob_body(a.skip(1)) + spec_glob_body(b)) =~= (
        spec_glob_char(a[0]) + spec_glob_body(a.skip(1))) + spec_glob_body(b));
    }
}

proof fn lemma_glob_body_step(s: Seq<char>, i: int)
    requires
        0 < i <= s.len(),
    ensures
        spec_glob_body(s.take(i)) == spec_glob_body(s.take(i - 1)) + spec_glob_char(s[i - 1]),
{
    let single = seq![s[i - 1]];
    lemma_glob_body_concat(s.take(i - 1), single);
    assert(s.take(i) =~= s.take(i - 1) + single);
    assert(single.skip(1) =~= Seq::<char>::empty());
    assert(spec_glob_body(single.skip(1)) =~= Seq::<char>::empty());
    assert(spec_glob_body(single) == spec_glob_char(single[0]) + spec_glob_body(single.skip(1)));
    assert(spec_glob_char(single[0]) + Seq::<char>::empty() =~= spec_glob_char(s[i - 1]));
}

/// Converts one glob pattern to its anchored regex source.
pub fn pattern_to_regex(pattern: &str) -> (r: String)
    ensures
        r@ == spec_glob_regex(pattern@),
{
    let len = pattern.unicode_len();
    let mut body = String::new();
    let mut i: usize = 0;
    while i < len
        invariant
            len == pattern@.len(),
            0 <= i <= len,
            body@ == spec_glob_body(pattern@.take(i as int)),
        decreases len - i,
    {
        let c = pattern.get_char(i);
        if c == '*' {
            body.append(".*");
        } else if c == '?' {
            body.append(".");
        } else if c == '\\' || c == '^' || c == '$' || c == '.' || c == '+' || c == '(' || c == ')'
            || c == '[' || c == ']' || c == '{' || c == '}' || c == '|' {
            body.append("\\");
            let piece = pattern.substring_char(i, i + 1);
            proof {
                assert(piece@ =~= seq![pattern@[i as int]]);
                reveal_strlit("\\");
            }
            body.append(piece);
            proof {
                assert("\\"@ =~= seq!['\\']);
            }
        } else {
            let piece = pattern.substring_char(i, i + 1);
            proof {
                assert(piece@ =~= seq![pattern@[i as int]]);
            }
            body.append(piece);
        }
        i = i + 1;
        proof {
            lemma_glob_body_step(pattern@, i as int);
            assert(body@ =~= spec_glob_body(pattern@.take(i as int)));
        }
    }
    proof {
        assert(pattern@.take(len as int) =~= pattern@);
    }
    let blen = body.as_str().unicode_len();
    let mut out: String = if blen == 0 || body.as_str().get_char(0) != '^' {
        proof {
            reveal_strlit("^");
        }
        let mut o = String::from_str("^");
        o.append(body.as_str());
        proof {
            assert(o@ =~= seq!['^'] + body@);
        }
        o
    } else {
        body
    };
    let olen = out.as_str().unicode_len();
    if olen == 0 || out.as_str().get_char(olen - 1) != '$' {
        proof {
            reveal_strlit("$");
        }
        out.append("$");
        proof {
            assert("$"@ =~= seq!['$']);
        }
    }
    proof {
        let m = spec_glob_body(pattern@);
        let m2 = if m.len() == 0 || m[0] != '^' {
            seq!['^'] + m
        } else {
            m
        };
        if m2.len() == 0 || m2.last() != '$' {
            assert(out@ =~= m2.push('$'));
        } else {
            assert(out@ =~= m2);
        }
    }
    out
}

/// The first index at or before which, scanning down, a non-whitespace
/// character ends the text.
pub open spec fn spec_rskip_ws(s: Seq<char>, i: int) -> int
    recommends
        0 <= i <= s.len(),
    decreases i when 0 <= i <= s.len()
{
    if i <= 0 || !spec_is_ws(s[i - 1]) {
        i
    } else {
        spec_rskip_ws(s, i - 1)
    }
}

/// The text with leading and trailing whitespace removed.
pub open spec fn spec_trim(s: Seq<char>) -> Seq<char> {
    let a = spec_skip_ws(s, 0);
    let b = spec_rskip_ws(s, s.len() as int);
    if a >= b {
        Seq::<char>::empty()
    } else {
        s.subrange(a, b)
    }
}

/// Trims ASCII whitespace from both ends.
pub fn trim_ws(s: &str) -> (r: String)
    ensures
        r@ == spec_trim(s@),
{
    let len = s.unicode_len();
    let mut a: usize = 0;
    while a < len && is_ws_char(s.get_char(a))
        invariant
            len == s@.len(),
            0 <= a <= len,
            spec_skip_ws(s@, 0) == spec_skip_ws(s@, a as int),
        decreases len - a,
    {
        a = a + 1;
    }
    let mut b: usize = len;
    while b > 0 && is_ws_char(s.get_char(b - 1))
        invariant
            len == s@.len(),
            0 <= b <= len,
            spec_rskip_ws(s@, len as int) == spec_rskip_ws(s@, b as int),
        decreases b,
    {
        b = b - 1;
    }
    if a >= b {
        String::new()
    } else {
        s.substring_char(a, b).to_owned()
    }
}

fn is_ws_char(c: char) -> (r: bool)
    ensures
        r == spec_is_ws(c),
{
    c == ' ' || c == '\t' || c == '\n' || c == '\r' || c == '\u{b}' || c == '\u{c}'
}

/// Splits on newlines; always at least one (possibly empty) line.
pub open spec fn spec_split_nl(s: Seq<char>) -> Seq<Seq<char>>
    decreases s.len(),
{
    if s.len() == 0 {
        seq![Seq::<char>::empty()]
    } else if s.last() == '\n' {
        spec_split_nl(s.drop_last()).push(Seq::<char>::empty())
    } else {
        let prev = spec_split_nl(s.drop_last());
        prev.update(prev.len() - 1, prev.last().push(s.last()))
    }
}

proof fn lemma_split_nl_len(s: Seq<char>)
    ensures
        spec_split_nl(s).len() >= 1,
    decreases s.len(),
{
    if s.len() > 0 {
        lemma_split_nl_len(s.drop_last());
    }
}

/// The regex sources of the non-blank lines, in order.
pub open spec fn spec_patterns_of(lines: Seq<Seq<char>>) -> Seq<Seq<char>>
    decreases lines.len(),
{
    if lines.len() == 0 {
        Seq::<Seq<char>>::empty()
    } else {
        let prev = spec_patterns_of(lines.drop_last());
        let t = spec_trim(lines.last());
        if t.len() == 0 {
            prev
        } else {
            prev.push(spec_glob_regex(t))
        }
    }
}

pub open spec fn spec_ignore_patterns(content: Seq<char>) -> Seq<Seq<char>> {
    spec_patterns_of(spec_split_nl(content))
}

/// Reads an ignore file's text into compiled-checked regex sources, one per
/// non-blank line.  `None` when some line does not compile: the caller then
/// lists the directory unfiltered.
pub fn read_ignore_patterns(content: &str) -> (r: Option<Vec<String>>)
    ensures
        r matches Some(v) ==> {
            &&& v@.len() == spec_ignore_patterns(content@).len()
            &&& forall|i: int|
                0 <= i < v@.len() ==> (#[trigger] v@[i])@ == spec_ignore_patterns(content@)[i]
                    && spec_regex_compiles(v@[i]@)
        },
        r is None ==> exists|i: int|
            0 <= i < spec_ignore_patterns(content@).len() && !spec_regex_compiles(
                #[trigger] spec_ignore_patterns(content@)[i],
            ),
{
    let len = content.unicode_len();
    let mut out: Vec<String> = Vec::new();
    let mut line_start: usize = 0;
    let mut i: usize = 0;
    while i < len
        invariant
            len == content@.len(),
            0 <= line_start <= i <= len,
            ({
                let segs = spec_split_nl(content@.take(i as int));
                &&& segs.len() >= 1
                &&& segs.last() == content@.subrange(line_start as int, i as int)
                &&& spec_patterns_of(segs.drop_last()) == out@.map_values(|s: String| s@)
                &&& forall|j: int|
                    0 <= j < out@.len() ==> spec_regex_compiles((#[trigger] out@[j])@)
            }),
        decreases len - i,
    {
        if content.get_char(i) == '\n' {
            let ghost segs = spec_split_nl(content@.take(i as int));
            let line = content.substring_char(line_start, i);
            let trimmed = trim_ws(line);
            if trimmed.as_str().unicode_len() > 0 {
                let pat = pattern_to_regex(trimmed.as_str());
                if !regex_compiles(pat.as_str()) {
                    proof {
                        assert(line@ =~= segs.last());
                        lemma_patterns_prefix_bad(content@, i as int, segs, out@.len() as int);
                    }
                    return None;
                }
                out.push(pat);
            }
            proof {
                let t = spec_trim(segs.last());
                assert(line@ =~= segs.last());
                if t.len() == 0 {
                    assert(spec_patterns_of(segs) == spec_patterns_of(segs.drop_last())) by {
                        assert(segs.drop_last().push(segs.last()) =~= segs);
                    }
                } else {
                    assert(spec_patterns_of(segs) == spec_patterns_of(segs.drop_last()).push(
                        spec_glob_regex(t),
                    )) by {
                        assert(segs.drop_last().push(segs.last()) =~= segs);
                    }
                }
                assert(spec_patterns_of(segs) =~= out@.map_values(|s: String| s@));
                let segs2 = spec_split_nl(content@.take(i + 1));
                assert(content@.take(i + 1).drop_last() =~= content@.take(i as int));
                assert(content@.take(i + 1).last() == '\n');
                assert(segs2 == segs.push(Seq::<char>::empty()));
                assert(segs2.drop_last() =~= segs);
                assert(segs2.last() =~= content@.subrange(i + 1, i + 1));
            }
            line_start = i + 1;
            i = i + 1;
        } else {
            proof {
                let segs = spec_split_nl(content@.take(i as int));
                let segs2 = spec_split_nl(content@.take(i + 1));
                assert(content@.take(i + 1).drop_last() =~= content@.take(i as int));
                assert(content@.take(i + 1).last() == content@[i as int]);
                assert(segs2 == segs.update(segs.len() - 1, segs.last().push(content@[i as int])));
                assert(segs2.drop_last() =~= segs.drop_last());
                assert(segs2.last() =~= content@.subrange(line_start as int, i + 1));
            }
            i = i + 1;
        }
    }
    let ghost segs = spec_split_nl(content@);
    proof {
        assert(content@.take(len as int) =~= content@);
    }
    let line = content.substring_char(line_start, len);
    let trimmed = trim_ws(line);
    if trimmed.as_str().unicode_len() > 0 {
        let pat = pattern_to_regex(trimmed.as_str());
        if !regex_compiles(pat.as_str()) {
            proof {
                assert(line@ =~= segs.last());
                lemma_patterns_prefix_bad(content@, len as int, segs, out@.len() as int);
            }
            return None;
        }
        out.push(pat);
    }
    proof {
        let t = spec_trim(segs.last());
        assert(line@ =~= segs.last());
        if t.len() == 0 {
            assert(spec_patterns_of(segs) == spec_patterns_of(segs.drop_last())) by {
                assert(segs.drop_last().push(segs.last()) =~= segs);
            }
        } else {
            assert(spec_patterns_of(segs) == spec_patterns_of(segs.drop_last()).push(
                spec_glob_regex(t),
            )) by {
                assert(segs.drop_last().push(segs.last()) =~= segs);
            }
        }
        assert(spec_ignore_patterns(content@) =~= out@.map_values(|s: String| s@));
    }
    Some(out)
}

/// The failing pattern the scan stopped on sits in the whole file's
/// pattern list too.
proof fn lemma_patterns_prefix_bad(content: Seq<char>, i: int, segs: Seq<Seq<char>>, k: int)
    requires
        0 <= i <= content.len(),
        i == content.len() || content[i] == '\n',
        segs == spec_split_nl(content.take(i)),
        segs.len() >= 1,
        spec_trim(segs.last()).len() > 0,
        spec_patterns_of(segs.drop_last()).len() == k,
        !spec_regex_compiles(spec_glob_regex(spec_trim(segs.last()))),
    ensures
        exists|j: int|
            0 <= j < spec_ignore_patterns(content).len() && !spec_regex_compiles(
                #[trigger] spec_ignore_patterns(content)[j],
            ),
{
    let whole = spec_split_nl(content);
    lemma_split_nl_prefix(content, i);
    let rest = whole.skip(segs.len() as int);
    assert(whole =~= segs + rest);
    lemma_patterns_of_concat(segs, rest);
    assert(spec_patterns_of(segs) == spec_patterns_of(segs.drop_last()).push(
        spec_glob_regex(spec_trim(segs.last())),
    )) by {
        assert(segs.drop_last().push(segs.last()) =~= segs);
    }
    assert(spec_ignore_patterns(content)[k] == spec_glob_regex(spec_trim(segs.last())));
}

/// Splitting the whole file extends the split of a prefix that ends at a
/// newline or at the end.
proof fn lemma_split_nl_prefix(content: Seq<char>, i: int)
    requires
        0 <= i <= content.len(),
        i == content.len() || content[i] == '\n',
    ensures
        ({
            let segs = spec_split_nl(content.take(i));
            spec_split_nl(content).len() >= segs.len() && spec_split_nl(content).take(
                segs.len() as int,
            ) == segs
        }),
    decreases content.len() - i,
{
    let segs = spec_split_nl(content.take(i));
    if i == content.len() {
        assert(content.take(i) =~= content);
        assert(spec_split_nl(content).take(segs.len() as int) =~= segs);
    } else {
        lemma_split_nl_concat_at(content, i + 1);
        lemma_split_nl_len(content.skip(i + 1));
        let pre2 = spec_split_nl(content.take(i + 1));
        assert(content.take(i + 1).drop_last() =~= content.take(i));
        assert(content.take(i + 1).last() == '\n');
        assert(pre2 == segs.push(Seq::<char>::empty()));
        assert(spec_split_nl(content) == pre2.drop_last() + spec_split_nl(content.skip(i + 1)));
        assert(pre2.drop_last() =~= segs);
        assert(spec_split_nl(content).take(segs.len() as int) =~= segs);
    }
}

/// Newline splitting distributes over a cut placed right after a newline.
proof fn lemma_split_nl_concat_at(d: Seq<char>, k: int)
    requires
        0 <= k <= d.len(),
        k == 0 || d[k - 1] == '\n',
    ensures
        spec_split_nl(d) == spec_split_nl(d.take(k)).drop_last() + spec_split_nl(d.skip(k)),
    decreases d.len(),
{
    lemma_split_nl_len(d.take(k));
    lemma_split_nl_len(d.skip(k));
    if k == 0 {
        assert(d.take(0) =~= Seq::<char>::empty());
        assert(spec_split_nl(d.take(0)).drop_last() =~= Seq::<Seq<char>>::empty());
        assert(d.skip(0) =~= d);
        assert(spec_split_nl(d.take(k)).drop_last() + spec_split_nl(d.skip(k)) =~= spec_split_nl(
            d,
        ));
    } else if k == d.len() {
        assert(d.take(k) =~= d);
        assert(d.skip(k) =~= Seq::<char>::empty());
        assert(d.last() == '\n');
        assert(spec_split_nl(d) == spec_split_nl(d.drop_last()).push(Seq::<char>::empty()));
        assert(spec_split_nl(d).drop_last() =~= spec_split_nl(d.drop_last()));
        assert(spec_split_nl(d.drop_last()) + seq![Seq::<char>::empty()] =~= spec_split_nl(d));
    } else {
        lemma_split_nl_concat_at(d.drop_last(), k);
        lemma_split_nl_len(d.drop_last().skip(k));
        assert(d.drop_last().take(k) =~= d.take(k));
        assert(d.drop_last().skip(k) =~= d.skip(k).drop_last());
        let a = spec_split_nl(d.take(k)).drop_last();
        let b = spec_split_nl(d.skip(k).drop_last());
        assert(spec_split_nl(d.drop_last()) == a + b);
        assert(d.skip(k).len() > 0);
        assert(d.skip(k).last() == d.last());
        if d.last() == '\n' {
            assert(spec_split_nl(d) == (a + b).push(Seq::<char>::empty()));
            assert(spec_split_nl(d.skip(k)) == b.push(Seq::<char>::empty()));
            assert((a + b).push(Seq::<char>::empty()) =~= a + b.push(Seq::<char>::empty()));
        } else {
            let prev = a + b;
            assert(spec_split_nl(d) == prev.update(prev.len() - 1, prev.last().push(d.last())));
            assert(spec_split_nl(d.skip(k)) == b.update(b.len() - 1, b.last().push(d.last())));
            assert(prev.last() == b.last());
            assert(prev.update(prev.len() - 1, prev.last().push(d.last())) =~= a + b.update(
                b.len() - 1,
                b.last().push(d.last()),
            ));
        }
    }
}

/// Patterns of concatenated line lists are the concatenated patterns.
proof fn lemma_patterns_of_concat(a: Seq<Seq<char>>, b: Seq<Seq<char>>)
    ensures
        spec_patterns_of(a + b) == spec_patterns_of(a) + spec_patterns_of(b),
    decreases b.len(),
{
    if b.len() == 0 {
        assert(a + b =~= a);
        assert(spec_patterns_of(b) =~= Seq::<Seq<char>>::empty());
        assert(spec_patterns_of(a) + spec_patterns_of(b) =~= spec_patterns_of(a));
    } else {
        lemma_patterns_of_concat(a, b.drop_last());
        assert((a + b).drop_last() =~= a + b.drop_last());
        assert((a + b).last() == b.last());
        let t = spec_trim(b.last());
        if t.len() == 0 {
        } else {
            assert((spec_patterns_of(a) + spec_patterns_of(b.drop_last())).push(
                spec_glob_regex(t),
            ) =~= spec_patterns_of(a) + spec_patterns_of(b.drop_last()).push(spec_glob_regex(t)));
        }
    }
}

/// Whether any pattern matches this relative path.
pub open spec fn spec_path_ignored(rel: Seq<char>, patterns: Seq<String>) -> bool {
    exists|i: int|
        0 <= i < patterns.len() && spec_regex_match((#[trigger] patterns[i])@, rel)
}

/// Tests a relative path against every pattern.
pub fn is_path_ignored(rel_path: &str, patterns: &Vec<String>) -> (r: bool)
    requires
        forall|i: int|
            0 <= i < patterns@.len() ==> spec_regex_compiles((#[trigger] patterns@[i])@),
    ensures
        r == spec_path_ignored(rel_path@, patterns@),
{
    let n = patterns.len();
    let mut i: usize = 0;
    while i < n
        invariant
            n == patterns@.len(),
            0 <= i <= n,
            forall|j: int|
                0 <= j < patterns@.len() ==> spec_regex_compiles((#[trigger] patterns@[j])@),
            forall|j: int|
                0 <= j < i ==> !spec_regex_match((#[trigger] patterns@[j])@, rel_path@),
        decreases n - i,
    {
        if regex_is_match(patterns[i].as_str(), rel_path) {
            return true;
        }
        i = i + 1;
    }
    false
}

/// The relative path an entry is tested under: the listing directory's
/// path relative to the public root, then the entry's name.
pub open spec fn spec_entry_rel_path(rel_dir: Seq<char>, name: Seq<char>) -> Seq<char> {
    if rel_dir.len() == 0 {
        name
    } else {
        rel_dir + "/"@ + name
    }
}

/// Whether an entry survives the ignore patterns.
pub open spec fn spec_keep_entry(rel_dir: Seq<char>, patterns: Seq<String>) -> spec_fn(
    DirectoryEntry,
) -> bool {
    |e: DirectoryEntry| !spec_path_ignored(spec_entry_rel_path(rel_dir, e.name@), patterns)
}

/// An explicit copy of one entry, field for field.
fn clone_entry(e: &DirectoryEntry) -> (r: DirectoryEntry)
    ensures
        r == *e,
{
    DirectoryEntry {
        name: e.name.clone(),
        size: e.size,
        modified: e.modified,
        is_dir: e.is_dir,
    }
}

/// Keeps the entries no pattern matches.  `rel_dir` is the listed
/// directory's path relative to the public root, empty at the root.
pub fn filter_with_ignore_patterns(
    entries: Vec<DirectoryEntry>,
    rel_dir: &str,
    patterns: &Vec<String>,
) -> (r: Vec<DirectoryEntry>)
    requires
        forall|i: int|
            0 <= i < patterns@.len() ==> spec_regex_compiles((#[trigger] patterns@[i])@),
    ensures
        r@ == entries@.filter(spec_keep_entry(rel_dir@, patterns@)),
{
    let n = entries.len();
    let mut out: Vec<DirectoryEntry> = Vec::new();
    let mut i: usize = 0;
    proof {
        reveal(Seq::filter);
        assert(entries@.take(0) =~= Seq::<DirectoryEntry>::empty());
        assert(out@ =~= entries@.take(0).filter(spec_keep_entry(rel_dir@, patterns@)));
    }
    while i < n
        invariant
            n == entries@.len(),
            0 <= i <= n,
            forall|j: int|
                0 <= j < patterns@.len() ==> spec_regex_compiles((#[trigger] patterns@[j])@),
            out@ == entries@.take(i as int).filter(spec_keep_entry(rel_dir@, patterns@)),
        decreases n - i,
    {
        let e = &entries[i];
        let rel = if rel_dir.unicode_len() == 0 {
            e.name.clone()
        } else {
            rel_dir.to_owned().concat("/").concat(e.name.as_str())
        };
        proof {
            assert(rel@ == spec_entry_rel_path(rel_dir@, e.name@));
        }
        let ignored = is_path_ignored(rel.as_str(), patterns);
        if !ignored {
            let copy = clone_entry(&entries[i]);
            out.push(copy);
        }
        proof {
            reveal(Seq::filter);
            let f = spec_keep_entry(rel_dir@, patterns@);
            let t = entries@.take(i + 1);
            assert(t.drop_last() =~= entries@.take(i as int));
            assert(t.last() == entries@[i as int]);
            assert(f(t.last()) == !spec_path_ignored(
                spec_entry_rel_path(rel_dir@, entries@[i as int].name@),
                patterns@,
            ));
            assert(t.drop_last().filter(f) == entries@.take(i as int).filter(f));
            assert(t.filter(f) == if f(t.last()) {
                t.drop_last().filter(f).push(t.last())
            } else {
                t.drop_last().filter(f)
            });
            assert(out@ =~= t.filter(f));
        }
        i = i + 1;
    }
    proof {
        assert(entries@.take(n as int) =~= entries@);
    }
    out
}

/// Whether any of these pattern sources matches the relative path.
pub open spec fn spec_path_ignored_srcs(rel: Seq<char>, srcs: Seq<Seq<char>>) -> bool {
    exists|i: int| 0 <= i < srcs.len() && spec_regex_match(#[trigger] srcs[i], rel)
}

/// Whether an entry survives these pattern sources.
pub open spec fn spec_keep_entry_srcs(rel_dir: Seq<char>, srcs: Seq<Seq<char>>) -> spec_fn(
    DirectoryEntry,
) -> bool {
    |e: DirectoryEntry| !spec_path_ignored_srcs(spec_entry_rel_path(rel_dir, e.name@), srcs)
}

/// Filtering by pointwise-equal predicates gives the same result.
proof fn lemma_filter_congruent(
    s: Seq<DirectoryEntry>,
    f: spec_fn(DirectoryEntry) -> bool,
    g: spec_fn(DirectoryEntry) -> bool,
)
    requires
        forall|e: DirectoryEntry| #[trigger] f(e) == g(e),
    ensures
        s.filter(f) == s.filter(g),
    decreases s.len(),
{
    reveal(Seq::filter);
    if s.len() > 0 {
        lemma_filter_congruent(s.drop_last(), f, g);
    }
}

/// Applies an ignore file's text to a listing.  A well-formed file drops
/// every entry some pattern matches; a malformed one — some line's pattern
/// does not compile — filters nothing, and the listing is returned whole.
pub fn apply_ignore_file(
    entries: Vec<DirectoryEntry>,
    rel_dir: &str,
    content: &str,
) -> (r: Vec<DirectoryEntry>)
    ensures
        (forall|i: int|
            0 <= i < spec_ignore_patterns(content@).len() ==> spec_regex_compiles(
                #[trigger] spec_ignore_patterns(content@)[i],
            )) ==> r@ == entries@.filter(
            spec_keep_entry_srcs(rel_dir@, spec_ignore_patterns(content@)),
        ),
        (exists|i: int|
            0 <= i < spec_ignore_patterns(content@).len() && !spec_regex_compiles(
                #[trigger] spec_ignore_patterns(content@)[i],
            )) ==> r@ == entries@,
{
    match read_ignore_patterns(content) {
        Some(patterns) => {
            let ghost srcs = spec_ignore_patterns(content@);
            let filtered = filter_with_ignore_patterns(entries, rel_dir, &patterns);
            proof {
                assert forall|e: DirectoryEntry| #[trigger] spec_keep_entry(
                    rel_dir@,
                    patterns@,
                )(e) == spec_keep_entry_srcs(rel_dir@, srcs)(e) by {
                    let rel = spec_entry_rel_path(rel_dir@, e.name@);
                    assert(spec_path_ignored(rel, patterns@) == spec_path_ignored_srcs(
                        rel,
                        srcs,
                    )) by {
                        if spec_path_ignored(rel, patterns@) {
                            let i = choose|i: int|
                                0 <= i < patterns@.len() && spec_regex_match(
                                    (#[trigger] patterns@[i])@,
                                    rel,
                                );
                            assert(patterns@[i]@ == srcs[i]);
                            assert(spec_regex_match(srcs[i], rel));
                        }
                        if spec_path_ignored_srcs(rel, srcs) {
                            let i = choose|i: int|
                                0 <= i < srcs.len() && spec_regex_match(#[trigger] srcs[i], rel);
                            assert(patterns@[i]@ == srcs[i]);
                            assert(spec_regex_match(patterns@[i]@, rel));
                        }
                    }
                }
                lemma_filter_congruent(
                    entries@,
                    spec_keep_entry(rel_dir@, patterns@),
                    spec_keep_entry_srcs(rel_dir@, srcs),
                );
                assert forall|i: int| 0 <= i < srcs.len() implies spec_regex_compiles(
                    #[trigger] srcs[i],
                ) by {
                    assert(patterns@[i]@ == srcs[i]);
                    assert(spec_regex_compiles(patterns@[i]@));
                }
            }
            filtered
        },
        None => entries,
    }
}

} // verus!
