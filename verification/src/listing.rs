//! The directory listing page: one row per entry, relative hrefs that
//! resolve back to the entry, and HTML-escaped display names.

use vstd::prelude::*;
use vstd::string::StringExecFns;

use crate::files::{
    format_file_size, format_timestamp, spec_escape_html, spec_format_file_size, DirectoryEntry,
    escape_html,
};
use crate::percent::{encode_path_segments, spec_encode_path};

verus! {

/// The `href` of an entry: its encoded name, with a trailing `/` for a
/// directory.  Relative on purpose: the browser resolves it against the
/// listing's own URL, which ends in `/`.
pub open spec fn spec_entry_href(e: DirectoryEntry) -> Seq<char> {
    if e.is_dir {
        spec_encode_path(e.name@) + "/"@
    } else {
        spec_encode_path(e.name@)
    }
}

/// The text shown for an entry: its escaped name, `/`-terminated for a
/// directory.
pub open spec fn spec_entry_display(e: DirectoryEntry) -> Seq<char> {
    if e.is_dir {
        spec_escape_html(e.name@) + "/"@
    } else {
        spec_escape_html(e.name@)
    }
}

/// The size column: empty for a directory.
pub open spec fn spec_entry_size_cell(e: DirectoryEntry) -> Seq<char> {
    if e.is_dir {
        Seq::<char>::empty()
    } else {
        spec_format_file_size(e.size)
    }
}

/// One table row, given the rendered modification time.
pub open spec fn spec_listing_row(e: DirectoryEntry, mtime: Seq<char>) -> Seq<char> {
    "<tr><td><a href=\""@ + spec_entry_href(e) + "\">"@ + spec_entry_display(e) + "</a></td><td>"@
        + spec_entry_size_cell(e) + "</td><td>"@ + mtime + "</td></tr>"@
}

/// All rows, one per entry, each with its rendered modification time.
pub open spec fn spec_listing_rows(es: Seq<DirectoryEntry>, ts: Seq<Seq<char>>) -> Seq<char>
    decreases es.len(),
{
    if es.len() == 0 {
        Seq::<char>::empty()
    } else {
        spec_listing_rows(es.drop_last(), ts.drop_last()) + spec_listing_row(
            es.last(),
            ts[es.len() - 1],
        )
    }
}

/// Everything before the rows: document head, title and heading carrying
/// the escaped request path, and the table header.
pub open spec fn spec_listing_header(request_path: Seq<char>) -> Seq<char> {
    "<!DOCTYPE html><html><head><meta name=\"viewport\" content=\"width=device-width, initial-scale=1\"><meta name=\"generator\" content=\"soop3\"><link rel=\"icon\" href=\"/__soop_static/favicon.ico\"><link rel=\"stylesheet\" href=\"/__soop_static/style.css\"><title>soop3 | "@
        + spec_escape_html(request_path)
        + "</title></head><body><h1>"@
        + spec_escape_html(request_path)
        + "</h1><table><tr><th>name</th><th>size</th><th>modified</th></tr>"@
}

/// The parent link row, on every path but the root.
pub open spec fn spec_parent_link(request_path: Seq<char>) -> Seq<char> {
    if request_path == "/"@ {
        Seq::<char>::empty()
    } else {
        "<tr><td><a href=\"../\">../</a></td><td></td><td></td></tr>"@
    }
}

pub open spec fn spec_listing_footer() -> Seq<char> {
    "</table><footer>soop3</footer></body></html>"@
}

/// The whole page.
pub open spec fn spec_listing_html(
    es: Seq<DirectoryEntry>,
    request_path: Seq<char>,
    ts: Seq<Seq<char>>,
) -> Seq<char> {
    spec_listing_header(request_path) + spec_parent_link(request_path) + spec_listing_rows(es, ts)
        + spec_listing_footer()
}

/// Builds one row.
pub fn listing_row(e: &DirectoryEntry, mtime_text: &str) -> (r: String)
    ensures
        r@ == spec_listing_row(*e, mtime_text@),
{
    let mut out = String::from_str("<tr><td><a href=\"");
    let href = encode_path_segments(e.name.as_str());
    out.append(href.as_str());
    if e.is_dir {
        out.append("/");
    }
    out.append("\">");
    let display = escape_html(e.name.as_str());
    out.append(display.as_str());
    if e.is_dir {
        out.append("/");
    }
    out.append("</a></td><td>");
    if !e.is_dir {
        let size_text = format_file_size(e.size);
        out.append(size_text.as_str());
    }
    out.append("</td><td>");
    out.append(mtime_text);
    out.append("</td></tr>");
    proof {
        if e.is_dir {
            assert(out@ =~= spec_listing_row(*e, mtime_text@));
        } else {
            assert(spec_entry_size_cell(*e) == spec_format_file_size(e.size));
            assert(out@ =~= spec_listing_row(*e, mtime_text@));
        }
    }
    out
}

/// The ceiling the timestamp renderer accepts, kept just under the year
/// ten thousand.
pub const MAX_RENDERED_SECS: i64 = 249_999_999_999;

/// Renders the listing page for already filtered and sorted entries.
/// The rows follow the entry order; each carries a 19-character local
/// timestamp for its (range-clamped) modification time.
pub fn build_listing_html(entries: &Vec<DirectoryEntry>, request_path: &str) -> (r: String)
    ensures
        exists|ts: Seq<Seq<char>>|
            ts.len() == entries@.len() && r@ == #[trigger] spec_listing_html(
                entries@,
                request_path@,
                ts,
            ),
{
    let mut out = String::from_str(
        "<!DOCTYPE html><html><head><meta name=\"viewport\" content=\"width=device-width, initial-scale=1\"><meta name=\"generator\" content=\"soop3\"><link rel=\"icon\" href=\"/__soop_static/favicon.ico\"><link rel=\"stylesheet\" href=\"/__soop_static/style.css\"><title>soop3 | ",
    );
    let escaped_path = escape_html(request_path);
    out.append(escaped_path.as_str());
    out.append("</title></head><body><h1>");
    out.append(escaped_path.as_str());
    out.append("</h1><table><tr><th>name</th><th>size</th><th>modified</th></tr>");
    proof {
        assert(out@ =~= spec_listing_header(request_path@));
    }
    let is_root = request_path.unicode_len() == 1 && request_path.get_char(0) == '/';
    proof {
        reveal_strlit("/");
        assert("/"@ =~= seq!['/']);
        if is_root {
            assert(request_path@ =~= "/"@);
        } else {
            assert(request_path@ != "/"@);
        }
    }
    if !is_root {
        out.append("<tr><td><a href=\"../\">../</a></td><td></td><td></td></tr>");
    }
    let ghost prefix = spec_listing_header(request_path@) + spec_parent_link(request_path@);
    proof {
        assert(out@ =~= prefix);
    }
    let ghost mut ts: Seq<Seq<char>> = Seq::empty();
    let n = entries.len();
    let mut i: usize = 0;
    while i < n
        invariant
            n == entries@.len(),
            0 <= i <= n,
            ts.len() == i,
            out@ == prefix + spec_listing_rows(entries@.take(i as int), ts),
        decreases n - i,
    {
        let e = &entries[i];
        let secs: i64 = if e.modified < 0 {
            0
        } else if e.modified > MAX_RENDERED_SECS {
            MAX_RENDERED_SECS
        } else {
            e.modified
        };
        let mtime_text = format_timestamp(secs);
        let row = listing_row(e, mtime_text.as_str());
        out.append(row.as_str());
        proof {
            let ts2 = ts.push(mtime_text@);
            let taken = entries@.take(i + 1);
            assert(taken.drop_last() =~= entries@.take(i as int));
            assert(ts2.drop_last() =~= ts);
            assert(taken.last() == entries@[i as int]);
            assert(ts2[taken.len() - 1] == mtime_text@);
            assert(spec_listing_rows(taken, ts2) == spec_listing_rows(
                entries@.take(i as int),
                ts,
            ) + spec_listing_row(entries@[i as int], mtime_text@));
            ts = ts2;
            assert(out@ =~= prefix + spec_listing_rows(taken, ts2));
        }
        i = i + 1;
    }
    out.append("</table><footer>soop3</footer></body></html>");
    proof {
        assert(entries@.take(n as int) =~= entries@);
        assert(out@ =~= spec_listing_html(entries@, request_path@, ts));
    }
    out
}

} // verus!
