//! The index rebuilder: from the sorted record names and a timestamp it
//! fills the index template — one Markdown link line per record, in the
//! order the scanner gave them.

use vstd::prelude::*;
use vstd::string::StrSliceExecFns;
use vstd::string::StringExecFns;
use crate::text::join_with;
use crate::text::lemma_join_with_snoc;
use crate::scan::list_adr_files;
use crate::scan::scan_of;
use crate::scan::views_of;

verus! {

/// The link line for one record file: text and target are both the bare
/// file name, a relative link within the directory.
pub open spec fn link_line(name: Seq<char>) -> Seq<char> {
    " - ["@ + name + "]("@ + name + ")"@
}

/// The link list: one line per record, joined by newlines, in the given
/// order; empty when there are no records.
pub open spec fn links_of(files: Seq<Seq<char>>) -> Seq<char> {
    join_with(files.map_values(|f: Seq<char>| link_line(f)), "\n"@)
}

/// The index template up to its `{{timestamp}}` placeholder.
pub open spec fn index_head() -> Seq<char> {
    "# Architecture Decision Records\n\nRegenerated: "@
}

/// The index template after the timestamp, with its `{{contents}}`
/// placeholder replaced by the link list for the given records.
pub open spec fn index_tail_of(files: Seq<Seq<char>>) -> Seq<char> {
    "\n\n"@ + links_of(files) + "\n"@
}

/// The full index document for the given records and timestamp.
pub open spec fn index_content_of(files: Seq<Seq<char>>, timestamp: Seq<char>) -> Seq<char> {
    index_head() + timestamp + index_tail_of(files)
}

/// The link line for one record file.
fn render_link_line(name: &String) -> (r: String)
    ensures
        r@ == link_line(name@),
{
    let mut line = String::from_str(" - [");
    line.append(name.as_str());
    line.append("](");
    line.append(name.as_str());
    line.append(")");
    proof {
        assert(line@ =~= link_line(name@));
    }
    line
}

/// Fills the index template for the given record files and timestamp.
pub fn render_index(files: &Vec<String>, timestamp: &str) -> (r: String)
    ensures
        r@ == index_content_of(views_of(files@), timestamp@),
{
    let mut out = String::from_str("# Architecture Decision Records\n\nRegenerated: ");
    out.append(timestamp);
    out.append("\n\n");
    let ghost prefix = index_head() + timestamp@ + "\n\n"@;
    proof {
        assert(out@ =~= prefix + links_of(views_of(files@.take(0))));
    }
    let mut i: usize = 0;
    while i < files.len()
        invariant
            i <= files@.len(),
            out@ =~= prefix + links_of(views_of(files@.take(i as int))),
        decreases files@.len() - i,
    {
        if i > 0 {
            out.append("\n");
        }
        let line = render_link_line(&files[i]);
        out.append(line.as_str());
        i = i + 1;
        proof {
            let to_line = |f: Seq<char>| link_line(f);
            let prev = views_of(files@.take(i - 1)).map_values(to_line);
            assert(views_of(files@.take(i as int)).map_values(to_line) =~= prev.push(
                link_line(files@[i - 1]@),
            ));
            lemma_join_with_snoc(prev, "\n"@, link_line(files@[i - 1]@));
            assert(out@ =~= prefix + links_of(views_of(files@.take(i as int))));
        }
    }
    proof {
        assert(files@.take(files@.len() as int) =~= files@);
    }
    out.append("\n");
    proof {
        assert(out@ =~= index_content_of(views_of(files@), timestamp@));
    }
    out
}

/// The shape of a rendered timestamp: 29 characters, every one printable
/// ASCII — in particular no newline, so the timestamp stays on its one
/// line of the index.
pub open spec fn timestamp_text(ts: Seq<char>) -> bool {
    &&& ts.len() == 29
    &&& forall|i: int| 0 <= i < ts.len() ==> 32 <= #[trigger] (ts[i] as u32) < 127
}

/// Relies on `httpdate::fmt_http_date`: the current wall-clock time as an
/// IMF-fixdate, which that crate renders into a fixed buffer of 29
/// printable ASCII characters. Nothing is returned when that crate would
/// refuse the clock instead — it panics on a reading before the Unix
/// epoch (a misconfigured clock) and from the year 9999 on, which the
/// guards here rule out. Two calls may of course read different times.
#[verifier::external_body]
fn current_http_date() -> (r: Option<String>)
    ensures
        r matches Some(s) ==> timestamp_text(s@),
{
    let now = std::time::SystemTime::now();
    match now.duration_since(std::time::UNIX_EPOCH) {
        Ok(d) if d.as_secs() < 253402300800 => Some(httpdate::fmt_http_date(now)),
        _ => None,
    }
}

/// Fills the index template for the given record files, timestamped with
/// the wall clock: whatever the clock read, any document returned is the
/// index for exactly these files and some rendered timestamp. Nothing is
/// returned only when the clock cannot be rendered at all.
pub fn rebuild_index(files: &Vec<String>) -> (r: Option<String>)
    ensures
        r matches Some(s) ==> exists|ts: Seq<char>|
            timestamp_text(ts) && s@ == #[trigger] index_content_of(views_of(files@), ts),
{
    match current_http_date() {
        Some(date) => {
            let s = render_index(files, date.as_str());
            proof {
                assert(timestamp_text(date@) && s@ == index_content_of(views_of(files@), date@));
            }
            Some(s)
        },
        None => None,
    }
}

/// The whole computation behind regenerating the index: scan the raw
/// directory listing for record files, then fill the index template with
/// them and the current wall-clock timestamp. Nothing is returned only
/// when the clock cannot be rendered.
pub fn rebuild_readme(entries: &Vec<String>) -> (r: Option<String>)
    ensures
        r matches Some(s) ==> exists|files: Seq<Seq<char>>, ts: Seq<char>|
            scan_of(views_of(entries@), files) && timestamp_text(ts) && s@
                == #[trigger] index_content_of(files, ts),
{
    let files = list_adr_files(entries);
    let r = rebuild_index(&files);
    proof {
        if r is Some {
            let s = r->Some_0;
            let ts = choose|ts: Seq<char>|
                timestamp_text(ts) && s@ == #[trigger] index_content_of(views_of(files@), ts);
            assert(scan_of(views_of(entries@), views_of(files@)) && timestamp_text(ts) && s@
                == index_content_of(views_of(files@), ts));
        }
    }
    r
}

/// Regenerating the index twice over an unchanged directory changes
/// nothing but the timestamp: any two scans of the same listing yield the
/// same record files, the two documents agree on every character before
/// and after their timestamp segments, and a rendered timestamp holds no
/// newline, so the difference stays within the one timestamp line.
pub proof fn lemma_regen_idempotent(
    entries: Seq<Seq<char>>,
    files1: Seq<Seq<char>>,
    files2: Seq<Seq<char>>,
    ts1: Seq<char>,
    ts2: Seq<char>,
)
    requires
        scan_of(entries, files1),
        scan_of(entries, files2),
    ensures
        files1 == files2,
        index_content_of(files1, ts1) == index_head() + ts1 + index_tail_of(files1),
        index_content_of(files2, ts2) == index_head() + ts2 + index_tail_of(files1),
        timestamp_text(ts1) ==> forall|i: int| 0 <= i < ts1.len() ==> ts1[i] != '\n',
        timestamp_text(ts2) ==> forall|i: int| 0 <= i < ts2.len() ==> ts2[i] != '\n',
{
    crate::scan::lemma_lex_sorted_unique(files1, files2);
    if timestamp_text(ts1) {
        assert forall|i: int| 0 <= i < ts1.len() implies ts1[i] != '\n' by {
            if ts1[i] == '\n' {
                assert(ts1[i] as u32 == 10);
            }
        }
    }
    if timestamp_text(ts2) {
        assert forall|i: int| 0 <= i < ts2.len() implies ts2[i] != '\n' by {
            if ts2[i] == '\n' {
                assert(ts2[i] as u32 == 10);
            }
        }
    }
}

} // verus!
