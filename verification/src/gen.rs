//! The record generator: given the sequence number the new record takes
//! — the count of records already present — and the title the user typed,
//! it derives the record's file name and fills the record template.

use vstd::prelude::*;
use vstd::string::StringExecFns;
use crate::text::format_padded;
use crate::text::padded_dec;
use crate::text::slug_char;
use crate::text::slug_of;
use crate::text::slugify;
use crate::scan::reserved_name;
use crate::scan::scan_of;

verus! {

/// The heading put into the record document: the padded numeral, a
/// spaced dash, then the title exactly as given.
pub open spec fn heading_of(n: nat, title: Seq<char>) -> Seq<char> {
    padded_dec(n, 5) + " - "@ + title
}

/// The name of record `n`'s file: the padded numeral, a dash, the slug of
/// the title, and the extension.
pub open spec fn file_name_of(n: nat, title: Seq<char>) -> Seq<char> {
    padded_dec(n, 5) + "-"@ + slug_of(title) + ".md"@
}

/// The record template up to its one `{{name}}` placeholder.
pub open spec fn adr_template_head() -> Seq<char> {
    "# "@
}

/// The record template after its one `{{name}}` placeholder.
pub open spec fn adr_template_tail() -> Seq<char> {
    "\n\n## Status\n\nProposed\n\n## Context\n\n## Decision\n\n## Consequences\n"@
}

/// The full record document: the template with the placeholder replaced
/// by the heading.
pub open spec fn adr_content_of(n: nat, title: Seq<char>) -> Seq<char> {
    adr_template_head() + heading_of(n, title) + adr_template_tail()
}

/// Derives the new record from its sequence number and title: the file
/// name the record takes, and the document written into it.
pub fn create_adr(n: usize, title: &str) -> (r: (String, String))
    ensures
        r.0@ == file_name_of(n as nat, title@),
        r.1@ == adr_content_of(n as nat, title@),
{
    let num = format_padded(n);
    let slug = slugify(title);

    let mut file_name = num.clone();
    file_name.append("-");
    file_name.append(slug.as_str());
    file_name.append(".md");
    proof {
        assert(file_name@ =~= file_name_of(n as nat, title@));
    }

    let mut contents = String::from_str("# ");
    contents.append(num.as_str());
    contents.append(" - ");
    contents.append(title);
    contents.append(
        "\n\n## Status\n\nProposed\n\n## Context\n\n## Decision\n\n## Consequences\n",
    );
    proof {
        assert(contents@ =~= adr_content_of(n as nat, title@));
    }

    (file_name, contents)
}

/// What creating a record over a scanned directory names its file: with
/// the scan holding as many records as the non-reserved entries of the
/// listing, the new record is numbered by that count, and its slug keeps
/// the title's length and alters exactly the separator characters.
pub proof fn lemma_create_names_next_record(
    entries: Seq<Seq<char>>,
    files: Seq<Seq<char>>,
    title: Seq<char>,
)
    requires
        scan_of(entries, files),
    ensures
        files.len() == entries.filter(|e: Seq<char>| !reserved_name(e)).len(),
        file_name_of(files.len(), title) == padded_dec(files.len(), 5) + "-"@ + slug_of(title)
            + ".md"@,
        slug_of(title).len() == title.len(),
        forall|i: int|
            0 <= i < title.len() ==> #[trigger] slug_of(title)[i] == slug_char(title[i]),
{
    vstd::seq_lib::to_multiset_len(files);
    vstd::seq_lib::to_multiset_len(entries.filter(|e: Seq<char>| !reserved_name(e)));
}

/// Records numbered below one hundred thousand list in the order they
/// were numbered, whatever their titles: the file name of the smaller
/// sequence number comes strictly earlier in lexicographic order.
pub proof fn lemma_file_names_order_numeric(m: nat, n: nat, t1: Seq<char>, t2: Seq<char>)
    requires
        m < n < 100000,
    ensures
        crate::text::lex_le(file_name_of(m, t1), file_name_of(n, t2)),
        file_name_of(m, t1) != file_name_of(n, t2),
{
    crate::text::lemma_padded_order_is_numeric(m, n);
    crate::text::lemma_padded_len(m);
    crate::text::lemma_padded_len(n);
    let am = padded_dec(m, 5);
    let an = padded_dec(n, 5);
    let ra = "-"@ + slug_of(t1) + ".md"@;
    let rb = "-"@ + slug_of(t2) + ".md"@;
    crate::text::lemma_lex_le_append_after_diff(am, an, ra, rb);
    assert(file_name_of(m, t1) =~= am + ra);
    assert(file_name_of(n, t2) =~= an + rb);
}

} // verus!
