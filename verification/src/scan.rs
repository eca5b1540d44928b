//! The directory scanner: out of a raw directory listing it keeps the
//! record files — every entry except the reserved index and assets names —
//! and puts them in ascending lexicographic order.

use vstd::prelude::*;
use vstd::seq_lib::group_to_multiset_ensures;
use vstd::seq_lib::to_multiset_build;
use vstd::seq_lib::to_multiset_insert;
use vstd::seq_lib::to_multiset_remove;
use vstd::seq_lib::to_multiset_len;
use vstd::seq_lib::to_multiset_contains;
use crate::text::lemma_lex_le_refl;
use crate::text::lemma_lex_le_antisym;
use crate::text::lex_le;
use crate::text::lex_le_exec;
use crate::text::lemma_lex_le_total;
use crate::text::lemma_lex_le_trans;

verus! {

/// The views of a sequence of names.
pub open spec fn views_of(names: Seq<String>) -> Seq<Seq<char>> {
    names.map_values(|s: String| s@)
}

/// The two directory entries that are never ADR records: the index file
/// and the assets subdirectory, matched exactly and case-sensitively.
pub open spec fn reserved_name(n: Seq<char>) -> bool {
    n == "README.md"@ || n == "assets"@
}

/// Whether names stand in ascending lexicographic order.
pub open spec fn lex_sorted(names: Seq<Seq<char>>) -> bool {
    forall|i: int, j: int| 0 <= i < j < names.len() ==> lex_le(names[i], names[j])
}

/// What scanning a directory listing yields: exactly the non-reserved
/// entries, in ascending lexicographic order.
pub open spec fn scan_of(entries: Seq<Seq<char>>, files: Seq<Seq<char>>) -> bool {
    &&& lex_sorted(files)
    &&& files.to_multiset() == entries.filter(|n: Seq<char>| !reserved_name(n)).to_multiset()
}

/// Whether a directory entry carries one of the two reserved names.
fn is_reserved(name: &String) -> (r: bool)
    ensures
        r == reserved_name(name@),
{
    let readme = String::from_str("README.md");
    let assets = String::from_str("assets");
    *name == readme || *name == assets
}

/// The non-reserved entries of a listing, in their original order.
fn filter_entries(entries: &Vec<String>) -> (r: Vec<String>)
    ensures
        views_of(r@) == views_of(entries@).filter(|n: Seq<char>| !reserved_name(n)),
{
    let mut out: Vec<String> = Vec::new();
    let mut i: usize = 0;
    while i < entries.len()
        invariant
            i <= entries@.len(),
            views_of(out@) =~= views_of(entries@.take(i as int)).filter(
                |n: Seq<char>| !reserved_name(n),
            ),
        decreases entries@.len() - i,
    {
        let keep = !is_reserved(&entries[i]);
        if keep {
            let e = entries[i].clone();
            out.push(e);
        }
        i = i + 1;
        proof {
            let pred = |n: Seq<char>| !reserved_name(n);
            let prev = views_of(entries@.take(i - 1));
            assert(views_of(entries@.take(i as int)) =~= prev.push(entries@[i - 1]@));
            Seq::lemma_filter_push(prev, entries@[i - 1]@, pred);
            if keep {
                assert(views_of(out@) =~= prev.filter(pred).push(entries@[i - 1]@));
            }
            assert(views_of(out@) =~= views_of(entries@.take(i as int)).filter(pred));
        }
    }
    proof {
        assert(entries@.take(entries@.len() as int) =~= entries@);
    }
    out
}

/// The same names, in ascending lexicographic order.
fn sort_names(input: &Vec<String>) -> (r: Vec<String>)
    ensures
        lex_sorted(views_of(r@)),
        views_of(r@).to_multiset() == views_of(input@).to_multiset(),
{
    broadcast use group_to_multiset_ensures;

    let mut out: Vec<String> = Vec::new();
    let mut idx: usize = 0;
    while idx < input.len()
        invariant
            idx <= input@.len(),
            lex_sorted(views_of(out@)),
            views_of(out@).to_multiset() =~= views_of(input@.take(idx as int)).to_multiset(),
        decreases input@.len() - idx,
    {
        let x = input[idx].clone();
        let mut j: usize = 0;
        loop
            invariant
                j <= out@.len(),
                x == input@[idx as int],
                idx < input@.len(),
                lex_sorted(views_of(out@)),
                forall|k: int| 0 <= k < j ==> lex_le(#[trigger] views_of(out@)[k], x@),
            ensures
                j <= out@.len(),
                forall|k: int| 0 <= k < j ==> lex_le(#[trigger] views_of(out@)[k], x@),
                forall|k: int| j <= k < out@.len() ==> lex_le(x@, #[trigger] views_of(out@)[k]),
            decreases out@.len() - j,
        {
            if j == out.len() {
                break ;
            }
            if !lex_le_exec(out[j].as_str(), x.as_str()) {
                proof {
                    lemma_lex_le_total(views_of(out@)[j as int], x@);
                    assert forall|k: int| j <= k < out@.len() implies lex_le(
                        x@,
                        #[trigger] views_of(out@)[k],
                    ) by {
                        if k > j {
                            lemma_lex_le_trans(x@, views_of(out@)[j as int], views_of(out@)[k]);
                        }
                    }
                }
                break ;
            }
            j = j + 1;
        }
        let ghost old_out = out@;
        out.insert(j, x);
        idx = idx + 1;
        proof {
            assert(views_of(out@) =~= views_of(old_out).insert(j as int, x@));
            assert forall|p: int, q: int|
                0 <= p < q < views_of(out@).len() implies lex_le(
                views_of(out@)[p],
                views_of(out@)[q],
            ) by {
                let nv = views_of(out@);
                let ov = views_of(old_out);
                let jj = j as int;
                if p < jj && q < jj {
                    assert(nv[p] == ov[p] && nv[q] == ov[q]);
                } else if p < jj && q == jj {
                    assert(nv[p] == ov[p] && nv[q] == x@);
                } else if p < jj && q > jj {
                    assert(nv[p] == ov[p] && nv[q] == ov[q - 1]);
                    lemma_lex_le_trans(ov[p], x@, ov[q - 1]);
                } else if p == jj {
                    assert(nv[p] == x@ && nv[q] == ov[q - 1]);
                } else {
                    assert(nv[p] == ov[p - 1] && nv[q] == ov[q - 1]);
                }
            }
            assert(views_of(input@.take(idx as int)) =~= views_of(input@.take(idx - 1)).push(x@));
            to_multiset_insert(views_of(old_out), j as int, x@);
            to_multiset_build(views_of(input@.take(idx - 1)), x@);
            assert(views_of(old_out).insert(j as int, x@).to_multiset() == views_of(
                old_out,
            ).to_multiset().insert(x@));
            assert(views_of(input@.take(idx - 1)).push(x@).to_multiset() =~= views_of(
                input@.take(idx - 1),
            ).to_multiset().insert(x@));
            assert(views_of(out@).to_multiset() =~= views_of(input@.take(idx as int)).to_multiset());
        }
    }
    proof {
        assert(input@.take(input@.len() as int) =~= input@);
    }
    out
}

/// A multiset of names has exactly one ascending arrangement: two sorted
/// sequences that hold the same names the same number of times are equal.
/// This is what makes a scan deterministic however the directory chooses
/// to yield its entries.
pub proof fn lemma_lex_sorted_unique(a: Seq<Seq<char>>, b: Seq<Seq<char>>)
    requires
        lex_sorted(a),
        lex_sorted(b),
        a.to_multiset() == b.to_multiset(),
    ensures
        a == b,
    decreases a.len(),
{
    to_multiset_len(a);
    to_multiset_len(b);
    if a.len() == 0 {
        assert(a =~= b);
    } else {
        assert(a.contains(a[0])) by {
            assert(a[0] == a[0]);
        }
        to_multiset_contains(a, a[0]);
        to_multiset_contains(b, a[0]);
        assert(b.contains(a[0]));
        let ja = choose|k: int| 0 <= k < b.len() && b[k] == a[0];
        if ja > 0 {
            assert(lex_le(b[0], b[ja]));
        } else {
            lemma_lex_le_refl(b[0]);
        }
        assert(lex_le(b[0], a[0]));
        assert(b.contains(b[0])) by {
            assert(b[0] == b[0]);
        }
        to_multiset_contains(b, b[0]);
        to_multiset_contains(a, b[0]);
        assert(a.contains(b[0]));
        let ia = choose|k: int| 0 <= k < a.len() && a[k] == b[0];
        if ia > 0 {
            assert(lex_le(a[0], a[ia]));
        } else {
            lemma_lex_le_refl(a[0]);
        }
        assert(lex_le(a[0], b[0]));
        lemma_lex_le_antisym(a[0], b[0]);
        let ad = a.skip(1);
        let bd = b.skip(1);
        assert(a.remove(0) =~= ad);
        assert(b.remove(0) =~= bd);
        to_multiset_remove(a, 0);
        to_multiset_remove(b, 0);
        assert(ad.to_multiset() == bd.to_multiset());
        assert(lex_sorted(ad)) by {
            assert forall|i: int, j: int| 0 <= i < j < ad.len() implies lex_le(
                ad[i],
                ad[j],
            ) by {
                assert(ad[i] == a[i + 1] && ad[j] == a[j + 1]);
            }
        }
        assert(lex_sorted(bd)) by {
            assert forall|i: int, j: int| 0 <= i < j < bd.len() implies lex_le(
                bd[i],
                bd[j],
            ) by {
                assert(bd[i] == b[i + 1] && bd[j] == b[j + 1]);
            }
        }
        lemma_lex_sorted_unique(ad, bd);
        assert forall|i: int| 0 <= i < a.len() implies a[i] == b[i] by {
            if i > 0 {
                assert(ad[i - 1] == bd[i - 1]);
            }
        }
        assert(a =~= b);
    }
}

/// Scans a directory listing for ADR records: drops the reserved entries,
/// sorts the rest. Reserved names never appear in the result and never
/// count toward its length.
pub fn list_adr_files(entries: &Vec<String>) -> (r: Vec<String>)
    ensures
        scan_of(views_of(entries@), views_of(r@)),
        forall|i: int| 0 <= i < r@.len() ==> !reserved_name(#[trigger] views_of(r@)[i]),
        r@.len() == views_of(entries@).filter(|n: Seq<char>| !reserved_name(n)).len(),
{
    broadcast use group_to_multiset_ensures;

    let filtered = filter_entries(entries);
    let r = sort_names(&filtered);
    proof {
        let pred = |n: Seq<char>| !reserved_name(n);
        let fil = views_of(entries@).filter(pred);
        assert forall|i: int| 0 <= i < r@.len() implies !reserved_name(
            #[trigger] views_of(r@)[i],
        ) by {
            let elem = views_of(r@)[i];
            assert(views_of(r@).contains(elem));
            assert(views_of(r@).to_multiset().count(elem) > 0);
            assert(fil.to_multiset().count(elem) > 0);
            assert(fil.contains(elem));
            let w = choose|w: int| 0 <= w < fil.len() && fil[w] == elem;
            Seq::lemma_filter_pred(views_of(entries@), pred, w);
        }
        to_multiset_len(views_of(r@));
        to_multiset_len(fil);
    }
    r
}

/// The listing the index must show once a record has been created: the
/// scanned files with the new record's name placed among them. The names
/// grow by exactly that one; ascending order, where it held, still holds.
pub fn files_after_create(files: &Vec<String>, name: &String) -> (r: Vec<String>)
    ensures
        views_of(r@).to_multiset() == views_of(files@).to_multiset().insert(name@),
        lex_sorted(views_of(files@)) ==> lex_sorted(views_of(r@)),
{
    let mut out: Vec<String> = Vec::new();
    let mut i: usize = 0;
    while i < files.len()
        invariant
            i <= files@.len(),
            out@ =~= files@.take(i as int),
        decreases files@.len() - i,
    {
        out.push(files[i].clone());
        i = i + 1;
    }
    proof {
        assert(out@ =~= files@);
    }
    let x = name.clone();
    let mut j: usize = 0;
    loop
        invariant
            j <= out@.len(),
            out@ == files@,
            x == *name,
            forall|k: int| 0 <= k < j ==> lex_le(#[trigger] views_of(out@)[k], x@),
        ensures
            j <= out@.len(),
            out@ == files@,
            x == *name,
            forall|k: int| 0 <= k < j ==> lex_le(#[trigger] views_of(out@)[k], x@),
            j < out@.len() ==> !lex_le(views_of(out@)[j as int], x@),
        decreases out@.len() - j,
    {
        if j == out.len() {
            break ;
        }
        if !lex_le_exec(out[j].as_str(), x.as_str()) {
            break ;
        }
        j = j + 1;
    }
    let ghost old_out = out@;
    out.insert(j, x);
    proof {
        assert(views_of(out@) =~= views_of(old_out).insert(j as int, name@));
        to_multiset_insert(views_of(old_out), j as int, name@);
        if lex_sorted(views_of(files@)) {
            let ov = views_of(old_out);
            let jj = j as int;
            assert forall|k: int| jj <= k < ov.len() implies lex_le(x@, #[trigger] ov[k]) by {
                lemma_lex_le_total(ov[jj], x@);
                if k > jj {
                    lemma_lex_le_trans(x@, ov[jj], ov[k]);
                }
            }
            assert forall|p: int, q: int|
                0 <= p < q < views_of(out@).len() implies lex_le(
                views_of(out@)[p],
                views_of(out@)[q],
            ) by {
                let nv = views_of(out@);
                if p < jj && q < jj {
                    assert(nv[p] == ov[p] && nv[q] == ov[q]);
                } else if p < jj && q == jj {
                    assert(nv[p] == ov[p] && nv[q] == x@);
                } else if p < jj && q > jj {
                    assert(nv[p] == ov[p] && nv[q] == ov[q - 1]);
                    lemma_lex_le_trans(ov[p], x@, ov[q - 1]);
                } else if p == jj {
                    assert(nv[p] == x@ && nv[q] == ov[q - 1]);
                } else {
                    assert(nv[p] == ov[p - 1] && nv[q] == ov[q - 1]);
                }
            }
        }
    }
    out
}

} // verus!
