//! The deduplication engine: materialized records are tagged with their
//! input positions, sorted by projected key (ties in input order), and the
//! sorted sequence is scanned once. The first record of every run of
//! key-equal records is kept; every later member of a run is a duplicate.

use core::cmp::Ordering;
use vstd::prelude::*;

use crate::compare::{compare_rows, key_cmp};
use crate::rows::{clone_row, row_in_bounds, rows_in_bounds};
use crate::sort::{pairs_in_bounds, sort_pairs, sort_pairs_spec};

verus! {

/// The dataset with every record tagged by its input position.
pub open spec fn tag_rows(rows: Seq<Seq<Seq<u8>>>) -> Seq<(usize, Seq<Seq<u8>>)> {
    Seq::new(rows.len(), |i: int| (i as usize, rows[i]))
}

/// The dataset in sorted order, tags included.
pub open spec fn sorted_dataset(
    rows: Seq<Seq<Seq<u8>>>,
    sel: Seq<usize>,
    no_case: bool,
) -> Seq<(usize, Seq<Seq<u8>>)> {
    sort_pairs_spec(tag_rows(rows), sel, no_case)
}

/// The tagged records from position `i` on that open a run of key-equal
/// records: the scan keeps exactly these.
pub open spec fn kept_pairs_from(
    s: Seq<(usize, Seq<Seq<u8>>)>,
    sel: Seq<usize>,
    no_case: bool,
    i: int,
) -> Seq<(usize, Seq<Seq<u8>>)>
    decreases s.len() - i,
    when i >= 0
{
    if i >= s.len() {
        Seq::empty()
    } else if i == 0 || key_cmp(s[i - 1].1, s[i].1, sel, no_case) != Ordering::Equal {
        seq![s[i]] + kept_pairs_from(s, sel, no_case, i + 1)
    } else {
        kept_pairs_from(s, sel, no_case, i + 1)
    }
}

/// The tagged records from position `i` on that continue a run: the scan
/// routes exactly these to the duplicates output.
pub open spec fn dup_pairs_from(
    s: Seq<(usize, Seq<Seq<u8>>)>,
    sel: Seq<usize>,
    no_case: bool,
    i: int,
) -> Seq<(usize, Seq<Seq<u8>>)>
    decreases s.len() - i,
    when i >= 0
{
    if i >= s.len() {
        Seq::empty()
    } else if i == 0 || key_cmp(s[i - 1].1, s[i].1, sel, no_case) != Ordering::Equal {
        dup_pairs_from(s, sel, no_case, i + 1)
    } else {
        seq![s[i]] + dup_pairs_from(s, sel, no_case, i + 1)
    }
}

/// The kept records of the engine, tags included, in output order.
pub open spec fn kept_tagged(rows: Seq<Seq<Seq<u8>>>, sel: Seq<usize>, no_case: bool) -> Seq<
    (usize, Seq<Seq<u8>>),
> {
    kept_pairs_from(sorted_dataset(rows, sel, no_case), sel, no_case, 0)
}

/// The duplicate records of the engine, tags included, in output order.
pub open spec fn dupes_tagged(rows: Seq<Seq<Seq<u8>>>, sel: Seq<usize>, no_case: bool) -> Seq<
    (usize, Seq<Seq<u8>>),
> {
    dup_pairs_from(sorted_dataset(rows, sel, no_case), sel, no_case, 0)
}

/// The rows of a tagged sequence, tags dropped.
pub open spec fn rows_of(s: Seq<(usize, Seq<Seq<u8>>)>) -> Seq<Seq<Seq<u8>>> {
    s.map_values(|p: (usize, Seq<Seq<u8>>)| p.1)
}

/// The primary output of the engine: one representative per duplicate
/// group, in sorted order.
pub open spec fn kept_of(rows: Seq<Seq<Seq<u8>>>, sel: Seq<usize>, no_case: bool) -> Seq<
    Seq<Seq<u8>>,
> {
    rows_of(kept_tagged(rows, sel, no_case))
}

/// The secondary output of the engine: the remaining members of every
/// duplicate group, in sorted order.
pub open spec fn dupes_of(rows: Seq<Seq<Seq<u8>>>, sel: Seq<usize>, no_case: bool) -> Seq<
    Seq<Seq<u8>>,
> {
    rows_of(dupes_tagged(rows, sel, no_case))
}

/// Scans the sorted dataset once, splitting it into kept records and
/// duplicates.
fn scan_sorted(s: &Vec<(usize, Vec<Vec<u8>>)>, sel: &Vec<usize>, no_case: bool) -> (out: (
    Vec<Vec<Vec<u8>>>,
    Vec<Vec<Vec<u8>>>,
))
    requires
        pairs_in_bounds(s.deep_view(), sel@),
    ensures
        out.0.deep_view() == rows_of(kept_pairs_from(s.deep_view(), sel@, no_case, 0)),
        out.1.deep_view() == rows_of(dup_pairs_from(s.deep_view(), sel@, no_case, 0)),
{
    let ghost sv = s.deep_view();
    let mut kept: Vec<Vec<Vec<u8>>> = Vec::new();
    let mut dupes: Vec<Vec<Vec<u8>>> = Vec::new();
    let mut i: usize = 0;
    while i < s.len()
        invariant
            i <= s.len(),
            sv == s.deep_view(),
            sv.len() == s.len(),
            pairs_in_bounds(sv, sel@),
            rows_of(kept_pairs_from(sv, sel@, no_case, 0)) =~= kept.deep_view() + rows_of(
                kept_pairs_from(sv, sel@, no_case, i as int),
            ),
            rows_of(dup_pairs_from(sv, sel@, no_case, 0)) =~= dupes.deep_view() + rows_of(
                dup_pairs_from(sv, sel@, no_case, i as int),
            ),
        decreases s.len() - i,
    {
        proof {
            assert(sv[i as int] == s@[i as int].deep_view());
            if i > 0 {
                assert(sv[i as int - 1] == s@[i as int - 1].deep_view());
            }
        }
        let opens_run: bool = if i == 0 {
            true
        } else {
            match compare_rows(&s[i - 1].1, &s[i].1, sel, no_case) {
                Ordering::Equal => false,
                _ => true,
            }
        };
        let r = clone_row(&s[i].1);
        proof {
            assert(r.deep_view() == sv[i as int].1);
        }
        let ghost kept_before = kept.deep_view();
        let ghost dupes_before = dupes.deep_view();
        if opens_run {
            kept.push(r);
        } else {
            dupes.push(r);
        }
        proof {
            let rest_k = kept_pairs_from(sv, sel@, no_case, i as int + 1);
            let rest_d = dup_pairs_from(sv, sel@, no_case, i as int + 1);
            if opens_run {
                assert(kept_pairs_from(sv, sel@, no_case, i as int) == seq![sv[i as int]] + rest_k);
                assert(rows_of(seq![sv[i as int]] + rest_k) =~= seq![sv[i as int].1] + rows_of(
                    rest_k,
                ));
                assert(kept.deep_view() =~= kept_before.push(sv[i as int].1));
                assert(kept_before + rows_of(kept_pairs_from(sv, sel@, no_case, i as int))
                    =~= kept.deep_view() + rows_of(rest_k));
            } else {
                assert(dup_pairs_from(sv, sel@, no_case, i as int) == seq![sv[i as int]] + rest_d);
                assert(rows_of(seq![sv[i as int]] + rest_d) =~= seq![sv[i as int].1] + rows_of(
                    rest_d,
                ));
                assert(dupes.deep_view() =~= dupes_before.push(sv[i as int].1));
                assert(dupes_before + rows_of(dup_pairs_from(sv, sel@, no_case, i as int))
                    =~= dupes.deep_view() + rows_of(rest_d));
            }
        }
        i += 1;
    }
    proof {
        assert(rows_of(kept_pairs_from(sv, sel@, no_case, i as int)) =~= Seq::<
            Seq<Seq<u8>>,
        >::empty());
        assert(rows_of(dup_pairs_from(sv, sel@, no_case, i as int)) =~= Seq::<
            Seq<Seq<u8>>,
        >::empty());
        assert(kept.deep_view() =~= kept.deep_view() + Seq::<Seq<Seq<u8>>>::empty());
        assert(dupes.deep_view() =~= dupes.deep_view() + Seq::<Seq<Seq<u8>>>::empty());
    }
    (kept, dupes)
}

/// Deduplicates the dataset: sorts all records by their projected keys
/// (stably) and keeps the first record of every run of key-equal records,
/// routing the rest to the duplicates output.
pub fn dedup_rows(rows: Vec<Vec<Vec<u8>>>, sel: &Vec<usize>, no_case: bool) -> (out: (
    Vec<Vec<Vec<u8>>>,
    Vec<Vec<Vec<u8>>>,
))
    requires
        rows_in_bounds(rows.deep_view(), sel@),
    ensures
        out.0.deep_view() == kept_of(rows.deep_view(), sel@, no_case),
        out.1.deep_view() == dupes_of(rows.deep_view(), sel@, no_case),
{
    let ghost orig = rows.deep_view();
    let mut rows = rows;
    let n = rows.len();
    let mut pairs: Vec<(usize, Vec<Vec<u8>>)> = Vec::new();
    let mut i: usize = 0;
    proof {
        assert(orig.len() == n as int);
        assert(pairs.deep_view() =~= tag_rows(orig).subrange(0, 0));
        assert(rows.deep_view() =~= orig.subrange(0, orig.len() as int));
    }
    while rows.len() > 0
        invariant
            orig.len() == n as int,
            i + rows.len() == orig.len(),
            rows.deep_view() =~= orig.subrange(i as int, orig.len() as int),
            pairs.deep_view() =~= tag_rows(orig).subrange(0, i as int),
            rows_in_bounds(orig, sel@),
        decreases rows.len(),
    {
        let ghost rd_old = rows@;
        let ghost dd_old = rows.deep_view();
        let ghost pairs_before = pairs.deep_view();
        let r = rows.remove(0);
        proof {
            assert(r.deep_view() == dd_old[0]);
            assert(r.deep_view() == orig[i as int]);
            assert forall|j: int| 0 <= j < rows@.len() implies rows.deep_view()[j] == dd_old[j
                + 1] by {
                assert(rows@[j] == rd_old.remove(0)[j]);
                assert(rd_old.remove(0)[j] == rd_old[j + 1]);
            }
            assert(rows.deep_view() =~= orig.subrange(i as int + 1, orig.len() as int));
        }
        let p = (i, r);
        proof {
            assert(p.deep_view() == tag_rows(orig)[i as int]);
        }
        pairs.push(p);
        i += 1;
        proof {
            assert(pairs.deep_view() =~= pairs_before.push(p.deep_view()));
            assert(pairs.deep_view() =~= tag_rows(orig).subrange(0, i as int));
        }
    }
    proof {
        assert(pairs.deep_view() =~= tag_rows(orig));
        assert forall|j: int| 0 <= j < tag_rows(orig).len() implies row_in_bounds(
            (#[trigger] tag_rows(orig)[j]).1,
            sel@,
        ) by {
            assert(tag_rows(orig)[j].1 == orig[j]);
        }
    }
    let sorted = sort_pairs(pairs, sel, no_case);
    scan_sorted(&sorted, sel, no_case)
}

/// The engine's error: the selection names a field position that some
/// record does not have.
#[derive(Clone, Copy, Debug, PartialEq, Eq)]
pub enum DedupError {
    InvalidSelection,
}

/// Whether every record of the dataset has all the field positions the
/// selection names.
pub fn selection_in_bounds(rows: &Vec<Vec<Vec<u8>>>, sel: &Vec<usize>) -> (r: bool)
    ensures
        r == rows_in_bounds(rows.deep_view(), sel@),
{
    let mut i: usize = 0;
    while i < rows.len()
        invariant
            i <= rows.len(),
            forall|m: int| 0 <= m < i ==> row_in_bounds(#[trigger] rows.deep_view()[m], sel@),
        decreases rows.len() - i,
    {
        let row = &rows[i];
        proof {
            assert(rows.deep_view()[i as int] == rows@[i as int].deep_view());
        }
        let mut k: usize = 0;
        while k < sel.len()
            invariant
                k <= sel.len(),
                rows.deep_view()[i as int] == rows@[i as int].deep_view(),
                i < rows.len(),
                row == &rows@[i as int],
                forall|m: int| 0 <= m < k ==> (#[trigger] sel@[m]) < rows@[i as int].deep_view().len(),
            decreases sel.len() - k,
        {
            if sel[k] >= row.len() {
                return false;
            }
            k += 1;
        }
        assert(row_in_bounds(rows.deep_view()[i as int], sel@));
        i += 1;
    }
    true
}

/// Deduplicates after validating the selection: every selected position
/// must exist in every record, else the selection is invalid and nothing is
/// done.
pub fn dedup_checked(rows: Vec<Vec<Vec<u8>>>, sel: &Vec<usize>, no_case: bool) -> (res: Result<
    (Vec<Vec<Vec<u8>>>, Vec<Vec<Vec<u8>>>),
    DedupError,
>)
    ensures
        res is Ok <==> rows_in_bounds(rows.deep_view(), sel@),
        res matches Ok(out) ==> out.0.deep_view() == kept_of(rows.deep_view(), sel@, no_case)
            && out.1.deep_view() == dupes_of(rows.deep_view(), sel@, no_case),
        res matches Err(e) ==> e == DedupError::InvalidSelection,
{
    if !selection_in_bounds(&rows, sel) {
        return Err(DedupError::InvalidSelection);
    }
    Ok(dedup_rows(rows, sel, no_case))
}

/// A sink's content: the header, when one is present, followed by the data
/// rows.
pub open spec fn with_header(h: Option<Seq<Seq<u8>>>, body: Seq<Seq<Seq<u8>>>) -> Seq<
    Seq<Seq<u8>>,
> {
    match h {
        Option::Some(hr) => seq![hr] + body,
        Option::None => body,
    }
}

/// Routes the engine's outputs to their sinks: the primary output carries
/// the header (once, first) and then the kept records; the duplicates
/// output exists only when asked for, and then carries the header (once,
/// first) and the duplicate records.
pub fn route(
    header: &Option<Vec<Vec<u8>>>,
    kept: Vec<Vec<Vec<u8>>>,
    dupes: Vec<Vec<Vec<u8>>>,
    want_dupes: bool,
) -> (out: (Vec<Vec<Vec<u8>>>, Option<Vec<Vec<Vec<u8>>>>))
    ensures
        out.0.deep_view() == with_header(header.deep_view(), kept.deep_view()),
        out.1 is Some <==> want_dupes,
        match out.1 {
            Option::Some(sec) => sec.deep_view() == with_header(
                header.deep_view(),
                dupes.deep_view(),
            ),
            Option::None => true,
        },
{
    let primary = prepend_header(header, kept);
    if want_dupes {
        let secondary = prepend_header(header, dupes);
        (primary, Some(secondary))
    } else {
        (primary, None)
    }
}

/// One sink's content: the header, when present, then the body rows.
fn prepend_header(header: &Option<Vec<Vec<u8>>>, body: Vec<Vec<Vec<u8>>>) -> (out: Vec<
    Vec<Vec<u8>>,
>)
    ensures
        out.deep_view() == with_header(header.deep_view(), body.deep_view()),
{
    match header {
        Some(h) => {
            let ghost bodyv = body.deep_view();
            let ghost body_shallow = body@;
            let mut out: Vec<Vec<Vec<u8>>> = Vec::new();
            let hr = clone_row(h);
            proof {
                assert(hr.deep_view() == h.deep_view());
            }
            out.push(hr);
            let ghost out_shallow = out@;
            let mut body = body;
            out.append(&mut body);
            proof {
                assert(out@ == out_shallow + body_shallow);
                let target = with_header(header.deep_view(), bodyv);
                assert forall|j: int| 0 <= j < out@.len() implies out.deep_view()[j] == target[j] by {
                    if j > 0 {
                        assert(out@[j] == body_shallow[j - 1]);
                        assert(bodyv[j - 1] == body_shallow[j - 1].deep_view());
                    } else {
                        assert(out@[0] == hr);
                    }
                }
                assert(out.deep_view() =~= target);
            }
            out
        },
        None => body,
    }
}

} // verus!
