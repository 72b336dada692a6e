//! The row model: a record is a `Vec<Vec<u8>>`, one byte string per field.
//! Contracts speak of `deep_view()`, the mathematical `Seq<Seq<u8>>` image of
//! a record, so that copies made while routing rows are equal to the originals
//! at the specification level.

use vstd::prelude::*;

verus! {

/// Every index of the selection is a valid field position of the row.
pub open spec fn row_in_bounds(row: Seq<Seq<u8>>, sel: Seq<usize>) -> bool {
    forall|k: int| 0 <= k < sel.len() ==> (#[trigger] sel[k]) < row.len()
}

/// All rows of the dataset admit the selection.
pub open spec fn rows_in_bounds(rows: Seq<Seq<Seq<u8>>>, sel: Seq<usize>) -> bool {
    forall|i: int| 0 <= i < rows.len() ==> row_in_bounds(#[trigger] rows[i], sel)
}

/// An exact copy of one field.
pub fn clone_field(f: &Vec<u8>) -> (out: Vec<u8>)
    ensures
        out@ == f@,
{
    let mut out: Vec<u8> = Vec::new();
    let mut j: usize = 0;
    while j < f.len()
        invariant
            j <= f.len(),
            out@ == f@.subrange(0, j as int),
        decreases f.len() - j,
    {
        out.push(f[j]);
        j += 1;
        proof {
            assert(out@ =~= f@.subrange(0, j as int));
        }
    }
    proof {
        assert(out@ =~= f@);
    }
    out
}

/// An exact copy of one row, field by field.
pub fn clone_row(r: &Vec<Vec<u8>>) -> (out: Vec<Vec<u8>>)
    ensures
        out.deep_view() == r.deep_view(),
{
    let mut out: Vec<Vec<u8>> = Vec::new();
    let mut i: usize = 0;
    while i < r.len()
        invariant
            i <= r.len(),
            out.deep_view() == r.deep_view().subrange(0, i as int),
        decreases r.len() - i,
    {
        let f = clone_field(&r[i]);
        proof {
            assert(f.deep_view() =~= r.deep_view()[i as int]);
        }
        let ghost prev = out.deep_view();
        out.push(f);
        i += 1;
        proof {
            assert(out.deep_view() =~= prev.push(f.deep_view()));
            assert(out.deep_view() =~= r.deep_view().subrange(0, i as int));
        }
    }
    proof {
        assert(out.deep_view() =~= r.deep_view());
    }
    out
}

/// Whether the selection occurs among the first `n` entries of `sel`.
pub open spec fn sel_contains(sel: Seq<usize>, i: usize) -> bool {
    sel.contains(i)
}

/// Whether field position `i` is named by the selection.
pub fn selection_contains(sel: &Vec<usize>, i: usize) -> (r: bool)
    ensures
        r == sel_contains(sel@, i),
{
    let mut k: usize = 0;
    while k < sel.len()
        invariant
            k <= sel.len(),
            forall|m: int| 0 <= m < k ==> sel@[m] != i,
        decreases sel.len() - k,
    {
        if sel[k] == i {
            return true;
        }
        k += 1;
    }
    false
}

} // verus!
