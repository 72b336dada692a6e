//! The record comparator: two projected keys are compared field by field,
//! each field byte-wise, lexicographically with shorter-is-less. In
//! case-insensitive mode every field is folded (lowercased) first, and a
//! field that does not decode as UTF-8 ends its key: past it the key
//! contributes no further values, so it compares like a key that stops there.

use core::cmp::Ordering;
use vstd::prelude::*;

use crate::fold::{decode_field, fold_field, fold_field_exec, lowercase, lower_of};
use crate::rows::{clone_field, row_in_bounds};
use vstd::utf8::{decode_utf8, valid_utf8};

verus! {

/// The mirror image of an ordering.
pub open spec fn flip(o: Ordering) -> Ordering {
    match o {
        Ordering::Less => Ordering::Greater,
        Ordering::Equal => Ordering::Equal,
        Ordering::Greater => Ordering::Less,
    }
}

/// Byte-wise lexicographic order: the first differing byte decides, and on a
/// common prefix the shorter side sorts first.
pub open spec fn lex_bytes(a: Seq<u8>, b: Seq<u8>) -> Ordering
    decreases a.len(),
{
    if a.len() == 0 && b.len() == 0 {
        Ordering::Equal
    } else if a.len() == 0 {
        Ordering::Less
    } else if b.len() == 0 {
        Ordering::Greater
    } else if a[0] < b[0] {
        Ordering::Less
    } else if a[0] > b[0] {
        Ordering::Greater
    } else {
        lex_bytes(a.drop_first(), b.drop_first())
    }
}

/// The comparable value a key offers at its front: its first field (folded
/// in case-insensitive mode), or nothing when the key is exhausted or the
/// field does not fold.
pub open spec fn key_elem(k: Seq<Seq<u8>>, no_case: bool) -> Option<Seq<u8>> {
    if k.len() == 0 {
        None
    } else if no_case {
        fold_field(k[0])
    } else {
        Some(k[0])
    }
}

/// The comparison of two projected keys: paired fields are compared in
/// order; a side that offers no value is less than one that does, and two
/// sides that both offer none are equal.
pub open spec fn cmp_keys(a: Seq<Seq<u8>>, b: Seq<Seq<u8>>, no_case: bool) -> Ordering
    decreases a.len() + b.len(),
{
    match (key_elem(a, no_case), key_elem(b, no_case)) {
        (Option::None, Option::None) => Ordering::Equal,
        (Option::None, Option::Some(_)) => Ordering::Less,
        (Option::Some(_), Option::None) => Ordering::Greater,
        (Option::Some(x), Option::Some(y)) => if lex_bytes(x, y) != Ordering::Equal {
            lex_bytes(x, y)
        } else {
            cmp_keys(a.drop_first(), b.drop_first(), no_case)
        },
    }
}

/// The key of a record under a selection: its fields at the selected
/// positions, in selection order.
pub open spec fn project(row: Seq<Seq<u8>>, sel: Seq<usize>) -> Seq<Seq<u8>> {
    Seq::new(sel.len(), |k: int| row[sel[k] as int])
}

/// How two records compare under a selection and a case mode.
pub open spec fn key_cmp(a: Seq<Seq<u8>>, b: Seq<Seq<u8>>, sel: Seq<usize>, no_case: bool) -> Ordering {
    cmp_keys(project(a, sel), project(b, sel), no_case)
}

proof fn lemma_lex_bytes_flip(a: Seq<u8>, b: Seq<u8>)
    ensures
        lex_bytes(b, a) == flip(lex_bytes(a, b)),
    decreases a.len(),
{
    if a.len() > 0 && b.len() > 0 && a[0] == b[0] {
        lemma_lex_bytes_flip(a.drop_first(), b.drop_first());
    }
}

proof fn lemma_lex_bytes_eq(a: Seq<u8>, b: Seq<u8>)
    ensures
        (lex_bytes(a, b) == Ordering::Equal) <==> (a == b),
    decreases a.len(),
{
    if a.len() > 0 && b.len() > 0 && a[0] == b[0] {
        lemma_lex_bytes_eq(a.drop_first(), b.drop_first());
        if a.drop_first() == b.drop_first() {
            assert forall|i: int| 0 <= i < a.len() implies a[i] == b[i] by {
                if i > 0 {
                    assert(a[i] == a.drop_first()[i - 1]);
                    assert(b[i] == b.drop_first()[i - 1]);
                }
            }
            assert(a =~= b);
        }
        if a == b {
            assert(a.drop_first() =~= b.drop_first());
        }
    } else if a.len() == 0 && b.len() == 0 {
        assert(a =~= b);
    }
}

proof fn lemma_lex_bytes_trans(a: Seq<u8>, b: Seq<u8>, c: Seq<u8>)
    requires
        lex_bytes(a, b) != Ordering::Greater,
        lex_bytes(b, c) != Ordering::Greater,
    ensures
        lex_bytes(a, c) != Ordering::Greater,
        (lex_bytes(a, b) == Ordering::Less || lex_bytes(b, c) == Ordering::Less) ==> lex_bytes(
            a,
            c,
        ) == Ordering::Less,
    decreases a.len() + b.len() + c.len(),
{
    if a.len() == 0 {
        if c.len() > 0 {
            assert(lex_bytes(a, c) == Ordering::Less);
        }
        if lex_bytes(b, c) == Ordering::Less {
            assert(c.len() > 0);
        }
        if lex_bytes(a, b) == Ordering::Less {
            assert(b.len() > 0);
            assert(c.len() > 0);
        }
    } else {
        assert(b.len() > 0);
        assert(c.len() > 0);
        if a[0] == b[0] && b[0] == c[0] {
            lemma_lex_bytes_trans(a.drop_first(), b.drop_first(), c.drop_first());
        }
    }
}

pub proof fn lemma_cmp_keys_flip(a: Seq<Seq<u8>>, b: Seq<Seq<u8>>, no_case: bool)
    ensures
        cmp_keys(b, a, no_case) == flip(cmp_keys(a, b, no_case)),
    decreases a.len() + b.len(),
{
    match (key_elem(a, no_case), key_elem(b, no_case)) {
        (Option::Some(x), Option::Some(y)) => {
            lemma_lex_bytes_flip(x, y);
            if lex_bytes(x, y) == Ordering::Equal {
                lemma_cmp_keys_flip(a.drop_first(), b.drop_first(), no_case);
            }
        },
        _ => {},
    }
}

pub proof fn lemma_cmp_keys_refl(a: Seq<Seq<u8>>, no_case: bool)
    ensures
        cmp_keys(a, a, no_case) == Ordering::Equal,
    decreases a.len(),
{
    match key_elem(a, no_case) {
        Option::Some(x) => {
            lemma_lex_bytes_eq(x, x);
            lemma_cmp_keys_refl(a.drop_first(), no_case);
        },
        Option::None => {},
    }
}

pub proof fn lemma_cmp_keys_trans(a: Seq<Seq<u8>>, b: Seq<Seq<u8>>, c: Seq<Seq<u8>>, no_case: bool)
    requires
        cmp_keys(a, b, no_case) != Ordering::Greater,
        cmp_keys(b, c, no_case) != Ordering::Greater,
    ensures
        cmp_keys(a, c, no_case) != Ordering::Greater,
        (cmp_keys(a, b, no_case) == Ordering::Less || cmp_keys(b, c, no_case) == Ordering::Less)
            ==> cmp_keys(a, c, no_case) == Ordering::Less,
    decreases a.len() + b.len() + c.len(),
{
    let ea = key_elem(a, no_case);
    let eb = key_elem(b, no_case);
    let ec = key_elem(c, no_case);
    match (ea, eb, ec) {
        (Option::Some(x), Option::Some(y), Option::Some(z)) => {
            lemma_lex_bytes_eq(x, y);
            lemma_lex_bytes_eq(y, z);
            if lex_bytes(x, y) == Ordering::Equal && lex_bytes(y, z) == Ordering::Equal {
                lemma_cmp_keys_trans(a.drop_first(), b.drop_first(), c.drop_first(), no_case);
            } else {
                lemma_lex_bytes_trans(x, y, z);
                lemma_lex_bytes_eq(x, z);
            }
        },
        _ => {},
    }
}

/// In case-sensitive mode, two keys compare equal exactly when they are the
/// same sequence of fields.
pub proof fn lemma_cmp_keys_sensitive_eq(a: Seq<Seq<u8>>, b: Seq<Seq<u8>>)
    ensures
        (cmp_keys(a, b, false) == Ordering::Equal) <==> (a == b),
    decreases a.len(),
{
    if a.len() > 0 && b.len() > 0 {
        lemma_lex_bytes_eq(a[0], b[0]);
        lemma_cmp_keys_sensitive_eq(a.drop_first(), b.drop_first());
        if a[0] == b[0] && a.drop_first() == b.drop_first() {
            assert forall|i: int| 0 <= i < a.len() implies a[i] == b[i] by {
                if i > 0 {
                    assert(a[i] == a.drop_first()[i - 1]);
                    assert(b[i] == b.drop_first()[i - 1]);
                }
            }
            assert(a =~= b);
        }
        if a == b {
            assert(a.drop_first() =~= b.drop_first());
        }
    } else if a.len() == 0 && b.len() == 0 {
        assert(a =~= b);
    }
}

/// In case-insensitive mode, keys whose fields fold alike compare equal.
pub proof fn lemma_cmp_keys_folded_eq(a: Seq<Seq<u8>>, b: Seq<Seq<u8>>)
    requires
        a.len() == b.len(),
        forall|k: int| 0 <= k < a.len() ==> fold_field(#[trigger] a[k]) == fold_field(b[k]),
    ensures
        cmp_keys(a, b, true) == Ordering::Equal,
    decreases a.len(),
{
    if a.len() > 0 {
        assert(fold_field(a[0]) == fold_field(b[0]));
        match key_elem(a, true) {
            Option::Some(x) => {
                lemma_lex_bytes_eq(x, x);
                assert(forall|k: int|
                    0 <= k < a.drop_first().len() ==> fold_field(
                        #[trigger] a.drop_first()[k],
                    ) == fold_field(b.drop_first()[k]));
                lemma_cmp_keys_folded_eq(a.drop_first(), b.drop_first());
            },
            Option::None => {},
        }
    }
}

/// The view of an optional field value.
pub open spec fn opt_bytes_view(o: Option<Vec<u8>>) -> Option<Seq<u8>> {
    match o {
        Option::Some(v) => Option::Some(v@),
        Option::None => Option::None,
    }
}

/// The comparable value that key `k` offers at position `i`.
fn key_elem_at(k: &Vec<Vec<u8>>, i: usize, no_case: bool) -> (r: Option<Vec<u8>>)
    requires
        i <= k.len(),
    ensures
        opt_bytes_view(r) == key_elem(k.deep_view().skip(i as int), no_case),
{
    proof {
        assert(k.deep_view().len() == k.len());
    }
    if i >= k.len() {
        None
    } else {
        proof {
            assert(k.deep_view().skip(i as int)[0] == k.deep_view()[i as int]);
            assert(k@[i as int].deep_view() =~= k@[i as int]@);
        }
        if no_case {
            fold_field_exec(&k[i])
        } else {
            Some(clone_field(&k[i]))
        }
    }
}

/// Compares two byte strings lexicographically.
fn compare_bytes(a: &Vec<u8>, b: &Vec<u8>) -> (r: Ordering)
    ensures
        r == lex_bytes(a@, b@),
{
    let mut i: usize = 0;
    proof {
        assert(a@.skip(0) =~= a@);
        assert(b@.skip(0) =~= b@);
    }
    while i < a.len() && i < b.len()
        invariant
            i <= a.len(),
            i <= b.len(),
            lex_bytes(a@, b@) == lex_bytes(a@.skip(i as int), b@.skip(i as int)),
        decreases a.len() - i,
    {
        let x = a[i];
        let y = b[i];
        proof {
            assert(a@.skip(i as int)[0] == a@[i as int]);
            assert(b@.skip(i as int)[0] == b@[i as int]);
            assert(a@.skip(i as int).drop_first() =~= a@.skip(i as int + 1));
            assert(b@.skip(i as int).drop_first() =~= b@.skip(i as int + 1));
        }
        if x < y {
            return Ordering::Less;
        }
        if x > y {
            return Ordering::Greater;
        }
        i += 1;
    }
    proof {
        assert(a@.skip(i as int).len() == a@.len() - i);
        assert(b@.skip(i as int).len() == b@.len() - i);
    }
    if a.len() == b.len() {
        Ordering::Equal
    } else if a.len() < b.len() {
        Ordering::Less
    } else {
        Ordering::Greater
    }
}

/// Compares two keys under the given case mode.
fn cmp_keys_exec(a: &Vec<Vec<u8>>, b: &Vec<Vec<u8>>, no_case: bool) -> (r: Ordering)
    ensures
        r == cmp_keys(a.deep_view(), b.deep_view(), no_case),
{
    let ghost av = a.deep_view();
    let ghost bv = b.deep_view();
    let mut i: usize = 0;
    proof {
        assert(av.skip(0) =~= av);
        assert(bv.skip(0) =~= bv);
    }
    while i < a.len() || i < b.len()
        invariant
            i <= a.len(),
            i <= b.len(),
            av == a.deep_view(),
            bv == b.deep_view(),
            cmp_keys(av, bv, no_case) == cmp_keys(av.skip(i as int), bv.skip(i as int), no_case),
        decreases a.len() + b.len() - 2 * i,
    {
        let ea = key_elem_at(a, i, no_case);
        let eb = key_elem_at(b, i, no_case);
        match (ea, eb) {
            (Option::None, Option::None) => {
                return Ordering::Equal;
            },
            (Option::None, Option::Some(_)) => {
                return Ordering::Less;
            },
            (Option::Some(_), Option::None) => {
                return Ordering::Greater;
            },
            (Option::Some(x), Option::Some(y)) => {
                let c = compare_bytes(&x, &y);
                match c {
                    Ordering::Equal => {
                        proof {
                            assert(av.skip(i as int).drop_first() =~= av.skip(i as int + 1));
                            assert(bv.skip(i as int).drop_first() =~= bv.skip(i as int + 1));
                        }
                        i += 1;
                    },
                    _ => {
                        return c;
                    },
                }
            },
        }
    }
    proof {
        assert(av.skip(i as int).len() == 0);
        assert(bv.skip(i as int).len() == 0);
    }
    Ordering::Equal
}

/// Compares two projected keys field by field, byte-wise.
pub fn iter_cmp(a: &Vec<Vec<u8>>, b: &Vec<Vec<u8>>) -> (r: Ordering)
    ensures
        r == cmp_keys(a.deep_view(), b.deep_view(), false),
{
    cmp_keys_exec(a, b, false)
}

/// Compares two projected keys field by field, disregarding letter case.
pub fn iter_cmp_no_case(a: &Vec<Vec<u8>>, b: &Vec<Vec<u8>>) -> (r: Ordering)
    ensures
        r == cmp_keys(a.deep_view(), b.deep_view(), true),
{
    cmp_keys_exec(a, b, true)
}

/// The folded text of the field of `xs` at `i`: its lowercased characters
/// when the field is valid UTF-8, nothing when it is not or `i` is past the
/// end.
pub fn next_no_case(xs: &Vec<Vec<u8>>, i: usize) -> (r: Option<String>)
    ensures
        match r {
            Option::Some(s) => i < xs.len() && valid_utf8(xs.deep_view()[i as int]) && s@
                == lower_of(decode_utf8(xs.deep_view()[i as int])),
            Option::None => i >= xs.len() || !valid_utf8(xs.deep_view()[i as int]),
        },
{
    if i >= xs.len() {
        return None;
    }
    proof {
        assert(xs@[i as int].deep_view() =~= xs@[i as int]@);
    }
    match decode_field(xs[i].as_slice()) {
        Some(s) => Some(lowercase(s)),
        None => None,
    }
}

/// The key of `row` under `sel`: copies of its selected fields in selection
/// order.
pub fn select_fields(row: &Vec<Vec<u8>>, sel: &Vec<usize>) -> (out: Vec<Vec<u8>>)
    requires
        row_in_bounds(row.deep_view(), sel@),
    ensures
        out.deep_view() == project(row.deep_view(), sel@),
{
    let mut out: Vec<Vec<u8>> = Vec::new();
    let mut k: usize = 0;
    while k < sel.len()
        invariant
            k <= sel.len(),
            row_in_bounds(row.deep_view(), sel@),
            out.deep_view() =~= project(row.deep_view(), sel@).subrange(0, k as int),
        decreases sel.len() - k,
    {
        let f = clone_field(&row[sel[k]]);
        proof {
            assert(f.deep_view() =~= row@[sel@[k as int] as int].deep_view());
            assert(f.deep_view() == project(row.deep_view(), sel@)[k as int]);
        }
        let ghost prev = out.deep_view();
        out.push(f);
        k += 1;
        proof {
            assert(out.deep_view() =~= prev.push(f.deep_view()));
            assert(out.deep_view() =~= project(row.deep_view(), sel@).subrange(0, k as int));
        }
    }
    proof {
        assert(out.deep_view() =~= project(row.deep_view(), sel@));
    }
    out
}

/// Compares two records by their projected keys under the given case mode.
pub fn compare_rows(a: &Vec<Vec<u8>>, b: &Vec<Vec<u8>>, sel: &Vec<usize>, no_case: bool) -> (r:
    Ordering)
    requires
        row_in_bounds(a.deep_view(), sel@),
        row_in_bounds(b.deep_view(), sel@),
    ensures
        r == key_cmp(a.deep_view(), b.deep_view(), sel@, no_case),
{
    let pa = select_fields(a, sel);
    let pb = select_fields(b, sel);
    if no_case {
        iter_cmp_no_case(&pa, &pb)
    } else {
        iter_cmp(&pa, &pb)
    }
}

} // verus!
