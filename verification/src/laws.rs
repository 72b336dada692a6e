//! The engine's global laws, stated over the specification of
//! `dedup_rows`: conservation of rows, determinism, identity on datasets
//! without duplicate keys, retention of the earliest-positioned record of
//! each duplicate group, and how the two comparison modes treat case.

use core::cmp::Ordering;
use vstd::prelude::*;

use crate::compare::{key_cmp, project};
use crate::dedup::{
    dup_pairs_from, dupes_of, dupes_tagged, kept_of, kept_pairs_from, kept_tagged, rows_of,
    sorted_dataset, tag_rows,
};
use crate::fold::fold_field;
use crate::sort::{lemma_sort_pairs_multiset, lemma_sort_pairs_sorted, pair_le};

verus! {

proof fn lemma_scan_conservation(
    s: Seq<(usize, Seq<Seq<u8>>)>,
    sel: Seq<usize>,
    no_case: bool,
    i: int,
)
    requires
        0 <= i <= s.len(),
    ensures
        kept_pairs_from(s, sel, no_case, i).len() + dup_pairs_from(s, sel, no_case, i).len()
            == s.len() - i,
    decreases s.len() - i,
{
    if i < s.len() {
        lemma_scan_conservation(s, sel, no_case, i + 1);
    }
}

/// Conservation: every record of the dataset ends up in exactly one of the
/// two outputs, so their sizes add up to the dataset's size.
pub proof fn lemma_conservation(rows: Seq<Seq<Seq<u8>>>, sel: Seq<usize>, no_case: bool)
    ensures
        kept_of(rows, sel, no_case).len() + dupes_of(rows, sel, no_case).len() == rows.len(),
{
    let s = sorted_dataset(rows, sel, no_case);
    lemma_sort_pairs_multiset(tag_rows(rows), sel, no_case);
    lemma_scan_conservation(s, sel, no_case, 0);
}

/// Determinism: the engine's outputs are functions of the dataset, the
/// selection and the case mode alone, so equal inputs give equal outputs.
pub proof fn lemma_deterministic(
    rows1: Seq<Seq<Seq<u8>>>,
    rows2: Seq<Seq<Seq<u8>>>,
    sel: Seq<usize>,
    no_case: bool,
)
    requires
        rows1 == rows2,
    ensures
        kept_of(rows1, sel, no_case) == kept_of(rows2, sel, no_case),
        dupes_of(rows1, sel, no_case) == dupes_of(rows2, sel, no_case),
{
}

proof fn lemma_key_flip(a: Seq<Seq<u8>>, b: Seq<Seq<u8>>, sel: Seq<usize>, no_case: bool)
    ensures
        key_cmp(b, a, sel, no_case) == crate::compare::flip(key_cmp(a, b, sel, no_case)),
{
    crate::compare::lemma_cmp_keys_flip(project(a, sel), project(b, sel), no_case);
}

proof fn lemma_key_trans(
    a: Seq<Seq<u8>>,
    b: Seq<Seq<u8>>,
    c: Seq<Seq<u8>>,
    sel: Seq<usize>,
    no_case: bool,
)
    requires
        key_cmp(a, b, sel, no_case) != Ordering::Greater,
        key_cmp(b, c, sel, no_case) != Ordering::Greater,
    ensures
        key_cmp(a, c, sel, no_case) != Ordering::Greater,
{
    crate::compare::lemma_cmp_keys_trans(project(a, sel), project(b, sel), project(c, sel), no_case);
}

/// Every element of the sorted dataset is one of the tagged input records.
proof fn lemma_sorted_element(rows: Seq<Seq<Seq<u8>>>, sel: Seq<usize>, no_case: bool, k: int) -> (t: int)
    requires
        0 <= k < sorted_dataset(rows, sel, no_case).len(),
    ensures
        0 <= t < rows.len(),
        sorted_dataset(rows, sel, no_case)[k] == tag_rows(rows)[t],
        sorted_dataset(rows, sel, no_case)[k].0 == t as usize,
        sorted_dataset(rows, sel, no_case)[k].1 == rows[t],
{
    broadcast use vstd::seq_lib::group_to_multiset_ensures;

    let s = sorted_dataset(rows, sel, no_case);
    let tg = tag_rows(rows);
    lemma_sort_pairs_multiset(tg, sel, no_case);
    assert(s.contains(s[k]));
    assert(s.to_multiset().count(s[k]) > 0);
    assert(tg.to_multiset().count(s[k]) > 0);
    assert(tg.contains(s[k]));
    let t = choose|t: int| 0 <= t < tg.len() && tg[t] == s[k];
    t
}

/// With at most `usize::MAX` records the tags are distinct, so no tagged
/// record appears twice in the sorted dataset.
proof fn lemma_sorted_no_duplicates(rows: Seq<Seq<Seq<u8>>>, sel: Seq<usize>, no_case: bool)
    requires
        rows.len() <= usize::MAX,
    ensures
        sorted_dataset(rows, sel, no_case).no_duplicates(),
{
    let s = sorted_dataset(rows, sel, no_case);
    let tg = tag_rows(rows);
    assert forall|i: int, j: int| 0 <= i < j < tg.len() implies tg[i] != tg[j] by {
        assert(tg[i].0 == i as usize);
        assert(tg[j].0 == j as usize);
    }
    assert(tg.no_duplicates());
    tg.lemma_multiset_has_no_duplicates();
    lemma_sort_pairs_multiset(tg, sel, no_case);
    s.lemma_multiset_has_no_duplicates_conv();
}

proof fn lemma_scan_all_kept(s: Seq<(usize, Seq<Seq<u8>>)>, sel: Seq<usize>, no_case: bool, i: int)
    requires
        0 <= i <= s.len(),
        forall|j: int|
            1 <= j < s.len() ==> #[trigger] key_cmp(s[j].1, s[j - 1].1, sel, no_case)
                != Ordering::Equal,
    ensures
        kept_pairs_from(s, sel, no_case, i) == s.subrange(i, s.len() as int),
        dup_pairs_from(s, sel, no_case, i) == Seq::<(usize, Seq<Seq<u8>>)>::empty(),
    decreases s.len() - i,
{
    if i >= s.len() {
        assert(kept_pairs_from(s, sel, no_case, i) =~= s.subrange(i, s.len() as int));
    } else {
        lemma_scan_all_kept(s, sel, no_case, i + 1);
        if i > 0 {
            lemma_key_flip(s[i].1, s[i - 1].1, sel, no_case);
            assert(key_cmp(s[i - 1].1, s[i].1, sel, no_case) != Ordering::Equal);
        }
        assert(kept_pairs_from(s, sel, no_case, i) == seq![s[i]] + kept_pairs_from(
            s,
            sel,
            no_case,
            i + 1,
        ));
        assert(kept_pairs_from(s, sel, no_case, i) =~= s.subrange(i, s.len() as int));
    }
}

/// Idempotence on clean data: when the records' projected keys are pairwise
/// distinct, nothing is routed to the duplicates output and the kept output
/// is exactly the sorted dataset.
pub proof fn lemma_distinct_keys_identity(rows: Seq<Seq<Seq<u8>>>, sel: Seq<usize>, no_case: bool)
    requires
        rows.len() <= usize::MAX,
        forall|i: int, j: int|
            0 <= i < j < rows.len() ==> #[trigger] key_cmp(rows[i], rows[j], sel, no_case)
                != Ordering::Equal,
    ensures
        dupes_of(rows, sel, no_case) == Seq::<Seq<Seq<u8>>>::empty(),
        kept_of(rows, sel, no_case) == rows_of(sorted_dataset(rows, sel, no_case)),
{
    let s = sorted_dataset(rows, sel, no_case);
    lemma_sorted_no_duplicates(rows, sel, no_case);
    assert forall|j: int| 1 <= j < s.len() implies #[trigger] key_cmp(
        s[j].1,
        s[j - 1].1,
        sel,
        no_case,
    ) != Ordering::Equal by {
        let t1 = lemma_sorted_element(rows, sel, no_case, j - 1);
        let t2 = lemma_sorted_element(rows, sel, no_case, j);
        assert(s[j - 1] != s[j]);
        assert(t1 != t2);
        if t1 < t2 {
            assert(key_cmp(rows[t1], rows[t2], sel, no_case) != Ordering::Equal);
            lemma_key_flip(rows[t2], rows[t1], sel, no_case);
        } else {
            assert(key_cmp(rows[t2], rows[t1], sel, no_case) != Ordering::Equal);
        }
    }
    lemma_scan_all_kept(s, sel, no_case, 0);
    assert(s.subrange(0, s.len() as int) =~= s);
    assert(rows_of(dup_pairs_from(s, sel, no_case, 0)) =~= Seq::<Seq<Seq<u8>>>::empty());
}

proof fn lemma_kept_from_has(
    s: Seq<(usize, Seq<Seq<u8>>)>,
    sel: Seq<usize>,
    no_case: bool,
    i: int,
    k: int,
)
    requires
        0 <= i <= k < s.len(),
        k == 0 || key_cmp(s[k - 1].1, s[k].1, sel, no_case) != Ordering::Equal,
    ensures
        kept_pairs_from(s, sel, no_case, i).contains(s[k]),
    decreases k - i,
{
    if i < k {
        lemma_kept_from_has(s, sel, no_case, i + 1, k);
        let rest = kept_pairs_from(s, sel, no_case, i + 1);
        let m = choose|m: int| 0 <= m < rest.len() && rest[m] == s[k];
        if i == 0 || key_cmp(s[i - 1].1, s[i].1, sel, no_case) != Ordering::Equal {
            assert((seq![s[i]] + rest)[m + 1] == s[k]);
        }
    } else {
        let whole = kept_pairs_from(s, sel, no_case, i);
        assert(whole == seq![s[k]] + kept_pairs_from(s, sel, no_case, i + 1));
        assert(whole[0] == s[k]);
    }
}

proof fn lemma_kept_from_only(
    s: Seq<(usize, Seq<Seq<u8>>)>,
    sel: Seq<usize>,
    no_case: bool,
    i: int,
    x: (usize, Seq<Seq<u8>>),
) -> (k: int)
    requires
        0 <= i,
        kept_pairs_from(s, sel, no_case, i).contains(x),
    ensures
        i <= k < s.len(),
        s[k] == x,
        k == 0 || key_cmp(s[k - 1].1, s[k].1, sel, no_case) != Ordering::Equal,
    decreases s.len() - i,
{
    assert(i < s.len()) by {
        if i >= s.len() {
            assert(kept_pairs_from(s, sel, no_case, i).len() == 0);
        }
    }
    let rest = kept_pairs_from(s, sel, no_case, i + 1);
    if i == 0 || key_cmp(s[i - 1].1, s[i].1, sel, no_case) != Ordering::Equal {
        let whole = seq![s[i]] + rest;
        assert(kept_pairs_from(s, sel, no_case, i) == whole);
        let m = choose|m: int| 0 <= m < whole.len() && whole[m] == x;
        if m == 0 {
            i
        } else {
            assert(rest[m - 1] == x);
            assert(rest.contains(x));
            lemma_kept_from_only(s, sel, no_case, i + 1, x)
        }
    } else {
        lemma_kept_from_only(s, sel, no_case, i + 1, x)
    }
}

proof fn lemma_dup_from_has(
    s: Seq<(usize, Seq<Seq<u8>>)>,
    sel: Seq<usize>,
    no_case: bool,
    i: int,
    k: int,
)
    requires
        0 <= i <= k < s.len(),
        k > 0,
        key_cmp(s[k - 1].1, s[k].1, sel, no_case) == Ordering::Equal,
    ensures
        dup_pairs_from(s, sel, no_case, i).contains(s[k]),
    decreases k - i,
{
    if i < k {
        lemma_dup_from_has(s, sel, no_case, i + 1, k);
        let rest = dup_pairs_from(s, sel, no_case, i + 1);
        let m = choose|m: int| 0 <= m < rest.len() && rest[m] == s[k];
        if !(i == 0 || key_cmp(s[i - 1].1, s[i].1, sel, no_case) != Ordering::Equal) {
            assert((seq![s[i]] + rest)[m + 1] == s[k]);
        }
    } else {
        let whole = dup_pairs_from(s, sel, no_case, i);
        assert(whole == seq![s[k]] + dup_pairs_from(s, sel, no_case, i + 1));
        assert(whole[0] == s[k]);
    }
}

/// A record that opens a run of the sorted dataset has no equal-keyed
/// record at an earlier input position.
proof fn lemma_opener_is_first(rows: Seq<Seq<Seq<u8>>>, sel: Seq<usize>, no_case: bool, q: int, k: int)
    requires
        rows.len() <= usize::MAX,
        0 <= q < rows.len(),
        0 <= k < sorted_dataset(rows, sel, no_case).len(),
        sorted_dataset(rows, sel, no_case)[k] == (q as usize, rows[q]),
        k == 0 || key_cmp(
            sorted_dataset(rows, sel, no_case)[k - 1].1,
            sorted_dataset(rows, sel, no_case)[k].1,
            sel,
            no_case,
        ) != Ordering::Equal,
    ensures
        forall|p: int|
            0 <= p < q ==> #[trigger] key_cmp(rows[p], rows[q], sel, no_case) != Ordering::Equal,
{
    broadcast use vstd::seq_lib::group_to_multiset_ensures;

    let s = sorted_dataset(rows, sel, no_case);
    let tg = tag_rows(rows);
    lemma_sort_pairs_multiset(tg, sel, no_case);
    lemma_sort_pairs_sorted(tg, sel, no_case);
    lemma_sorted_no_duplicates(rows, sel, no_case);
    assert forall|p: int| 0 <= p < q implies #[trigger] key_cmp(
        rows[p],
        rows[q],
        sel,
        no_case,
    ) != Ordering::Equal by {
        if key_cmp(rows[p], rows[q], sel, no_case) == Ordering::Equal {
            assert(tg[p] == (p as usize, rows[p]));
            assert(tg.contains(tg[p]));
            assert(s.to_multiset().count(tg[p]) > 0);
            assert(s.contains(tg[p]));
            let m = choose|m: int| 0 <= m < s.len() && s[m] == tg[p];
            assert(s[m] != s[k]);
            assert(m != k);
            lemma_key_flip(rows[p], rows[q], sel, no_case);
            if m > k {
                assert(pair_le(s[k], s[m], sel, no_case));
                assert(false);
            } else {
                // the predecessor of position k is then key-equal to it,
                // against the run-opening condition at k
                assert(k >= 1);
                if m == k - 1 {
                    assert(key_cmp(s[k - 1].1, s[k].1, sel, no_case) == Ordering::Equal);
                } else {
                    assert(pair_le(s[m], s[k - 1], sel, no_case));
                    assert(pair_le(s[k - 1], s[k], sel, no_case));
                    assert(key_cmp(rows[p], s[k - 1].1, sel, no_case) != Ordering::Greater);
                    assert(key_cmp(s[k - 1].1, rows[q], sel, no_case) != Ordering::Greater);
                    lemma_key_trans(rows[q], rows[p], s[k - 1].1, sel, no_case);
                    lemma_key_flip(rows[q], s[k - 1].1, sel, no_case);
                    assert(key_cmp(s[k - 1].1, s[k].1, sel, no_case) == Ordering::Equal);
                }
                assert(false);
            }
        }
    }
}

/// Stability-dependent retention: a record is kept exactly when no record
/// at an earlier input position has an equal projected key, and a record
/// with such a predecessor goes to the duplicates output instead.
pub proof fn lemma_retention(rows: Seq<Seq<Seq<u8>>>, sel: Seq<usize>, no_case: bool, q: int)
    requires
        rows.len() <= usize::MAX,
        0 <= q < rows.len(),
    ensures
        kept_tagged(rows, sel, no_case).contains((q as usize, rows[q])) <==> (forall|p: int|
            0 <= p < q ==> #[trigger] key_cmp(rows[p], rows[q], sel, no_case) != Ordering::Equal),
        (exists|p: int| 0 <= p < q && #[trigger] key_cmp(rows[p], rows[q], sel, no_case)
            == Ordering::Equal) ==> dupes_tagged(rows, sel, no_case).contains((q as usize, rows[q])),
{
    broadcast use vstd::seq_lib::group_to_multiset_ensures;

    let s = sorted_dataset(rows, sel, no_case);
    let tg = tag_rows(rows);
    let x = (q as usize, rows[q]);
    lemma_sort_pairs_multiset(tg, sel, no_case);
    lemma_sort_pairs_sorted(tg, sel, no_case);
    lemma_sorted_no_duplicates(rows, sel, no_case);
    assert(tg[q] == x);
    assert(tg.contains(x));
    assert(s.to_multiset().count(x) > 0);
    assert(s.contains(x));
    let kq = choose|kq: int| 0 <= kq < s.len() && s[kq] == x;

    if forall|p: int| 0 <= p < q ==> #[trigger] key_cmp(rows[p], rows[q], sel, no_case)
        != Ordering::Equal {
        // first occurrence: the record opens its run, so the scan keeps it
        if kq > 0 && key_cmp(s[kq - 1].1, s[kq].1, sel, no_case) == Ordering::Equal {
            let t = lemma_sorted_element(rows, sel, no_case, kq - 1);
            assert(s[kq - 1] != s[kq]);
            assert(t != q);
            assert(pair_le(s[kq - 1], s[kq], sel, no_case));
            assert(t < q);
            assert(key_cmp(rows[t], rows[q], sel, no_case) == Ordering::Equal);
            assert(false);
        }
        lemma_kept_from_has(s, sel, no_case, 0, kq);
    }

    if kept_tagged(rows, sel, no_case).contains(x) {
        let k = lemma_kept_from_only(s, sel, no_case, 0, x);
        lemma_opener_is_first(rows, sel, no_case, q, k);
    }

    if exists|p: int| 0 <= p < q && #[trigger] key_cmp(rows[p], rows[q], sel, no_case)
        == Ordering::Equal {
        // a later occurrence cannot open its run, so the scan routes it to
        // the duplicates output
        if kq == 0 || key_cmp(s[kq - 1].1, s[kq].1, sel, no_case) != Ordering::Equal {
            lemma_opener_is_first(rows, sel, no_case, q, kq);
            assert(false);
        }
        lemma_dup_from_has(s, sel, no_case, 0, kq);
    }
}

/// Case-fold equivalence, insensitive half: two records whose selected
/// fields fold alike — in particular, fields that differ only by letter
/// case — compare equal in case-insensitive mode.
pub proof fn lemma_case_fold_equal(a: Seq<Seq<u8>>, b: Seq<Seq<u8>>, sel: Seq<usize>)
    requires
        forall|k: int|
            0 <= k < sel.len() ==> fold_field(a[(#[trigger] sel[k]) as int]) == fold_field(
                b[sel[k] as int],
            ),
    ensures
        key_cmp(a, b, sel, true) == Ordering::Equal,
{
    let pa = project(a, sel);
    let pb = project(b, sel);
    assert forall|k: int| 0 <= k < pa.len() implies fold_field(#[trigger] pa[k]) == fold_field(
        pb[k],
    ) by {
        assert(pa[k] == a[sel[k] as int]);
        assert(pb[k] == b[sel[k] as int]);
    }
    crate::compare::lemma_cmp_keys_folded_eq(pa, pb);
}

/// Case-fold equivalence, sensitive half: in case-sensitive mode two
/// records compare equal exactly when their selected fields are
/// byte-identical, so fields that differ — in letter case or otherwise —
/// keep the records distinct.
pub proof fn lemma_case_sensitive_exact(a: Seq<Seq<u8>>, b: Seq<Seq<u8>>, sel: Seq<usize>)
    ensures
        (key_cmp(a, b, sel, false) == Ordering::Equal) <==> project(a, sel) == project(b, sel),
{
    crate::compare::lemma_cmp_keys_sensitive_eq(project(a, sel), project(b, sel));
}

} // verus!
