//! Stable ordering of the materialized dataset.
//!
//! Each record is tagged with its original position before sorting, and the
//! order compares projected keys first and, among key-equal records, the
//! original positions. The sorted sequence is therefore sorted by key, and
//! key-equal records keep their input order — the stability the retention
//! rule depends on.

use core::cmp::Ordering;
use vstd::prelude::*;

use crate::compare::{compare_rows, key_cmp, lemma_cmp_keys_flip, lemma_cmp_keys_trans};
use crate::rows::row_in_bounds;

verus! {

/// Tag-breaking order on position-tagged records: by projected key, and by
/// original position among key-equal records.
pub open spec fn pair_le(
    p: (usize, Seq<Seq<u8>>),
    q: (usize, Seq<Seq<u8>>),
    sel: Seq<usize>,
    no_case: bool,
) -> bool {
    match key_cmp(p.1, q.1, sel, no_case) {
        Ordering::Less => true,
        Ordering::Greater => false,
        Ordering::Equal => p.0 <= q.0,
    }
}

/// Every pair of positions is ordered.
pub open spec fn sorted_pairs(
    s: Seq<(usize, Seq<Seq<u8>>)>,
    sel: Seq<usize>,
    no_case: bool,
) -> bool {
    forall|i: int, j: int|
        0 <= i < j < s.len() ==> pair_le(#[trigger] s[i], #[trigger] s[j], sel, no_case)
}

/// `p` placed after every element of `s` that precedes or equals it.
pub open spec fn insert_sorted(
    p: (usize, Seq<Seq<u8>>),
    s: Seq<(usize, Seq<Seq<u8>>)>,
    sel: Seq<usize>,
    no_case: bool,
) -> Seq<(usize, Seq<Seq<u8>>)>
    decreases s.len(),
{
    if s.len() == 0 {
        seq![p]
    } else if pair_le(s.last(), p, sel, no_case) {
        s.push(p)
    } else {
        insert_sorted(p, s.drop_last(), sel, no_case).push(s.last())
    }
}

/// The dataset in sorted order: each tagged record inserted in turn.
pub open spec fn sort_pairs_spec(
    s: Seq<(usize, Seq<Seq<u8>>)>,
    sel: Seq<usize>,
    no_case: bool,
) -> Seq<(usize, Seq<Seq<u8>>)>
    decreases s.len(),
{
    if s.len() == 0 {
        s
    } else {
        insert_sorted(s.last(), sort_pairs_spec(s.drop_last(), sel, no_case), sel, no_case)
    }
}

proof fn lemma_pair_le_total(
    p: (usize, Seq<Seq<u8>>),
    q: (usize, Seq<Seq<u8>>),
    sel: Seq<usize>,
    no_case: bool,
)
    ensures
        pair_le(p, q, sel, no_case) || pair_le(q, p, sel, no_case),
{
    lemma_cmp_keys_flip(
        crate::compare::project(p.1, sel),
        crate::compare::project(q.1, sel),
        no_case,
    );
}

proof fn lemma_pair_le_trans(
    p: (usize, Seq<Seq<u8>>),
    q: (usize, Seq<Seq<u8>>),
    r: (usize, Seq<Seq<u8>>),
    sel: Seq<usize>,
    no_case: bool,
)
    requires
        pair_le(p, q, sel, no_case),
        pair_le(q, r, sel, no_case),
    ensures
        pair_le(p, r, sel, no_case),
{
    lemma_cmp_keys_trans(
        crate::compare::project(p.1, sel),
        crate::compare::project(q.1, sel),
        crate::compare::project(r.1, sel),
        no_case,
    );
}

/// Inserting places `p` at the position after the last element that
/// precedes or equals it, shifting the rest.
proof fn lemma_insert_characterize(
    p: (usize, Seq<Seq<u8>>),
    s: Seq<(usize, Seq<Seq<u8>>)>,
    sel: Seq<usize>,
    no_case: bool,
    k: int,
)
    requires
        0 <= k <= s.len(),
        forall|j: int| k <= j < s.len() ==> !pair_le(#[trigger] s[j], p, sel, no_case),
        k > 0 ==> pair_le(s[k - 1], p, sel, no_case),
    ensures
        insert_sorted(p, s, sel, no_case) == s.subrange(0, k) + seq![p] + s.subrange(
            k,
            s.len() as int,
        ),
    decreases s.len(),
{
    let result = s.subrange(0, k) + seq![p] + s.subrange(k, s.len() as int);
    if s.len() == 0 {
        assert(insert_sorted(p, s, sel, no_case) =~= result);
    } else if pair_le(s.last(), p, sel, no_case) {
        assert(k == s.len());
        assert(insert_sorted(p, s, sel, no_case) =~= result);
    } else {
        assert(k < s.len());
        let d = s.drop_last();
        assert(forall|j: int| k <= j < d.len() ==> !pair_le(#[trigger] d[j], p, sel, no_case));
        if k > 0 {
            assert(d[k - 1] == s[k - 1]);
        }
        lemma_insert_characterize(p, d, sel, no_case, k);
        assert(insert_sorted(p, s, sel, no_case) =~= result);
    }
}

/// There is such a position for every insertion.
proof fn lemma_insert_position(
    p: (usize, Seq<Seq<u8>>),
    s: Seq<(usize, Seq<Seq<u8>>)>,
    sel: Seq<usize>,
    no_case: bool,
) -> (k: int)
    ensures
        0 <= k <= s.len(),
        forall|j: int| k <= j < s.len() ==> !pair_le(#[trigger] s[j], p, sel, no_case),
        k > 0 ==> pair_le(s[k - 1], p, sel, no_case),
        insert_sorted(p, s, sel, no_case) == s.subrange(0, k) + seq![p] + s.subrange(
            k,
            s.len() as int,
        ),
    decreases s.len(),
{
    let k: int = if s.len() == 0 {
        0
    } else if pair_le(s.last(), p, sel, no_case) {
        s.len() as int
    } else {
        let inner = lemma_insert_position(p, s.drop_last(), sel, no_case);
        assert(forall|j: int|
            inner <= j < s.len() - 1 ==> !pair_le(#[trigger] s.drop_last()[j], p, sel, no_case));
        assert forall|j: int| inner <= j < s.len() implies !pair_le(
            #[trigger] s[j],
            p,
            sel,
            no_case,
        ) by {
            if j < s.len() - 1 {
                assert(s[j] == s.drop_last()[j]);
            }
        }
        if inner > 0 {
            assert(s[inner - 1] == s.drop_last()[inner - 1]);
        }
        inner
    };
    lemma_insert_characterize(p, s, sel, no_case, k);
    k
}

/// Inserting into a sorted sequence keeps it sorted.
proof fn lemma_insert_keeps_sorted(
    p: (usize, Seq<Seq<u8>>),
    s: Seq<(usize, Seq<Seq<u8>>)>,
    sel: Seq<usize>,
    no_case: bool,
)
    requires
        sorted_pairs(s, sel, no_case),
    ensures
        sorted_pairs(insert_sorted(p, s, sel, no_case), sel, no_case),
{
    let k = lemma_insert_position(p, s, sel, no_case);
    let t = insert_sorted(p, s, sel, no_case);
    assert forall|i: int, j: int| 0 <= i < j < t.len() implies pair_le(
        #[trigger] t[i],
        #[trigger] t[j],
        sel,
        no_case,
    ) by {
        if i < k && j < k {
            assert(t[i] == s[i] && t[j] == s[j]);
        } else if i < k && j == k {
            assert(t[i] == s[i]);
            if i < k - 1 {
                lemma_pair_le_trans(s[i], s[k - 1], p, sel, no_case);
            }
        } else if i < k && j > k {
            assert(t[i] == s[i] && t[j] == s[j - 1]);
        } else if i == k && j > k {
            assert(t[j] == s[j - 1]);
            lemma_pair_le_total(s[j - 1], p, sel, no_case);
        } else if i > k && j > k {
            assert(t[i] == s[i - 1] && t[j] == s[j - 1]);
        }
    }
}

/// The sorted dataset is sorted.
pub proof fn lemma_sort_pairs_sorted(s: Seq<(usize, Seq<Seq<u8>>)>, sel: Seq<usize>, no_case: bool)
    ensures
        sorted_pairs(sort_pairs_spec(s, sel, no_case), sel, no_case),
    decreases s.len(),
{
    if s.len() > 0 {
        lemma_sort_pairs_sorted(s.drop_last(), sel, no_case);
        lemma_insert_keeps_sorted(
            s.last(),
            sort_pairs_spec(s.drop_last(), sel, no_case),
            sel,
            no_case,
        );
    }
}

/// Sorting rearranges the dataset: same records, with their tags, as a
/// multiset.
pub proof fn lemma_sort_pairs_multiset(
    s: Seq<(usize, Seq<Seq<u8>>)>,
    sel: Seq<usize>,
    no_case: bool,
)
    ensures
        sort_pairs_spec(s, sel, no_case).to_multiset() == s.to_multiset(),
        sort_pairs_spec(s, sel, no_case).len() == s.len(),
    decreases s.len(),
{
    broadcast use vstd::seq_lib::group_to_multiset_ensures;

    if s.len() > 0 {
        lemma_sort_pairs_multiset(s.drop_last(), sel, no_case);
        let inner = sort_pairs_spec(s.drop_last(), sel, no_case);
        let k = lemma_insert_position(s.last(), inner, sel, no_case);
        let t = insert_sorted(s.last(), inner, sel, no_case);
        assert(t =~= inner.insert(k, s.last()));
        assert(t.to_multiset() =~= inner.to_multiset().insert(s.last())) by {
            assert(t.remove(k) =~= inner);
            vstd::seq_lib::to_multiset_remove(t, k);
            assert(t.to_multiset().remove(t[k]) =~= inner.to_multiset());
            assert(t[k] == s.last());
            assert(t.to_multiset().count(t[k]) > 0) by {
                vstd::seq_lib::to_multiset_contains(t, t[k]);
                assert(t.contains(t[k]));
            }
        }
        assert(s.drop_last().push(s.last()) =~= s);
        assert(s.drop_last().push(s.last()).to_multiset() =~= s.drop_last().to_multiset().insert(
            s.last(),
        ));
    }
}

/// Whether `a` precedes or equals `b` in the sort order.
fn pair_le_exec(
    a: &(usize, Vec<Vec<u8>>),
    b: &(usize, Vec<Vec<u8>>),
    sel: &Vec<usize>,
    no_case: bool,
) -> (r: bool)
    requires
        row_in_bounds(a.1.deep_view(), sel@),
        row_in_bounds(b.1.deep_view(), sel@),
    ensures
        r == pair_le(a.deep_view(), b.deep_view(), sel@, no_case),
{
    match compare_rows(&a.1, &b.1, sel, no_case) {
        Ordering::Less => true,
        Ordering::Greater => false,
        Ordering::Equal => a.0 <= b.0,
    }
}

/// All rows of a tagged sequence admit the selection.
pub open spec fn pairs_in_bounds(s: Seq<(usize, Seq<Seq<u8>>)>, sel: Seq<usize>) -> bool {
    forall|i: int| 0 <= i < s.len() ==> row_in_bounds((#[trigger] s[i]).1, sel)
}

/// Whether the element of `out` at `idx` precedes or equals `p`.
fn le_at(
    out: &Vec<(usize, Vec<Vec<u8>>)>,
    idx: usize,
    p: &(usize, Vec<Vec<u8>>),
    sel: &Vec<usize>,
    no_case: bool,
) -> (r: bool)
    requires
        idx < out.len(),
        pairs_in_bounds(out.deep_view(), sel@),
        row_in_bounds(p.1.deep_view(), sel@),
    ensures
        r == pair_le(out.deep_view()[idx as int], p.deep_view(), sel@, no_case),
{
    proof {
        assert(out.deep_view()[idx as int] == out@[idx as int].deep_view());
    }
    pair_le_exec(&out[idx], p, sel, no_case)
}

/// Sorts the tagged dataset by projected key, breaking key ties by tag.
#[verifier::rlimit(50)]
pub fn sort_pairs(v: Vec<(usize, Vec<Vec<u8>>)>, sel: &Vec<usize>, no_case: bool) -> (out: Vec<
    (usize, Vec<Vec<u8>>),
>)
    requires
        pairs_in_bounds(v.deep_view(), sel@),
    ensures
        out.deep_view() == sort_pairs_spec(v.deep_view(), sel@, no_case),
        pairs_in_bounds(out.deep_view(), sel@),
{
    let ghost orig = v.deep_view();
    let mut v = v;
    let n = v.len();
    let mut out: Vec<(usize, Vec<Vec<u8>>)> = Vec::new();
    let mut i: usize = 0;
    proof {
        assert(orig.len() == n as int);
        assert(orig.subrange(0, 0) =~= Seq::<(usize, Seq<Seq<u8>>)>::empty());
        assert(v.deep_view() =~= orig.subrange(0, orig.len() as int));
    }
    while v.len() > 0
        invariant
            orig.len() == n as int,
            i + v.len() == orig.len(),
            v.deep_view() =~= orig.subrange(i as int, orig.len() as int),
            out.deep_view() == sort_pairs_spec(orig.subrange(0, i as int), sel@, no_case),
            pairs_in_bounds(orig, sel@),
            pairs_in_bounds(out.deep_view(), sel@),
        decreases v.len(),
    {
        let ghost out_before = out.deep_view();
        let ghost vd_old = v@;
        let ghost dd_old = v.deep_view();
        let p = v.remove(0);
        proof {
            assert(p.deep_view() == dd_old[0]);
            assert(p.deep_view() == orig[i as int]);
            assert forall|j: int| 0 <= j < v@.len() implies v.deep_view()[j] == dd_old[j + 1] by {
                assert(v@[j] == vd_old.remove(0)[j]);
                assert(vd_old.remove(0)[j] == vd_old[j + 1]);
            }
            assert(v.deep_view() =~= orig.subrange(i as int + 1, orig.len() as int));
            assert(row_in_bounds(p.1.deep_view(), sel@));
        }
        let mut pos: usize = out.len();
        while pos > 0 && !le_at(&out, pos - 1, &p, sel, no_case)
            invariant
                pos <= out.len(),
                out.deep_view() == out_before,
                pairs_in_bounds(out.deep_view(), sel@),
                row_in_bounds(p.1.deep_view(), sel@),
                forall|j: int|
                    pos <= j < out.deep_view().len() ==> !pair_le(
                        #[trigger] out.deep_view()[j],
                        p.deep_view(),
                        sel@,
                        no_case,
                    ),
            decreases pos,
        {
            pos -= 1;
        }
        proof {
            lemma_insert_characterize(p.deep_view(), out_before, sel@, no_case, pos as int);
        }
        out.insert(pos, p);
        i += 1;
        proof {
            assert(out.deep_view() =~= out_before.subrange(0, pos as int) + seq![p.deep_view()]
                + out_before.subrange(pos as int, out_before.len() as int));
            assert(orig.subrange(0, i as int).drop_last() =~= orig.subrange(0, i as int - 1));
            assert(orig.subrange(0, i as int).last() == orig[i as int - 1]);
            assert(out.deep_view() == sort_pairs_spec(orig.subrange(0, i as int), sel@, no_case));
            assert forall|j: int| 0 <= j < out.deep_view().len() implies row_in_bounds(
                (#[trigger] out.deep_view()[j]).1,
                sel@,
            ) by {
                if j < pos {
                    assert(out.deep_view()[j] == out_before[j]);
                } else if j > pos {
                    assert(out.deep_view()[j] == out_before[j - 1]);
                }
            }
        }
    }
    proof {
        assert(orig.subrange(0, i as int) =~= orig);
    }
    out
}

} // verus!
