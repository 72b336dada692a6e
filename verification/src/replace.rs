//! Pattern replacement across the selected fields of each record: every
//! field at a selected position has all matches of a compiled pattern
//! replaced; the other fields pass through unchanged.

use vstd::prelude::*;

use crate::rows::{clone_field, sel_contains, selection_contains};

verus! {

#[verifier::external_type_specification]
#[verifier::external_body]
pub struct ExRegex(regex::bytes::Regex);

/// What `regex::bytes::Regex::replace_all` returns on a haystack, for a
/// regex built from `pattern` with the given flags and with `rep` as the
/// replacement: a function of those five values alone.
pub uninterp spec fn replaced(
    pattern: Seq<char>,
    case_insensitive: bool,
    unicode: bool,
    hay: Seq<u8>,
    rep: Seq<u8>,
) -> Seq<u8>;

/// A compiled pattern together with the inputs it was built from.
pub struct Matcher {
    re: regex::bytes::Regex,
    pattern: String,
    case_insensitive: bool,
    unicode: bool,
}

impl Matcher {
    /// The pattern this matcher was compiled from.
    pub closed spec fn pattern_view(&self) -> Seq<char> {
        self.pattern@
    }

    /// Whether the pattern was compiled case-insensitively.
    pub closed spec fn ci(&self) -> bool {
        self.case_insensitive
    }

    /// Whether the pattern was compiled with Unicode character classes.
    pub closed spec fn uni(&self) -> bool {
        self.unicode
    }
}

/// Relies on regex::bytes::RegexBuilder: `new(pattern)` followed by
/// `case_insensitive`, `unicode` and `build` compiles `pattern` under those
/// two flags, returning an error for an invalid pattern. The matcher
/// records the three build inputs beside the regex.
#[verifier::external_body]
pub fn compile(pattern: &str, case_insensitive: bool, unicode: bool) -> (r: Result<Matcher, String>)
    ensures
        r matches Ok(m) ==> m.pattern_view() == pattern@ && m.ci() == case_insensitive && m.uni()
            == unicode,
{
    match regex::bytes::RegexBuilder::new(pattern)
        .case_insensitive(case_insensitive)
        .unicode(unicode)
        .build() {
        Ok(re) => Ok(Matcher { re, pattern: pattern.to_string(), case_insensitive, unicode }),
        Err(e) => Err(format!("{:?}", e)),
    }
}

/// Relies on regex::bytes::Regex::replace_all: the result is a function of
/// the regex's pattern and flags, the haystack and the replacement alone,
/// named `replaced`. `compile` is the only constructor of `Matcher`, so
/// `re` was built from the recorded pattern and flags.
#[verifier::external_body]
fn replace_all(m: &Matcher, hay: &Vec<u8>, rep: &Vec<u8>) -> (r: Vec<u8>)
    ensures
        r@ == replaced(m.pattern_view(), m.ci(), m.uni(), hay@, rep@),
{
    m.re.replace_all(hay.as_slice(), rep.as_slice()).into_owned()
}

/// One record after replacement: each field at a selected position has all
/// matches of the pattern replaced, the other fields are unchanged.
pub open spec fn replace_row_spec(
    row: Seq<Seq<u8>>,
    sel: Seq<usize>,
    pattern: Seq<char>,
    case_insensitive: bool,
    unicode: bool,
    rep: Seq<u8>,
) -> Seq<Seq<u8>> {
    Seq::new(
        row.len(),
        |i: int|
            if sel_contains(sel, i as usize) {
                replaced(pattern, case_insensitive, unicode, row[i], rep)
            } else {
                row[i]
            },
    )
}

/// The whole dataset after replacement, record by record.
pub open spec fn replace_rows_spec(
    rows: Seq<Seq<Seq<u8>>>,
    sel: Seq<usize>,
    pattern: Seq<char>,
    case_insensitive: bool,
    unicode: bool,
    rep: Seq<u8>,
) -> Seq<Seq<Seq<u8>>> {
    Seq::new(
        rows.len(),
        |i: int| replace_row_spec(rows[i], sel, pattern, case_insensitive, unicode, rep),
    )
}

/// Applies the pattern to the selected fields of one record.
pub fn replace_record(rec: &Vec<Vec<u8>>, sel: &Vec<usize>, m: &Matcher, rep: &Vec<u8>) -> (out:
    Vec<Vec<u8>>)
    ensures
        out.deep_view() == replace_row_spec(
            rec.deep_view(),
            sel@,
            m.pattern_view(),
            m.ci(),
            m.uni(),
            rep@,
        ),
{
    let ghost target = replace_row_spec(
        rec.deep_view(),
        sel@,
        m.pattern_view(),
        m.ci(),
        m.uni(),
        rep@,
    );
    let mut out: Vec<Vec<u8>> = Vec::new();
    let mut i: usize = 0;
    while i < rec.len()
        invariant
            i <= rec.len(),
            target == replace_row_spec(
                rec.deep_view(),
                sel@,
                m.pattern_view(),
                m.ci(),
                m.uni(),
                rep@,
            ),
            out.deep_view() =~= target.subrange(0, i as int),
        decreases rec.len() - i,
    {
        proof {
            assert(rec.deep_view()[i as int] =~= rec@[i as int]@);
        }
        let f = if selection_contains(sel, i) {
            replace_all(m, &rec[i], rep)
        } else {
            clone_field(&rec[i])
        };
        let ghost prev = out.deep_view();
        proof {
            assert(f.deep_view() =~= f@);
            assert(f@ == target[i as int]);
        }
        out.push(f);
        i += 1;
        proof {
            assert(out.deep_view() =~= prev.push(f@));
            assert(out.deep_view() =~= target.subrange(0, i as int));
        }
    }
    proof {
        assert(out.deep_view() =~= target);
    }
    out
}

/// Applies the pattern to the selected fields of every record.
pub fn replace_rows(rows: &Vec<Vec<Vec<u8>>>, sel: &Vec<usize>, m: &Matcher, rep: &Vec<u8>) -> (out:
    Vec<Vec<Vec<u8>>>)
    ensures
        out.deep_view() == replace_rows_spec(
            rows.deep_view(),
            sel@,
            m.pattern_view(),
            m.ci(),
            m.uni(),
            rep@,
        ),
{
    let ghost target = replace_rows_spec(
        rows.deep_view(),
        sel@,
        m.pattern_view(),
        m.ci(),
        m.uni(),
        rep@,
    );
    let mut out: Vec<Vec<Vec<u8>>> = Vec::new();
    let mut i: usize = 0;
    while i < rows.len()
        invariant
            i <= rows.len(),
            target == replace_rows_spec(
                rows.deep_view(),
                sel@,
                m.pattern_view(),
                m.ci(),
                m.uni(),
                rep@,
            ),
            out.deep_view() =~= target.subrange(0, i as int),
        decreases rows.len() - i,
    {
        proof {
            assert(rows.deep_view()[i as int] =~= rows@[i as int].deep_view());
        }
        let r = replace_record(&rows[i], sel, m, rep);
        let ghost prev = out.deep_view();
        proof {
            assert(r.deep_view() == target[i as int]);
        }
        out.push(r);
        i += 1;
        proof {
            assert(out.deep_view() =~= prev.push(r.deep_view()));
            assert(out.deep_view() =~= target.subrange(0, i as int));
        }
    }
    proof {
        assert(out.deep_view() =~= target);
    }
    out
}

} // verus!
