//! The latest-issuance view of a combined table: keep only the rows of the
//! most recent issued date, drop rows without a validity timestamp, sort
//! ascending by point and validity time, and project to the reporting
//! columns.

use vstd::prelude::*;
use vstd::string::*;
use vstd::multiset::Multiset;
use crate::combine::push_row;
use crate::response::header_row;

verus! {

broadcast use vstd::seq_lib::group_to_multiset_ensures;

/// How post-processing can fail.
#[derive(Clone, Copy, Debug, PartialEq, Eq, Structural)]
pub enum ProcessError {
    /// The issued-date column is entirely null: no latest issuance exists.
    NoIssuance,
}

/// Lexicographic order on strings by code point, the order std gives
/// strings.
pub open spec fn lex_le(x: Seq<char>, y: Seq<char>) -> bool
    decreases x.len(),
{
    if x.len() == 0 {
        true
    } else if y.len() == 0 {
        false
    } else if (x[0] as u32) < (y[0] as u32) {
        true
    } else if (x[0] as u32) > (y[0] as u32) {
        false
    } else {
        lex_le(x.drop_first(), y.drop_first())
    }
}

/// The order is total.
pub proof fn lemma_lex_le_total(x: Seq<char>, y: Seq<char>)
    ensures
        lex_le(x, y) || lex_le(y, x),
    decreases x.len(),
{
    if x.len() > 0 && y.len() > 0 && (x[0] as u32) == (y[0] as u32) {
        lemma_lex_le_total(x.drop_first(), y.drop_first());
    }
}

proof fn lemma_char_eq_from_u32(c1: char, c2: char)
    requires
        c1 as u32 == c2 as u32,
    ensures
        c1 == c2,
{
}

/// The order is antisymmetric.
pub proof fn lemma_lex_le_antisym(x: Seq<char>, y: Seq<char>)
    requires
        lex_le(x, y),
        lex_le(y, x),
    ensures
        x == y,
    decreases x.len(),
{
    if x.len() == 0 {
        assert(y.len() == 0);
        assert(x =~= y);
    } else {
        assert(y.len() > 0);
        if (x[0] as u32) < (y[0] as u32) {
            assert(!lex_le(y, x));
            assert(false);
        } else if (x[0] as u32) > (y[0] as u32) {
            assert(!lex_le(x, y));
            assert(false);
        }
        assert((x[0] as u32) == (y[0] as u32));
        lemma_char_eq_from_u32(x[0], y[0]);
        assert(x[0] == y[0]);
        lemma_lex_le_antisym(x.drop_first(), y.drop_first());
        assert(x =~= y) by {
            assert(x.len() == y.len());
            assert(forall|i: int|
                1 <= i < x.len() ==> x[i] == x.drop_first()[i - 1] && y[i] == y.drop_first()[i
                    - 1]);
        }
    }
}

/// The order is transitive.
pub proof fn lemma_lex_le_trans(x: Seq<char>, y: Seq<char>, z: Seq<char>)
    requires
        lex_le(x, y),
        lex_le(y, z),
    ensures
        lex_le(x, z),
    decreases x.len(),
{
    if x.len() > 0 && z.len() > 0 {
        assert(y.len() > 0);
        if (x[0] as u32) == (y[0] as u32) && (y[0] as u32) == (z[0] as u32) {
            lemma_lex_le_trans(x.drop_first(), y.drop_first(), z.drop_first());
        }
    }
}

/// Compares two strings in the order `lex_le` describes.
pub fn lex_le_exec(a: &str, b: &str) -> (r: bool)
    ensures
        r == lex_le(a@, b@),
{
    let na = a.unicode_len();
    let nb = b.unicode_len();
    let mut k: usize = 0;
    assert(a@.skip(0) =~= a@);
    assert(b@.skip(0) =~= b@);
    while k < na && k < nb
        invariant
            na == a@.len(),
            nb == b@.len(),
            k <= na,
            k <= nb,
            lex_le(a@, b@) == lex_le(a@.skip(k as int), b@.skip(k as int)),
        decreases na - k,
    {
        let ca = a.get_char(k);
        let cb = b.get_char(k);
        proof {
            let sa = a@.skip(k as int);
            let sb = b@.skip(k as int);
            assert(sa[0] == a@[k as int]);
            assert(sb[0] == b@[k as int]);
            assert(sa.drop_first() =~= a@.skip(k + 1));
            assert(sb.drop_first() =~= b@.skip(k + 1));
        }
        if (ca as u32) < (cb as u32) {
            return true;
        }
        if (ca as u32) > (cb as u32) {
            return false;
        }
        k = k + 1;
    }
    proof {
        if k >= na {
            assert(a@.skip(k as int).len() == 0);
        } else {
            assert(b@.skip(k as int).len() == 0);
            assert(a@.skip(k as int).len() > 0);
        }
    }
    k >= na
}

/// The sort key order on rows: by point identifier, then by validity
/// timestamp text.
pub open spec fn row_key_le(a: Seq<Seq<char>>, b: Seq<Seq<char>>) -> bool {
    if a[0] == b[0] {
        lex_le(a[4], b[4])
    } else {
        lex_le(a[0], b[0])
    }
}

/// The row order is total.
pub proof fn lemma_row_key_le_total(a: Seq<Seq<char>>, b: Seq<Seq<char>>)
    ensures
        row_key_le(a, b) || row_key_le(b, a),
{
    lemma_lex_le_total(a[0], b[0]);
    lemma_lex_le_total(a[4], b[4]);
}

/// The row order is transitive.
pub proof fn lemma_row_key_le_trans(a: Seq<Seq<char>>, b: Seq<Seq<char>>, c: Seq<Seq<char>>)
    requires
        row_key_le(a, b),
        row_key_le(b, c),
    ensures
        row_key_le(a, c),
{
    if a[0] == b[0] && b[0] == c[0] {
        lemma_lex_le_trans(a[4], b[4], c[4]);
    } else if a[0] == b[0] {
    } else if b[0] == c[0] {
    } else {
        lemma_lex_le_trans(a[0], b[0], c[0]);
        if a[0] == c[0] {
            lemma_lex_le_antisym(a[0], b[0]);
        }
    }
}

fn row_key_le_exec(x: &Vec<String>, y: &Vec<String>) -> (r: bool)
    requires
        x@.len() >= 5,
        y@.len() >= 5,
    ensures
        r == row_key_le(x.deep_view(), y.deep_view()),
{
    proof {
        assert(x.deep_view()[0] == x@[0]@);
        assert(y.deep_view()[0] == y@[0]@);
        assert(x.deep_view()[4] == x@[4]@);
        assert(y.deep_view()[4] == y@[4]@);
    }
    if x[0].eq(&y[0]) {
        lex_le_exec(x[4].as_str(), y[4].as_str())
    } else {
        lex_le_exec(x[0].as_str(), y[0].as_str())
    }
}

/// The issued-date text of a combined row.
pub open spec fn issued_of(r: Seq<Seq<char>>) -> Seq<char> {
    r[3]
}

/// The validity-timestamp text of a combined row.
pub open spec fn valid_of(r: Seq<Seq<char>>) -> Seq<char> {
    r[4]
}

/// The latest issued-date text over the data rows; empty when every row's
/// issued date is null.
pub open spec fn max_issued(data: Seq<Seq<Seq<char>>>) -> Seq<char>
    decreases data.len(),
{
    if data.len() == 0 {
        Seq::<char>::empty()
    } else {
        let m = max_issued(data.drop_last());
        if lex_le(m, issued_of(data.last())) {
            issued_of(data.last())
        } else {
            m
        }
    }
}

/// Every row's issued date is null (empty text).
pub open spec fn all_issued_empty(data: Seq<Seq<Seq<char>>>) -> bool {
    forall|i: int| 0 <= i < data.len() ==> issued_of(#[trigger] data[i]).len() == 0
}

/// The latest issuance is empty exactly when the whole column is null.
pub proof fn lemma_max_issued_empty(data: Seq<Seq<Seq<char>>>)
    ensures
        max_issued(data).len() == 0 <==> all_issued_empty(data),
    decreases data.len(),
{
    if data.len() > 0 {
        lemma_max_issued_empty(data.drop_last());
        assert(forall|i: int|
            0 <= i < data.len() - 1 ==> data.drop_last()[i] == #[trigger] data[i]);
        if max_issued(data).len() == 0 {
            assert(issued_of(data.last()).len() == 0 || max_issued(data.drop_last()).len()
                == 0);
            if !lex_le(max_issued(data.drop_last()), issued_of(data.last())) {
                assert(max_issued(data) == max_issued(data.drop_last()));
                assert(all_issued_empty(data.drop_last()));
                assert(lex_le(Seq::<char>::empty(), issued_of(data.last())));
                assert(false);
            }
        }
        if all_issued_empty(data) {
            assert(all_issued_empty(data.drop_last()));
            assert(issued_of(data.last()).len() == 0);
        }
    }
}

/// A row kept by the latest-issuance filter: its issued date equals the
/// maximum and its validity timestamp is not null.
pub open spec fn keep_row(r: Seq<Seq<char>>, m: Seq<char>) -> bool {
    issued_of(r) == m && valid_of(r).len() != 0
}

/// The reporting projection of a combined row: its first seven columns.
pub open spec fn project_row(r: Seq<Seq<char>>) -> Seq<Seq<char>> {
    r.take(7)
}

/// The kept rows, projected, in input order.
pub open spec fn proj_filtered(data: Seq<Seq<Seq<char>>>, m: Seq<char>) -> Seq<Seq<Seq<char>>>
    decreases data.len(),
{
    if data.len() == 0 {
        Seq::<Seq<Seq<char>>>::empty()
    } else {
        proj_filtered(data.drop_last(), m) + (if keep_row(data.last(), m) {
            seq![project_row(data.last())]
        } else {
            Seq::<Seq<Seq<char>>>::empty()
        })
    }
}

/// The processed table's header: the reporting columns.
pub open spec fn processed_header() -> Seq<Seq<char>> {
    header_row().take(7)
}

/// Rows in ascending `(point_id, validity time)` order.
pub open spec fn sorted_rows(s: Seq<Seq<Seq<char>>>) -> bool {
    forall|i: int, j: int| 0 <= i < j < s.len() ==> row_key_le(#[trigger] s[i], #[trigger] s[j])
}

fn sort_rows(rows: Vec<Vec<String>>) -> (out: Vec<Vec<String>>)
    requires
        forall|i: int| 0 <= i < rows@.len() ==> (#[trigger] rows@[i])@.len() >= 5,
    ensures
        out.deep_view().to_multiset() == rows.deep_view().to_multiset(),
        sorted_rows(out.deep_view()),
        out@.len() == rows@.len(),
{
    let ghost orig = rows.deep_view();
    let mut rest = rows;
    let mut out: Vec<Vec<String>> = Vec::new();
    proof {
        assert(out.deep_view() =~= Seq::<Seq<Seq<char>>>::empty());
        assert(out.deep_view().to_multiset().add(rest.deep_view().to_multiset())
            =~= orig.to_multiset());
    }
    while rest.len() > 0
        invariant
            forall|i: int| 0 <= i < rest@.len() ==> (#[trigger] rest@[i])@.len() >= 5,
            out.deep_view().to_multiset().add(rest.deep_view().to_multiset())
                == orig.to_multiset(),
            sorted_rows(out.deep_view()),
            forall|i: int, j: int|
                0 <= i < out@.len() && 0 <= j < rest@.len() ==> row_key_le(
                    #[trigger] out.deep_view()[i],
                    #[trigger] rest.deep_view()[j],
                ),
            out@.len() + rest@.len() == orig.len(),
        decreases rest@.len(),
    {
        let ghost rdv0 = rest.deep_view();
        let mut m: usize = 0;
        let mut k: usize = 1;
        proof {
            lemma_row_key_le_total(rdv0[0], rdv0[0]);
        }
        while k < rest.len()
            invariant
                m < k,
                k <= rest@.len(),
                m < rest@.len(),
                rdv0 == rest.deep_view(),
                forall|i: int| 0 <= i < rest@.len() ==> (#[trigger] rest@[i])@.len() >= 5,
                forall|l: int| 0 <= l < k ==> row_key_le(rdv0[m as int], #[trigger] rdv0[l]),
            decreases rest@.len() - k,
        {
            if row_key_le_exec(&rest[k], &rest[m]) {
                proof {
                    assert forall|l: int| 0 <= l < k + 1 implies row_key_le(
                        rdv0[k as int],
                        #[trigger] rdv0[l],
                    ) by {
                        if l < k {
                            lemma_row_key_le_trans(rdv0[k as int], rdv0[m as int], rdv0[l]);
                        } else {
                            lemma_row_key_le_total(rdv0[k as int], rdv0[k as int]);
                        }
                    }
                }
                m = k;
            } else {
                proof {
                    lemma_row_key_le_total(rdv0[m as int], rdv0[k as int]);
                }
            }
            k = k + 1;
        }
        let ghost out_dv0 = out.deep_view();
        let ghost prev_vec = rest@;
        let picked = rest.remove(m);
        proof {
            assert forall|j: int| 0 <= j < rest@.len() implies rest.deep_view()[j] == rdv0.remove(
                m as int,
            )[j] by {
                assert(rest.deep_view()[j] == rest@[j].deep_view());
                assert(rest@[j] == prev_vec.remove(m as int)[j]);
                if j < m {
                    assert(rest@[j] == prev_vec[j]);
                    assert(rdv0[j] == prev_vec[j].deep_view());
                } else {
                    assert(rest@[j] == prev_vec[j + 1]);
                    assert(rdv0[j + 1] == prev_vec[j + 1].deep_view());
                }
            }
            assert(rest.deep_view() =~= rdv0.remove(m as int));
        }
        push_row(&mut out, &picked);
        proof {
            assert(picked.deep_view() == rdv0[m as int]);
            assert(out.deep_view() == out_dv0.push(rdv0[m as int]));
            // multiset bookkeeping: one element moved from rest to out
            assert(out.deep_view().to_multiset() =~= out_dv0.to_multiset().insert(
                rdv0[m as int],
            ));
            assert(rdv0.remove(m as int).to_multiset() =~= rdv0.to_multiset().remove(
                rdv0[m as int],
            ));
            assert(rdv0.to_multiset().count(rdv0[m as int]) > 0) by {
                assert(rdv0.contains(rdv0[m as int]));
            }
            assert(out.deep_view().to_multiset().add(rest.deep_view().to_multiset())
                =~= out_dv0.to_multiset().add(rdv0.to_multiset()));
            // order bookkeeping: the picked row is below everything left
            assert forall|i: int, j: int|
                0 <= i < out@.len() && 0 <= j < rest@.len() implies row_key_le(
                #[trigger] out.deep_view()[i],
                #[trigger] rest.deep_view()[j],
            ) by {
                let rj = rest.deep_view()[j];
                assert(rj == rdv0.remove(m as int)[j]);
                assert(rj == if j < m {
                    rdv0[j]
                } else {
                    rdv0[j + 1]
                });
                if i < out@.len() - 1 {
                    assert(row_key_le(out_dv0[i], rj));
                } else {
                    assert(out.deep_view()[i] == rdv0[m as int]);
                    assert(row_key_le(rdv0[m as int], rj));
                }
            }
            assert(sorted_rows(out.deep_view())) by {
                assert forall|i: int, j: int|
                    0 <= i < j < out@.len() implies row_key_le(
                    #[trigger] out.deep_view()[i],
                    #[trigger] out.deep_view()[j],
                ) by {
                    if j < out@.len() - 1 {
                        assert(row_key_le(out_dv0[i], out_dv0[j]));
                    } else {
                        assert(out.deep_view()[j] == rdv0[m as int]);
                        assert(row_key_le(out_dv0[i], rdv0[m as int]));
                    }
                }
            }
            // row widths preserved after the removal
            assert forall|i: int| 0 <= i < rest@.len() implies (#[trigger] rest@[i])@.len()
                >= 5 by {
                assert(rest@[i] == prev_vec.remove(m as int)[i]);
                if i < m {
                    assert(rest@[i] == prev_vec[i]);
                } else {
                    assert(rest@[i] == prev_vec[i + 1]);
                }
            }
        }
    }
    proof {
        assert(rest.deep_view() =~= Seq::<Seq<Seq<char>>>::empty());
        assert(out.deep_view().to_multiset().add(Multiset::<Seq<Seq<char>>>::empty())
            =~= out.deep_view().to_multiset());
    }
    out
}

/// Builds the processed table's header row.
pub fn processed_header_exec() -> (r: Vec<String>)
    ensures
        r.deep_view() == processed_header(),
{
    let mut v: Vec<String> = Vec::new();
    v.push("point_id".to_owned());
    v.push("lat".to_owned());
    v.push("long".to_owned());
    v.push("idp_issueddate_iso".to_owned());
    v.push("idp_validtime_iso".to_owned());
    v.push("value".to_owned());
    v.push("requested_on".to_owned());
    proof {
        assert(v.deep_view() =~= processed_header());
    }
    v
}

/// Produces the latest-issuance view of a combined table: only the rows of
/// the greatest issued-date text are kept, rows without a validity
/// timestamp are dropped, the rest are sorted ascending by point and
/// validity time and projected to the reporting columns. Fails exactly when
/// the issued-date column is entirely null.
pub fn process_table(table: &Vec<Vec<String>>) -> (r: Result<Vec<Vec<String>>, ProcessError>)
    requires
        table@.len() >= 1,
        table.deep_view()[0] == header_row(),
        forall|i: int| 0 <= i < table@.len() ==> (#[trigger] table@[i])@.len() == 34,
    ensures
        r is Ok <==> !all_issued_empty(table.deep_view().skip(1)),
        r matches Ok(out) ==> ({
            let data = table.deep_view().skip(1);
            let pf = proj_filtered(data, max_issued(data));
            &&& out.deep_view().len() == pf.len() + 1
            &&& out.deep_view()[0] == processed_header()
            &&& out.deep_view().skip(1).to_multiset() == pf.to_multiset()
            &&& sorted_rows(out.deep_view().skip(1))
        }),
{
    let ghost tdv = table.deep_view();
    let ghost ddv = table.deep_view().skip(1);
    proof {
        assert forall|i: int| 0 <= i < ddv.len() implies (#[trigger] ddv[i]).len() == 34 by {
            assert(ddv[i] == tdv[i + 1]);
            assert(tdv[i + 1] == table@[i + 1].deep_view());
        }
    }
    let n = table.len();
    // the greatest issued-date text; empty strings (nulls) never win
    let mut max_s: String = String::new();
    let mut i: usize = 1;
    assert(ddv.take(0) =~= Seq::<Seq<Seq<char>>>::empty());
    while i < n
        invariant
            1 <= i <= n,
            n == table@.len(),
            tdv == table.deep_view(),
            ddv == tdv.skip(1),
            ddv.len() == n - 1,
            forall|k: int| 0 <= k < n ==> (#[trigger] table@[k])@.len() == 34,
            max_s@ == max_issued(ddv.take(i - 1)),
        decreases n - i,
    {
        let row = &table[i];
        proof {
            assert(row.deep_view() == tdv[i as int]);
            assert(row.deep_view()[3] == row@[3]@);
        }
        if lex_le_exec(max_s.as_str(), row[3].as_str()) {
            max_s = row[3].clone();
        }
        i = i + 1;
        proof {
            let t = ddv.take(i - 1);
            assert(t.drop_last() =~= ddv.take(i - 2));
            assert(t.last() == ddv[i - 2]);
            assert(ddv[i - 2] == tdv[i - 1]);
            assert(max_s@ == max_issued(t));
        }
    }
    proof {
        assert(ddv.take(ddv.len() as int) =~= ddv);
        lemma_max_issued_empty(ddv);
    }
    if max_s.as_str().is_empty() {
        return Err(ProcessError::NoIssuance);
    }
    // the kept rows, projected to the reporting columns
    let mut pf: Vec<Vec<String>> = Vec::new();
    let mut i2: usize = 1;
    assert(pf.deep_view() =~= proj_filtered(ddv.take(0), max_s@));
    while i2 < n
        invariant
            1 <= i2 <= n,
            n == table@.len(),
            tdv == table.deep_view(),
            ddv == tdv.skip(1),
            ddv.len() == n - 1,
            forall|k: int| 0 <= k < n ==> (#[trigger] table@[k])@.len() == 34,
            pf.deep_view() =~= proj_filtered(ddv.take(i2 - 1), max_s@),
            forall|j: int| 0 <= j < pf@.len() ==> (#[trigger] pf.deep_view()[j]).len() == 7,
        decreases n - i2,
    {
        let row = &table[i2];
        proof {
            assert(row.deep_view() == tdv[i2 as int]);
            assert(row.deep_view()[3] == row@[3]@);
            assert(row.deep_view()[4] == row@[4]@);
        }
        let ghost pf_dv0 = pf.deep_view();
        if row[3].eq(&max_s) && !row[4].as_str().is_empty() {
            let mut r7: Vec<String> = Vec::new();
            r7.push(row[0].clone());
            r7.push(row[1].clone());
            r7.push(row[2].clone());
            r7.push(row[3].clone());
            r7.push(row[4].clone());
            r7.push(row[5].clone());
            r7.push(row[6].clone());
            proof {
                assert(r7.deep_view() =~= project_row(tdv[i2 as int]));
            }
            push_row(&mut pf, &r7);
        }
        i2 = i2 + 1;
        proof {
            let t = ddv.take(i2 - 1);
            assert(t.drop_last() =~= ddv.take(i2 - 2));
            assert(t.last() == ddv[i2 - 2]);
            assert(ddv[i2 - 2] == tdv[i2 - 1]);
            assert(pf.deep_view() =~= proj_filtered(t, max_s@));
            assert forall|j: int| 0 <= j < pf@.len() implies (#[trigger] pf.deep_view()[j]).len()
                == 7 by {
                if j < pf_dv0.len() {
                    assert(pf.deep_view()[j] == pf_dv0[j]);
                }
            }
        }
    }
    proof {
        assert(ddv.take(ddv.len() as int) =~= ddv);
    }
    // sort ascending by point identifier and validity time
    proof {
        assert forall|j: int| 0 <= j < pf@.len() implies (#[trigger] pf@[j])@.len() >= 5 by {
            assert(pf.deep_view()[j] == pf@[j].deep_view());
        }
    }
    let ghost pf_dv = pf.deep_view();
    let sorted = sort_rows(pf);
    let mut out: Vec<Vec<String>> = Vec::new();
    let hdr = processed_header_exec();
    push_row(&mut out, &hdr);
    assert(out.deep_view() =~= seq![processed_header()] + sorted.deep_view().take(0));
    let mut j: usize = 0;
    while j < sorted.len()
        invariant
            j <= sorted@.len(),
            out.deep_view() =~= seq![processed_header()] + sorted.deep_view().take(j as int),
        decreases sorted@.len() - j,
    {
        proof {
            assert(sorted@[j as int].deep_view() == sorted.deep_view()[j as int]);
        }
        push_row(&mut out, &sorted[j]);
        j = j + 1;
        assert(out.deep_view() =~= seq![processed_header()] + sorted.deep_view().take(j as int));
    }
    proof {
        assert(sorted.deep_view().take(sorted@.len() as int) =~= sorted.deep_view());
        assert(out.deep_view().skip(1) =~= sorted.deep_view());
        assert(out.deep_view().skip(1).to_multiset() == proj_filtered(
            ddv,
            max_issued(ddv),
        ).to_multiset()) by {
            assert(pf_dv =~= proj_filtered(ddv, max_issued(ddv)));
        }
        assert(sorted_rows(out.deep_view().skip(1)));
    }
    Ok(out)
}

/// Whether a path's text ends in the `.csv` extension.
pub open spec fn ends_with_csv(s: Seq<char>) -> bool {
    s.len() >= 4 && s[s.len() - 4] == '.' && s[s.len() - 3] == 'c' && s[s.len() - 2] == 's'
        && s[s.len() - 1] == 'v'
}

/// The processed file's path: `_processed` inserted before the `.csv`
/// extension, or appended with the extension when the path has none.
pub open spec fn processed_path_spec(s: Seq<char>) -> Seq<char> {
    (if ends_with_csv(s) {
        s.take(s.len() - 4)
    } else {
        s
    }) + "_processed.csv"@
}

/// Derives the processed file's path from the combined file's path.
pub fn processed_path(path: &str) -> (r: String)
    ensures
        r@ == processed_path_spec(path@),
{
    let v = crate::text::chars_of(path);
    let n = v.len();
    let keep: usize = if n >= 4 && v[n - 4] == '.' && v[n - 3] == 'c' && v[n - 2] == 's' && v[n
        - 1] == 'v' {
        n - 4
    } else {
        n
    };
    let mut head: Vec<char> = Vec::new();
    let mut k: usize = 0;
    while k < keep
        invariant
            k <= keep,
            keep <= v@.len(),
            v@ == path@,
            head@ =~= path@.take(k as int),
        decreases keep - k,
    {
        head.push(v[k]);
        k = k + 1;
        assert(head@ =~= path@.take(k as int));
    }
    let mut s = crate::text::string_of(&head);
    s.append("_processed.csv");
    proof {
        if keep == v@.len() {
            assert(path@.take(path@.len() as int) =~= path@);
        }
        assert(s@ =~= processed_path_spec(path@));
    }
    s
}

} // verus!
