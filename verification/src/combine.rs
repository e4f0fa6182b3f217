//! Merging the per-point tables into one combined table: the first table's
//! header once, then every table's data rows in order.

use vstd::prelude::*;
use vstd::string::*;
use crate::table::{canonical_csv, enc_table, encode_csv, lemma_enc_table_injective, no_empty_rows,
    parse_csv};

verus! {

/// All data rows (everything after each header) of a list of tables,
/// concatenated in list order.
pub open spec fn concat_data_rows(ts: Seq<Seq<Seq<Seq<char>>>>) -> Seq<Seq<Seq<char>>>
    decreases ts.len(),
{
    if ts.len() == 0 {
        Seq::<Seq<Seq<char>>>::empty()
    } else {
        concat_data_rows(ts.drop_last()) + ts.last().skip(1)
    }
}

/// The combined table: the first table's header row, then all data rows of
/// every table, in list order.
pub open spec fn combine_spec(ts: Seq<Seq<Seq<Seq<char>>>>) -> Seq<Seq<Seq<char>>> {
    if ts.len() == 0 {
        Seq::<Seq<Seq<char>>>::empty()
    } else {
        seq![ts[0][0]] + concat_data_rows(ts)
    }
}

/// The total number of data rows over a list of tables, each table counted
/// without its header row.
pub open spec fn total_data_rows(ts: Seq<Seq<Seq<Seq<char>>>>) -> int
    decreases ts.len(),
{
    if ts.len() == 0 {
        0
    } else {
        total_data_rows(ts.drop_last()) + (ts.last().len() - 1)
    }
}

/// Row count invariant: the combined table holds one header row plus, for
/// each input table, exactly that table's data rows.
pub proof fn lemma_combined_row_count(ts: Seq<Seq<Seq<Seq<char>>>>)
    requires
        forall|i: int| 0 <= i < ts.len() ==> (#[trigger] ts[i]).len() >= 1,
    ensures
        ts.len() > 0 ==> combine_spec(ts).len() == 1 + total_data_rows(ts),
        ts.len() == 0 ==> combine_spec(ts).len() == 0,
{
    lemma_concat_data_rows_len(ts);
}

proof fn lemma_concat_data_rows_len(ts: Seq<Seq<Seq<Seq<char>>>>)
    requires
        forall|i: int| 0 <= i < ts.len() ==> (#[trigger] ts[i]).len() >= 1,
    ensures
        concat_data_rows(ts).len() == total_data_rows(ts),
    decreases ts.len(),
{
    if ts.len() > 0 {
        lemma_concat_data_rows_len(ts.drop_last());
    }
}

pub(crate) fn push_row(out: &mut Vec<Vec<String>>, row: &Vec<String>)
    ensures
        final(out)@.len() == old(out)@.len() + 1,
        final(out).deep_view() == old(out).deep_view().push(row.deep_view()),
{
    let ghost prev = out@;
    let ghost prev_dv = out.deep_view();
    let rc = row.clone();
    proof {
        assert forall|k: int| 0 <= k < row@.len() implies rc@[k] == row@[k] by {
            assert(vstd::pervasive::cloned::<String>(row@[k], rc@[k]));
        }
        assert(rc@ =~= row@);
    }
    out.push(rc);
    proof {
        assert forall|k: int|
            0 <= k < out@.len() implies out.deep_view()[k] == prev_dv.push(row.deep_view())[k] by {
            assert(out.deep_view()[k] == out@[k].deep_view());
            if k == out@.len() - 1 {
                assert(out@[k] == rc);
            } else {
                assert(out@[k] == prev[k]);
                assert(prev_dv[k] == prev[k].deep_view());
            }
        }
        assert(out.deep_view() =~= prev_dv.push(row.deep_view()));
    }
}

/// Combines the per-point tables, each with its header as first row, into
/// one table: the first header once, then all data rows in input order.
pub fn combine_tables(tables: &Vec<Vec<Vec<String>>>) -> (out: Vec<Vec<String>>)
    requires
        forall|i: int| 0 <= i < tables@.len() ==> (#[trigger] tables@[i])@.len() >= 1,
    ensures
        out.deep_view() == combine_spec(tables.deep_view()),
{
    let ghost tdv = tables.deep_view();
    proof {
        assert forall|i: int| 0 <= i < tdv.len() implies (#[trigger] tdv[i]).len() >= 1 by {
            assert(tdv[i] == tables@[i].deep_view());
        }
    }
    let mut out: Vec<Vec<String>> = Vec::new();
    if tables.len() == 0 {
        assert(out.deep_view() =~= combine_spec(tdv));
        return out;
    }
    assert(tables@[0].deep_view() == tdv[0]);
    assert(tables@[0].deep_view()[0] == tables@[0]@[0].deep_view());
    push_row(&mut out, &tables[0][0]);
    assert(out.deep_view() =~= seq![tdv[0][0]] + concat_data_rows(tdv.take(0)));
    let mut i: usize = 0;
    while i < tables.len()
        invariant
            i <= tables@.len(),
            tdv == tables.deep_view(),
            tdv.len() == tables@.len(),
            forall|k: int| 0 <= k < tdv.len() ==> (#[trigger] tdv[k]).len() >= 1,
            tdv.len() > 0,
            out.deep_view() =~= seq![tdv[0][0]] + concat_data_rows(tdv.take(i as int)),
        decreases tables@.len() - i,
    {
        let t = &tables[i];
        assert(t.deep_view() == tdv[i as int]);
        let ghost tv = t.deep_view();
        let mut j: usize = 1;
        while j < t.len()
            invariant
                1 <= j <= t@.len(),
                tv == t.deep_view(),
                tv.len() == t@.len(),
                tv.len() >= 1,
                out.deep_view() =~= seq![tdv[0][0]] + concat_data_rows(tdv.take(i as int))
                    + tv.subrange(1, j as int),
            decreases t@.len() - j,
        {
            assert(t@[j as int].deep_view() == tv[j as int]);
            push_row(&mut out, &t[j]);
            j = j + 1;
            proof {
                assert(tv.subrange(1, j as int).drop_last() =~= tv.subrange(1, j - 1));
                assert(tv.subrange(1, j as int).last() == tv[j - 1]);
                assert(out.deep_view() =~= seq![tdv[0][0]] + concat_data_rows(
                    tdv.take(i as int),
                ) + tv.subrange(1, j as int));
            }
        }
        i = i + 1;
        proof {
            assert(tv.subrange(1, tv.len() as int) =~= tv.skip(1));
            let tk = tdv.take(i as int);
            assert(tk.drop_last() =~= tdv.take(i - 1));
            assert(tk.last() == tdv[i - 1]);
            assert(concat_data_rows(tk) == concat_data_rows(tdv.take(i - 1)) + tv.skip(1));
            assert(out.deep_view() =~= seq![tdv[0][0]] + concat_data_rows(tdv.take(i as int)));
        }
    }
    proof {
        assert(tdv.take(tdv.len() as int) =~= tdv);
        assert(out.deep_view() =~= combine_spec(tdv));
    }
    out
}

/// The combined text `out` is what combining tables `ts`, read one from
/// each input text, encodes to.
pub open spec fn combines_to(
    inputs: Seq<Seq<char>>,
    ts: Seq<Seq<Seq<Seq<char>>>>,
    out: Seq<char>,
) -> bool {
    &&& ts.len() == inputs.len()
    &&& (forall|i: int| 0 <= i < ts.len() ==> enc_table(#[trigger] ts[i]) == inputs[i])
    &&& (forall|i: int| 0 <= i < ts.len() ==> (#[trigger] ts[i]).len() >= 1)
    &&& (forall|i: int| 0 <= i < ts.len() ==> no_empty_rows(#[trigger] ts[i]))
    &&& out == enc_table(combine_spec(ts))
}

/// An input text the combiner accepts: the canonical encoding of a table
/// with a header row (and no zero-field rows).
pub open spec fn combinable_input(s: Seq<char>) -> bool {
    exists|t: Seq<Seq<Seq<char>>>|
        (#[trigger] enc_table(t)) == s && no_empty_rows(t) && t.len() >= 1
}

/// The combined text is a function of the input texts: the tables behind a
/// combined output are unique, because the canonical encoding is
/// injective.
pub proof fn lemma_combined_output_deterministic(
    inputs: Seq<Seq<char>>,
    out1: Seq<char>,
    out2: Seq<char>,
)
    requires
        combined_output(inputs, out1),
        combined_output(inputs, out2),
    ensures
        out1 == out2,
{
    let ts1 = choose|ts: Seq<Seq<Seq<Seq<char>>>>| #[trigger] combines_to(inputs, ts, out1);
    let ts2 = choose|ts: Seq<Seq<Seq<Seq<char>>>>| #[trigger] combines_to(inputs, ts, out2);
    assert forall|i: int| 0 <= i < ts1.len() implies ts1[i] == ts2[i] by {
        assert(enc_table(ts1[i]) == inputs[i]);
        assert(enc_table(ts2[i]) == inputs[i]);
        lemma_enc_table_injective(ts1[i], ts2[i]);
    }
    assert(ts1 =~= ts2);
}

/// Some tables, one read from each input text, combine and encode to `out`.
pub open spec fn combined_output(inputs: Seq<Seq<char>>, out: Seq<char>) -> bool {
    exists|ts: Seq<Seq<Seq<Seq<char>>>>| #[trigger] combines_to(inputs, ts, out)
}

/// Combines the per-point files' text into the combined file's text: each
/// input is parsed, the tables are merged header-first, and the result is
/// re-encoded. Succeeds exactly when every input is the canonical encoding
/// of a table with a header row; the output is then the combined tables'
/// encoding, which the inputs determine
/// (`lemma_combined_output_deterministic`).
pub fn combine_csv_files(input_files: &Vec<String>) -> (r: Option<String>)
    ensures
        r matches Some(out) ==> combined_output(input_files.deep_view(), out@),
        r is Some <==> (forall|i: int|
            0 <= i < input_files@.len() ==> combinable_input(
                #[trigger] input_files.deep_view()[i],
            )),
{
    let mut tabs: Vec<Vec<Vec<String>>> = Vec::new();
    let mut i: usize = 0;
    while i < input_files.len()
        invariant
            i <= input_files@.len(),
            tabs@.len() == i,
            forall|k: int|
                0 <= k < i ==> enc_table(#[trigger] tabs.deep_view()[k])
                    == input_files.deep_view()[k],
            forall|k: int| 0 <= k < i ==> (#[trigger] tabs.deep_view()[k]).len() >= 1,
            forall|k: int| 0 <= k < i ==> no_empty_rows(#[trigger] tabs.deep_view()[k]),
            forall|k: int| 0 <= k < i ==> (#[trigger] tabs@[k])@.len() >= 1,
            forall|k: int|
                0 <= k < i ==> combinable_input(#[trigger] input_files.deep_view()[k]),
        decreases input_files@.len() - i,
    {
        let ghost input_view = input_files.deep_view()[i as int];
        proof {
            assert(input_view == input_files@[i as int]@);
        }
        let t = match parse_csv(input_files[i].as_str()) {
            Some(t) => t,
            None => {
                proof {
                    assert(!canonical_csv(input_view));
                    if combinable_input(input_view) {
                        let tw = choose|t: Seq<Seq<Seq<char>>>|
                            (#[trigger] enc_table(t)) == input_view && no_empty_rows(t)
                                && t.len() >= 1;
                        assert(canonical_csv(input_view));
                        assert(false);
                    }
                }
                return None;
            },
        };
        if t.len() == 0 {
            proof {
                let ghost t_dv = t.deep_view();
                assert(t_dv.len() == 0);
                if combinable_input(input_view) {
                    let tw = choose|tc: Seq<Seq<Seq<char>>>|
                        (#[trigger] enc_table(tc)) == input_view && no_empty_rows(tc) && tc.len()
                            >= 1;
                    lemma_enc_table_injective(tw, t_dv);
                    assert(false);
                }
            }
            return None;
        }
        let ghost prev = tabs@;
        let ghost prev_dv = tabs.deep_view();
        let ghost t_dv = t.deep_view();
        proof {
            assert((#[trigger] enc_table(t_dv)) == input_view);
            assert(combinable_input(input_view));
        }
        tabs.push(t);
        i = i + 1;
        proof {
            assert forall|k: int|
                0 <= k < i implies enc_table(#[trigger] tabs.deep_view()[k])
                == input_files.deep_view()[k] && (tabs.deep_view()[k]).len() >= 1
                && no_empty_rows(tabs.deep_view()[k]) && (tabs@[k])@.len() >= 1 by {
                assert(tabs.deep_view()[k] == tabs@[k].deep_view());
                if k == i - 1 {
                    assert(tabs@[k].deep_view() == t_dv);
                } else {
                    assert(tabs@[k] == prev[k]);
                    assert(prev_dv[k] == prev[k].deep_view());
                }
            }
        }
    }
    let combined = combine_tables(&tabs);
    let out = encode_csv(&combined);
    proof {
        let ts = tabs.deep_view();
        assert(ts.len() == input_files@.len());
        assert(combines_to(input_files.deep_view(), ts, out@));
        assert(combined_output(input_files.deep_view(), out@));
    }
    Some(out)
}

} // verus!
