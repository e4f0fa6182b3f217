//! Tabular text: encoding rows of fields as comma-separated lines, quoting
//! only where the field's content demands it.

use vstd::prelude::*;
use vstd::string::*;
use crate::text::{chars_of, string_of};

verus! {

/// A character that forces a field to be quoted: the delimiter, the quote
/// itself, or a record terminator.
pub open spec fn is_csv_special(c: char) -> bool {
    c == ',' || c == '"' || c == '\n' || c == '\r'
}

/// Whether a field must be quoted.
pub open spec fn field_needs_quote(f: Seq<char>) -> bool {
    exists|i: int| 0 <= i < f.len() && is_csv_special(#[trigger] f[i])
}

/// The field's content with every quote doubled.
pub open spec fn escape_quotes(f: Seq<char>) -> Seq<char>
    decreases f.len(),
{
    if f.len() == 0 {
        Seq::<char>::empty()
    } else {
        escape_quotes(f.drop_last()) + (if f.last() == '"' {
            seq!['"', '"']
        } else {
            seq![f.last()]
        })
    }
}

/// The encoding of one field: as is, or quoted with doubled inner quotes.
pub open spec fn enc_field(f: Seq<char>) -> Seq<char> {
    if field_needs_quote(f) {
        seq!['"'] + escape_quotes(f) + seq!['"']
    } else {
        f
    }
}

/// The encoding of one row: its fields' encodings joined by commas.
pub open spec fn enc_row(r: Seq<Seq<char>>) -> Seq<char>
    decreases r.len(),
{
    if r.len() == 0 {
        Seq::<char>::empty()
    } else if r.len() == 1 {
        enc_field(r[0])
    } else {
        enc_row(r.drop_last()) + seq![','] + enc_field(r.last())
    }
}

/// The encoding of a table: each row's encoding followed by a line feed.
pub open spec fn enc_table(t: Seq<Seq<Seq<char>>>) -> Seq<char>
    decreases t.len(),
{
    if t.len() == 0 {
        Seq::<char>::empty()
    } else {
        enc_table(t.drop_last()) + enc_row(t.last()) + seq!['\n']
    }
}

fn needs_quote_exec(f: &Vec<char>) -> (b: bool)
    ensures
        b == field_needs_quote(f@),
{
    let mut i: usize = 0;
    while i < f.len()
        invariant
            i <= f.len(),
            forall|k: int| 0 <= k < i ==> !is_csv_special(#[trigger] f@[k]),
        decreases f.len() - i,
    {
        let c = f[i];
        if c == ',' || c == '"' || c == '\n' || c == '\r' {
            assert(is_csv_special(f@[i as int]));
            return true;
        }
        i = i + 1;
    }
    false
}

fn append_field(out: &mut Vec<char>, f: &Vec<char>)
    ensures
        final(out)@ == old(out)@ + enc_field(f@),
{
    let ghost base = out@;
    if !needs_quote_exec(f) {
        let mut k: usize = 0;
        while k < f.len()
            invariant
                k <= f.len(),
                out@ =~= base + f@.take(k as int),
            decreases f.len() - k,
        {
            out.push(f[k]);
            k = k + 1;
            assert(out@ =~= base + f@.take(k as int));
        }
        assert(out@ =~= base + enc_field(f@));
    } else {
        out.push('"');
        let mut k: usize = 0;
        while k < f.len()
            invariant
                k <= f.len(),
                out@ =~= base + seq!['"'] + escape_quotes(f@.take(k as int)),
            decreases f.len() - k,
        {
            let c = f[k];
            out.push(c);
            if c == '"' {
                out.push('"');
            }
            k = k + 1;
            proof {
                let t = f@.take(k as int);
                assert(t.drop_last() =~= f@.take(k - 1));
                assert(t.last() == f@[k - 1]);
                assert(out@ =~= base + seq!['"'] + escape_quotes(t));
            }
        }
        out.push('"');
        proof {
            assert(f@.take(f@.len() as int) =~= f@);
            assert(out@ =~= base + enc_field(f@));
        }
    }
}

fn append_row(out: &mut Vec<char>, row: &Vec<String>)
    ensures
        final(out)@ == old(out)@ + enc_row(row.deep_view()) + seq!['\n'],
{
    let ghost base = out@;
    let ghost rdv = row.deep_view();
    let mut j: usize = 0;
    while j < row.len()
        invariant
            j <= row.len(),
            rdv == row.deep_view(),
            rdv.len() == row.len(),
            out@ =~= base + enc_row(rdv.take(j as int)),
        decreases row.len() - j,
    {
        if j > 0 {
            out.push(',');
        }
        let fchars = chars_of(row[j].as_str());
        assert(fchars@ == rdv[j as int]);
        append_field(out, &fchars);
        j = j + 1;
        proof {
            let t = rdv.take(j as int);
            assert(t.drop_last() =~= rdv.take(j - 1));
            assert(t.last() == rdv[j - 1]);
            if j == 1 {
                assert(enc_row(t) == enc_field(rdv[0]));
                assert(rdv.take(0) =~= Seq::<Seq<char>>::empty());
            }
            assert(out@ =~= base + enc_row(t));
        }
    }
    out.push('\n');
    proof {
        assert(rdv.take(row@.len() as int) =~= rdv);
        assert(out@ =~= base + enc_row(rdv) + seq!['\n']);
    }
}

/// Encodes a table as comma-separated lines, one row per line, quoting
/// fields only where needed.
pub fn encode_csv(table: &Vec<Vec<String>>) -> (r: String)
    ensures
        r@ == enc_table(table.deep_view()),
{
    let ghost tdv = table.deep_view();
    let mut out: Vec<char> = Vec::new();
    let mut i: usize = 0;
    while i < table.len()
        invariant
            i <= table.len(),
            tdv == table.deep_view(),
            tdv.len() == table.len(),
            out@ =~= enc_table(tdv.take(i as int)),
        decreases table.len() - i,
    {
        assert(table@[i as int].deep_view() == tdv[i as int]);
        append_row(&mut out, &table[i]);
        i = i + 1;
        proof {
            let t = tdv.take(i as int);
            assert(t.drop_last() =~= tdv.take(i - 1));
            assert(t.last() == tdv[i - 1]);
            assert(out@ =~= enc_table(t));
        }
    }
    proof {
        assert(tdv.take(table@.len() as int) =~= tdv);
    }
    string_of(&out)
}

/// A record delimiter after a field: the separator or the terminator.
pub open spec fn csv_delim(c: char) -> bool {
    c == ',' || c == '\n'
}

/// The scan of a quoted field's remainder from position `q` (inside the
/// quotes), with `acc` already read: the field and the delimiter position,
/// or `None` where no quoted field ends here. In strict mode a quoted field
/// whose content needed no quoting is refused.
pub open spec fn sp_quoted(v: Seq<char>, q: int, acc: Seq<char>, strict: bool) -> Option<
    (Seq<char>, int),
>
    decreases v.len() - q,
{
    if q < 0 || q >= v.len() {
        None
    } else if v[q] == '"' {
        if q + 1 < v.len() && v[q + 1] == '"' {
            sp_quoted(v, q + 2, acc.push('"'), strict)
        } else if q + 1 < v.len() && csv_delim(v[q + 1]) && (field_needs_quote(acc) || !strict) {
            Some((acc, q + 1))
        } else {
            None
        }
    } else {
        sp_quoted(v, q + 1, acc.push(v[q]), strict)
    }
}

/// The scan of an unquoted field from position `q` with `acc` already
/// read: ended by a delimiter, refused on a stray quote or carriage return.
pub open spec fn sp_raw(v: Seq<char>, q: int, acc: Seq<char>) -> Option<(Seq<char>, int)>
    decreases v.len() - q,
{
    if q < 0 || q >= v.len() {
        None
    } else if csv_delim(v[q]) {
        Some((acc, q))
    } else if v[q] == '"' || v[q] == '\r' {
        None
    } else {
        sp_raw(v, q + 1, acc.push(v[q]))
    }
}

/// One field read from position `start`: quoted if it opens with a quote,
/// unquoted otherwise.
pub open spec fn sp_field(v: Seq<char>, start: int, strict: bool) -> Option<(Seq<char>, int)> {
    if 0 <= start < v.len() && v[start] == '"' {
        sp_quoted(v, start + 1, Seq::<char>::empty(), strict)
    } else {
        sp_raw(v, start, Seq::<char>::empty())
    }
}

/// One row read from position `start` with `fields` already read: fields
/// separated by commas, ended by a line feed.
pub open spec fn sp_row(v: Seq<char>, start: int, fields: Seq<Seq<char>>, strict: bool) -> Option<
    (Seq<Seq<char>>, int),
>
    decreases v.len() - start,
{
    match sp_field(v, start, strict) {
        Option::None => None,
        Option::Some((f, e)) => {
            if !(start <= e < v.len()) {
                None
            } else if v[e] == '\n' {
                Some((fields.push(f), e + 1))
            } else {
                sp_row(v, e + 1, fields.push(f), strict)
            }
        },
    }
}

/// The whole table read from position `pos` with `rows` already read.
pub open spec fn sp_table(
    v: Seq<char>,
    pos: int,
    rows: Seq<Seq<Seq<char>>>,
    strict: bool,
) -> Option<Seq<Seq<Seq<char>>>>
    decreases v.len() - pos,
{
    if pos >= v.len() {
        Some(rows)
    } else {
        match sp_row(v, pos, Seq::<Seq<char>>::empty(), strict) {
            Option::None => None,
            Option::Some((row, npos)) => {
                if pos < npos <= v.len() {
                    sp_table(v, npos, rows.push(row), strict)
                } else {
                    None
                }
            },
        }
    }
}

/// What parsing a whole text yields: the table, or `None` where the text
/// is not a table in this module's form (canonical quoting when `strict`).
pub open spec fn parse_spec(s: Seq<char>, strict: bool) -> Option<Seq<Seq<Seq<char>>>> {
    sp_table(s, 0, Seq::<Seq<Seq<char>>>::empty(), strict)
}

/// Every row has at least one field.
pub open spec fn no_empty_rows(t: Seq<Seq<Seq<char>>>) -> bool {
    forall|i: int| 0 <= i < t.len() ==> (#[trigger] t[i]).len() >= 1
}

/// The text is the canonical encoding of some table without zero-field
/// rows.
pub open spec fn canonical_csv(s: Seq<char>) -> bool {
    exists|t: Seq<Seq<Seq<char>>>| (#[trigger] enc_table(t)) == s && no_empty_rows(t)
}

proof fn lemma_escape_first(f: Seq<char>)
    requires
        f.len() > 0,
    ensures
        escape_quotes(f) == (if f[0] == '"' {
            seq!['"', '"']
        } else {
            seq![f[0]]
        }) + escape_quotes(f.drop_first()),
    decreases f.len(),
{
    let head: Seq<char> = if f[0] == '"' {
        seq!['"', '"']
    } else {
        seq![f[0]]
    };
    if f.len() == 1 {
        assert(f.drop_last() =~= Seq::<char>::empty());
        assert(f.drop_first() =~= Seq::<char>::empty());
        assert(f.last() == f[0]);
        assert(escape_quotes(f) =~= head + escape_quotes(f.drop_first()));
    } else {
        lemma_escape_first(f.drop_last());
        assert(f.drop_last()[0] == f[0]);
        assert(f.drop_last().drop_first() =~= f.drop_first().drop_last());
        assert(f.drop_first().last() == f.last());
        let tailpart: Seq<char> = if f.last() == '"' {
            seq!['"', '"']
        } else {
            seq![f.last()]
        };
        assert(escape_quotes(f) == escape_quotes(f.drop_last()) + tailpart);
        assert(escape_quotes(f.drop_first()) == escape_quotes(f.drop_first().drop_last())
            + tailpart);
        assert(escape_quotes(f) =~= head + escape_quotes(f.drop_first()));
    }
}

proof fn lemma_enc_row_first(r: Seq<Seq<char>>)
    requires
        r.len() >= 2,
    ensures
        enc_row(r) == enc_field(r[0]) + seq![','] + enc_row(r.drop_first()),
    decreases r.len(),
{
    if r.len() == 2 {
        assert(r.drop_last() =~= seq![r[0]]);
        assert(r.drop_first() =~= seq![r[1]]);
        assert(enc_row(r.drop_last()) == enc_field(r[0]));
        assert(enc_row(r.drop_first()) == enc_field(r[1]));
        assert(enc_row(r) =~= enc_field(r[0]) + seq![','] + enc_row(r.drop_first()));
    } else {
        lemma_enc_row_first(r.drop_last());
        assert(r.drop_last()[0] == r[0]);
        assert(r.drop_last().drop_first() =~= r.drop_first().drop_last());
        assert(r.drop_first().last() == r.last());
        assert(r.drop_first().len() >= 2);
        assert(enc_row(r) == enc_row(r.drop_last()) + seq![','] + enc_field(r.last()));
        assert(enc_row(r.drop_first()) == enc_row(r.drop_first().drop_last()) + seq![',']
            + enc_field(r.drop_first().last()));
        assert(enc_row(r) =~= enc_field(r[0]) + seq![','] + enc_row(r.drop_first()));
    }
}

proof fn lemma_enc_table_first(t: Seq<Seq<Seq<char>>>)
    requires
        t.len() >= 1,
    ensures
        enc_table(t) == enc_row(t[0]) + seq!['\n'] + enc_table(t.drop_first()),
    decreases t.len(),
{
    if t.len() == 1 {
        assert(t.drop_last() =~= Seq::<Seq<Seq<char>>>::empty());
        assert(t.drop_first() =~= Seq::<Seq<Seq<char>>>::empty());
        assert(t.last() == t[0]);
        assert(enc_table(t) =~= enc_row(t[0]) + seq!['\n'] + enc_table(t.drop_first()));
    } else {
        lemma_enc_table_first(t.drop_last());
        assert(t.drop_last()[0] == t[0]);
        assert(t.drop_last().drop_first() =~= t.drop_first().drop_last());
        assert(t.drop_first().last() == t.last());
        assert(enc_table(t) == enc_table(t.drop_last()) + enc_row(t.last()) + seq!['\n']);
        assert(enc_table(t.drop_first()) == enc_table(t.drop_first().drop_last()) + enc_row(
            t.drop_first().last(),
        ) + seq!['\n']);
        assert(enc_table(t) =~= enc_row(t[0]) + seq!['\n'] + enc_table(t.drop_first()));
    }
}

proof fn lemma_sp_quoted_rt(v: Seq<char>, q: int, acc: Seq<char>, g: Seq<char>, strict: bool)
    requires
        0 <= q,
        q + escape_quotes(g).len() + 1 < v.len(),
        v.subrange(q, q + escape_quotes(g).len()) == escape_quotes(g),
        v[q + escape_quotes(g).len()] == '"',
        csv_delim(v[q + escape_quotes(g).len() + 1]),
        field_needs_quote(acc + g) || !strict,
    ensures
        sp_quoted(v, q, acc, strict) == Some((acc + g, q + escape_quotes(g).len() + 1)),
    decreases g.len(),
{
    if g.len() == 0 {
        assert(escape_quotes(g) =~= Seq::<char>::empty());
        assert(v[q] == '"');
        assert(v[q + 1] != '"');
        assert(acc + g =~= acc);
    } else {
        lemma_escape_first(g);
        let head: Seq<char> = if g[0] == '"' {
            seq!['"', '"']
        } else {
            seq![g[0]]
        };
        let rest = escape_quotes(g.drop_first());
        assert(escape_quotes(g) == head + rest);
        if g[0] == '"' {
            assert(v[q] == escape_quotes(g)[0]);
            assert(v[q] == '"');
            assert(v[q + 1] == escape_quotes(g)[1]);
            assert(v[q + 1] == '"');
            assert(v.subrange(q + 2, q + 2 + rest.len()) =~= rest) by {
                assert(forall|j: int|
                    0 <= j < rest.len() ==> v.subrange(q + 2, q + 2 + rest.len())[j] == v[q + 2
                        + j] && escape_quotes(g)[2 + j] == rest[j]);
            }
            assert(acc.push('"') + g.drop_first() =~= acc + g);
            lemma_sp_quoted_rt(v, q + 2, acc.push('"'), g.drop_first(), strict);
        } else {
            assert(v[q] == escape_quotes(g)[0]);
            assert(v[q] == g[0]);
            assert(v[q] != '"');
            assert(v.subrange(q + 1, q + 1 + rest.len()) =~= rest) by {
                assert(forall|j: int|
                    0 <= j < rest.len() ==> v.subrange(q + 1, q + 1 + rest.len())[j] == v[q + 1
                        + j] && escape_quotes(g)[1 + j] == rest[j]);
            }
            assert(acc.push(g[0]) + g.drop_first() =~= acc + g);
            lemma_sp_quoted_rt(v, q + 1, acc.push(g[0]), g.drop_first(), strict);
        }
    }
}

proof fn lemma_sp_raw_rt(v: Seq<char>, q: int, acc: Seq<char>, g: Seq<char>)
    requires
        0 <= q,
        q + g.len() < v.len(),
        v.subrange(q, q + g.len()) == g,
        forall|j: int| 0 <= j < g.len() ==> !is_csv_special(#[trigger] g[j]),
        csv_delim(v[q + g.len()]),
    ensures
        sp_raw(v, q, acc) == Some((acc + g, q + g.len())),
    decreases g.len(),
{
    if g.len() == 0 {
        assert(acc + g =~= acc);
    } else {
        assert(v[q] == g[0]);
        assert(!is_csv_special(g[0]));
        assert(v.subrange(q + 1, q + 1 + (g.len() - 1)) =~= g.drop_first()) by {
            assert(forall|j: int|
                0 <= j < g.len() - 1 ==> v.subrange(q + 1, q + g.len())[j] == v[q + 1 + j]
                    && g.drop_first()[j] == g[1 + j]);
        }
        assert(acc.push(g[0]) + g.drop_first() =~= acc + g);
        lemma_sp_raw_rt(v, q + 1, acc.push(g[0]), g.drop_first());
    }
}

proof fn lemma_sp_field_rt(v: Seq<char>, start: int, f: Seq<char>, strict: bool)
    requires
        0 <= start,
        start + enc_field(f).len() < v.len(),
        v.subrange(start, start + enc_field(f).len()) == enc_field(f),
        csv_delim(v[start + enc_field(f).len()]),
    ensures
        sp_field(v, start, strict) == Some((f, start + enc_field(f).len())),
{
    if field_needs_quote(f) {
        let esc = escape_quotes(f);
        assert(enc_field(f) == seq!['"'] + esc + seq!['"']);
        assert(v[start] == enc_field(f)[0]);
        assert(v[start] == '"');
        assert(v.subrange(start + 1, start + 1 + esc.len()) =~= esc) by {
            assert(forall|j: int|
                0 <= j < esc.len() ==> v.subrange(start + 1, start + 1 + esc.len())[j] == v[start
                    + 1 + j] && enc_field(f)[1 + j] == esc[j]);
        }
        assert(v[start + 1 + esc.len()] == enc_field(f)[1 + esc.len() as int]);
        assert(v[start + 1 + esc.len()] == '"');
        assert(Seq::<char>::empty() + f =~= f);
        lemma_sp_quoted_rt(v, start + 1, Seq::<char>::empty(), f, strict);
    } else {
        assert(enc_field(f) == f);
        assert forall|j: int| 0 <= j < f.len() implies !is_csv_special(#[trigger] f[j]) by {
            if is_csv_special(f[j]) {
                assert(field_needs_quote(f));
            }
        }
        if f.len() == 0 {
            assert(csv_delim(v[start]));
            assert(v[start] != '"');
        } else {
            assert(v[start] == f[0]);
            assert(v[start] != '"');
        }
        assert(Seq::<char>::empty() + f =~= f);
        lemma_sp_raw_rt(v, start, Seq::<char>::empty(), f);
    }
}

proof fn lemma_sp_row_rt(
    v: Seq<char>,
    start: int,
    acc: Seq<Seq<char>>,
    r: Seq<Seq<char>>,
    strict: bool,
)
    requires
        0 <= start,
        r.len() >= 1,
        start + enc_row(r).len() + 1 <= v.len(),
        v.subrange(start, start + enc_row(r).len()) == enc_row(r),
        v[start + enc_row(r).len()] == '\n',
    ensures
        sp_row(v, start, acc, strict) == Some((acc + r, start + enc_row(r).len() + 1)),
    decreases r.len(),
{
    if r.len() == 1 {
        assert(enc_row(r) == enc_field(r[0]));
        lemma_sp_field_rt(v, start, r[0], strict);
        assert(acc.push(r[0]) =~= acc + r);
    } else {
        lemma_enc_row_first(r);
        let ef = enc_field(r[0]);
        let er2 = enc_row(r.drop_first());
        assert(enc_row(r) == ef + seq![','] + er2);
        assert(v.subrange(start, start + ef.len()) =~= ef) by {
            assert(forall|j: int|
                0 <= j < ef.len() ==> v.subrange(start, start + ef.len())[j] == v[start + j]
                    && enc_row(r)[j] == ef[j]);
        }
        assert(v[start + ef.len()] == enc_row(r)[ef.len() as int]);
        assert(v[start + ef.len()] == ',');
        lemma_sp_field_rt(v, start, r[0], strict);
        let ns = start + ef.len() + 1;
        assert(v.subrange(ns, ns + er2.len()) =~= er2) by {
            assert(forall|j: int|
                0 <= j < er2.len() ==> v.subrange(ns, ns + er2.len())[j] == v[ns + j] && enc_row(
                    r,
                )[ef.len() + 1 + j] == er2[j]);
        }
        assert(v[ns + er2.len()] == '\n');
        assert(acc.push(r[0]) + r.drop_first() =~= acc + r);
        lemma_sp_row_rt(v, ns, acc.push(r[0]), r.drop_first(), strict);
    }
}

proof fn lemma_sp_table_rt(
    v: Seq<char>,
    pos: int,
    acc: Seq<Seq<Seq<char>>>,
    t: Seq<Seq<Seq<char>>>,
    strict: bool,
)
    requires
        0 <= pos <= v.len(),
        v.subrange(pos, v.len() as int) == enc_table(t),
        no_empty_rows(t),
    ensures
        sp_table(v, pos, acc, strict) == Some(acc + t),
    decreases t.len(),
{
    if t.len() == 0 {
        assert(enc_table(t).len() == 0);
        assert(pos == v.len());
        assert(acc + t =~= acc);
    } else {
        lemma_enc_table_first(t);
        let er = enc_row(t[0]);
        let rest = enc_table(t.drop_first());
        assert(enc_table(t) == er + seq!['\n'] + rest);
        assert(pos < v.len());
        assert(v.subrange(pos, pos + er.len()) =~= er) by {
            assert(forall|j: int|
                0 <= j < er.len() ==> v.subrange(pos, pos + er.len())[j] == v[pos + j]
                    && enc_table(t)[j] == er[j]);
        }
        assert(v[pos + er.len()] == enc_table(t)[er.len() as int]);
        assert(v[pos + er.len()] == '\n');
        assert(t[0].len() >= 1);
        lemma_sp_row_rt(v, pos, Seq::<Seq<char>>::empty(), t[0], strict);
        assert(Seq::<Seq<char>>::empty() + t[0] =~= t[0]);
        let np = pos + er.len() + 1;
        assert(v.subrange(np, v.len() as int) =~= rest) by {
            assert(forall|j: int|
                0 <= j < rest.len() ==> v.subrange(np, v.len() as int)[j] == v[np + j]
                    && enc_table(t)[er.len() + 1 + j] == rest[j]);
        }
        assert(no_empty_rows(t.drop_first())) by {
            assert(forall|i: int|
                0 <= i < t.drop_first().len() ==> #[trigger] t.drop_first()[i] == t[i + 1]);
        }
        lemma_sp_table_rt(v, np, acc.push(t[0]), t.drop_first(), strict);
        assert(acc.push(t[0]) + t.drop_first() =~= acc + t);
    }
}

/// Parsing is complete on the encoder's output: the canonical encoding of
/// any table without zero-field rows parses back to that table, in strict
/// and in lenient mode alike.
pub proof fn lemma_parse_round_trip(t: Seq<Seq<Seq<char>>>, strict: bool)
    requires
        no_empty_rows(t),
    ensures
        parse_spec(enc_table(t), strict) == Some(t),
{
    let v = enc_table(t);
    assert(v.subrange(0, v.len() as int) =~= v);
    lemma_sp_table_rt(v, 0, Seq::<Seq<Seq<char>>>::empty(), t, strict);
    assert(Seq::<Seq<Seq<char>>>::empty() + t =~= t);
}

/// The canonical encoding is injective: distinct tables without zero-field
/// rows have distinct encodings, so a combined text determines its tables.
pub proof fn lemma_enc_table_injective(t1: Seq<Seq<Seq<char>>>, t2: Seq<Seq<Seq<char>>>)
    requires
        enc_table(t1) == enc_table(t2),
        no_empty_rows(t1),
        no_empty_rows(t2),
    ensures
        t1 == t2,
{
    lemma_parse_round_trip(t1, true);
    lemma_parse_round_trip(t2, true);
}

fn parse_field(v: &Vec<char>, start: usize, strict: bool) -> (r: Option<(Vec<char>, usize)>)
    requires
        start <= v@.len(),
    ensures
        r matches Some(fe) ==> start <= fe.1 < v@.len() && csv_delim(v@[fe.1 as int]),
        strict ==> (r matches Some(fe) ==> enc_field(fe.0@) == v@.subrange(
            start as int,
            fe.1 as int,
        )),
        r matches Some(fe) ==> sp_field(v@, start as int, strict) == Some((fe.0@, fe.1 as int)),
        r is None ==> sp_field(v@, start as int, strict) is None,
{
    if start >= v.len() {
        return None;
    }
    let mut content: Vec<char> = Vec::new();
    if v[start] == '"' {
        let mut q: usize = start + 1;
        assert(seq!['"'] + escape_quotes(content@) =~= v@.subrange(start as int, q as int));
        while q < v.len()
            invariant
                start + 1 <= q <= v@.len(),
                v@[start as int] == '"',
                seq!['"'] + escape_quotes(content@) =~= v@.subrange(start as int, q as int),
                sp_field(v@, start as int, strict) == sp_quoted(v@, q as int, content@, strict),
            decreases v@.len() - q,
        {
            let c = v[q];
            if c == '"' {
                if q + 1 < v.len() && v[q + 1] == '"' {
                    let ghost prevc = content@;
                    content.push('"');
                    proof {
                        assert(content@.drop_last() =~= prevc);
                        assert(escape_quotes(content@) =~= escape_quotes(prevc) + seq!['"', '"']);
                        assert(v@.subrange(start as int, q + 2) =~= v@.subrange(
                            start as int,
                            q as int,
                        ) + seq![v@[q as int], v@[q + 1]]);
                        assert(seq!['"'] + escape_quotes(content@) =~= v@.subrange(
                            start as int,
                            q + 2,
                        ));
                        assert(sp_quoted(v@, q as int, prevc, strict) == sp_quoted(
                            v@,
                            q + 2,
                            content@,
                            strict,
                        ));
                    }
                    q = q + 2;
                } else {
                    if q + 1 >= v.len() {
                        assert(sp_quoted(v@, q as int, content@, strict) is None);
                        return None;
                    }
                    let d = v[q + 1];
                    if d != ',' && d != '\n' {
                        assert(sp_quoted(v@, q as int, content@, strict) is None);
                        return None;
                    }
                    if strict && !needs_quote_exec(&content) {
                        assert(sp_quoted(v@, q as int, content@, strict) is None);
                        return None;
                    }
                    proof {
                        if strict {
                            assert(enc_field(content@) == seq!['"'] + escape_quotes(content@)
                                + seq!['"']);
                            assert(v@.subrange(start as int, q + 1) =~= v@.subrange(
                                start as int,
                                q as int,
                            ) + seq![v@[q as int]]);
                            assert(enc_field(content@) =~= v@.subrange(start as int, q + 1));
                        }
                        assert(sp_quoted(v@, q as int, content@, strict) == Some((
                            content@,
                            q + 1,
                        )));
                    }
                    return Some((content, q + 1));
                }
            } else {
                let ghost prevc = content@;
                content.push(c);
                proof {
                    assert(content@.drop_last() =~= prevc);
                    assert(escape_quotes(content@) =~= escape_quotes(prevc) + seq![c]);
                    assert(v@.subrange(start as int, q + 1) =~= v@.subrange(
                        start as int,
                        q as int,
                    ) + seq![v@[q as int]]);
                    assert(sp_quoted(v@, q as int, prevc, strict) == sp_quoted(
                        v@,
                        q + 1,
                        content@,
                        strict,
                    ));
                }
                q = q + 1;
            }
        }
        assert(sp_quoted(v@, q as int, content@, strict) is None);
        None
    } else {
        let mut q: usize = start;
        assert(content@ =~= v@.subrange(start as int, q as int));
        proof {
            if start < v@.len() {
                assert(v@[start as int] != '"');
            }
            assert(sp_field(v@, start as int, strict) == sp_raw(v@, start as int, content@));
        }
        while q < v.len()
            invariant
                start <= q <= v@.len(),
                content@ =~= v@.subrange(start as int, q as int),
                forall|l: int| 0 <= l < content@.len() ==> !is_csv_special(#[trigger] content@[l]),
                sp_field(v@, start as int, strict) == sp_raw(v@, q as int, content@),
            decreases v@.len() - q,
        {
            let c = v[q];
            if c == ',' || c == '\n' {
                proof {
                    assert(!field_needs_quote(content@));
                    assert(enc_field(content@) == content@);
                    assert(sp_raw(v@, q as int, content@) == Some((content@, q as int)));
                }
                return Some((content, q));
            }
            if c == '"' || c == '\r' {
                assert(sp_raw(v@, q as int, content@) is None);
                return None;
            }
            let ghost prevc = content@;
            content.push(c);
            proof {
                assert(content@ =~= v@.subrange(start as int, q + 1));
                assert(sp_raw(v@, q as int, prevc) == sp_raw(v@, q + 1, content@));
            }
            q = q + 1;
        }
        assert(sp_raw(v@, q as int, content@) is None);
        None
    }
}

fn parse_row(v: &Vec<char>, start: usize, strict: bool) -> (r: Option<(Vec<String>, usize)>)
    requires
        start < v@.len(),
    ensures
        r matches Some(re) ==> start < re.1 <= v@.len() && re.0@.len() >= 1,
        strict ==> (r matches Some(re) ==> enc_row(re.0.deep_view()) + seq!['\n'] =~= v@.subrange(
            start as int,
            re.1 as int,
        )),
        r matches Some(re) ==> sp_row(v@, start as int, Seq::<Seq<char>>::empty(), strict)
            == Some((re.0.deep_view(), re.1 as int)),
        r is None ==> sp_row(v@, start as int, Seq::<Seq<char>>::empty(), strict) is None,
{
    let n = v.len();
    let mut fields: Vec<String> = Vec::new();
    let mut fstart: usize = start;
    proof {
        assert(fields.deep_view() =~= Seq::<Seq<char>>::empty());
    }
    loop
        invariant
            n == v@.len(),
            start <= fstart <= v@.len(),
            fields@.len() == 0 ==> fstart == start,
            strict ==> (fields@.len() > 0 ==> (start < fstart && v@[fstart - 1] == ','
                && enc_row(fields.deep_view()) =~= v@.subrange(start as int, fstart - 1))),
            sp_row(v@, start as int, Seq::<Seq<char>>::empty(), strict) == sp_row(
                v@,
                fstart as int,
                fields.deep_view(),
                strict,
            ),
        decreases v@.len() - fstart,
    {
        let fe = match parse_field(v, fstart, strict) {
            Some(x) => x,
            None => {
                proof {
                    assert(sp_row(v@, fstart as int, fields.deep_view(), strict) is None);
                }
                return None;
            },
        };
        let end = fe.1;
        let fs = crate::text::string_of(&fe.0);
        let ghost fval = fe.0@;
        let ghost prev = fields@;
        let ghost prev_dv = fields.deep_view();
        fields.push(fs);
        proof {
            assert forall|k: int| 0 <= k < fields@.len() implies fields.deep_view()[k]
                == prev_dv.push(fval)[k] by {
                assert(fields.deep_view()[k] == fields@[k]@);
                if k < fields@.len() - 1 {
                    assert(fields@[k] == prev[k]);
                    assert(prev_dv[k] == prev[k]@);
                }
            }
            assert(fields.deep_view() =~= prev_dv.push(fval));
            if strict {
                let fdv = fields.deep_view();
                if prev.len() == 0 {
                    assert(fdv.len() == 1);
                    assert(fdv[0] == fval);
                    assert(enc_row(fdv) == enc_field(fval));
                    assert(enc_row(fdv) =~= v@.subrange(start as int, end as int));
                } else {
                    assert(fdv.drop_last() =~= prev_dv);
                    assert(fdv.last() == fval);
                    assert(enc_row(fdv) == enc_row(prev_dv) + seq![','] + enc_field(fval));
                    assert(v@.subrange(start as int, end as int) =~= v@.subrange(
                        start as int,
                        fstart - 1,
                    ) + seq![v@[fstart - 1]] + v@.subrange(fstart as int, end as int));
                    assert(enc_row(fdv) =~= v@.subrange(start as int, end as int));
                }
            }
        }
        if v[end] == '\n' {
            proof {
                if strict {
                    assert(v@.subrange(start as int, end + 1) =~= v@.subrange(
                        start as int,
                        end as int,
                    ) + seq![v@[end as int]]);
                    assert(enc_row(fields.deep_view()) + seq!['\n'] =~= v@.subrange(
                        start as int,
                        end + 1,
                    ));
                }
                assert(sp_row(v@, fstart as int, prev_dv, strict) == Some((
                    prev_dv.push(fval),
                    end + 1,
                )));
            }
            return Some((fields, end + 1));
        }
        proof {
            assert(v@[end as int] == ',');
            assert(sp_row(v@, fstart as int, prev_dv, strict) == sp_row(
                v@,
                end + 1,
                prev_dv.push(fval),
                strict,
            ));
        }
        fstart = end + 1;
    }
}

fn parse_table_exec(s: &str, strict: bool) -> (r: Option<Vec<Vec<String>>>)
    ensures
        r matches Some(t) ==> parse_spec(s@, strict) == Some(t.deep_view()),
        r is None ==> parse_spec(s@, strict) is None,
        r matches Some(t) ==> no_empty_rows(t.deep_view()),
        strict ==> (r matches Some(t) ==> enc_table(t.deep_view()) == s@),
{
    let v = chars_of(s);
    let mut rows: Vec<Vec<String>> = Vec::new();
    let mut pos: usize = 0;
    proof {
        assert(enc_table(rows.deep_view()) =~= s@.take(0));
        assert(rows.deep_view() =~= Seq::<Seq<Seq<char>>>::empty());
    }
    while pos < v.len()
        invariant
            pos <= v@.len(),
            v@ == s@,
            strict ==> enc_table(rows.deep_view()) =~= s@.take(pos as int),
            parse_spec(s@, strict) == sp_table(s@, pos as int, rows.deep_view(), strict),
            no_empty_rows(rows.deep_view()),
        decreases v@.len() - pos,
    {
        let re = match parse_row(&v, pos, strict) {
            Some(x) => x,
            None => {
                proof {
                    assert(sp_table(s@, pos as int, rows.deep_view(), strict) is None);
                }
                return None;
            },
        };
        let ghost row_dv = re.0.deep_view();
        let ghost prev_tab = rows.deep_view();
        proof {
            assert(sp_table(s@, pos as int, prev_tab, strict) == sp_table(
                s@,
                re.1 as int,
                prev_tab.push(row_dv),
                strict,
            ));
        }
        crate::combine::push_row(&mut rows, &re.0);
        proof {
            let tdv = rows.deep_view();
            assert(tdv == prev_tab.push(row_dv));
            if strict {
                assert(tdv.drop_last() =~= prev_tab);
                assert(tdv.last() == row_dv);
                assert(enc_table(tdv) == enc_table(prev_tab) + enc_row(row_dv) + seq!['\n']);
                assert(s@.take(re.1 as int) =~= s@.take(pos as int) + s@.subrange(
                    pos as int,
                    re.1 as int,
                ));
                assert(enc_table(tdv) =~= s@.take(re.1 as int));
            }
            assert(row_dv.len() >= 1);
            assert forall|i: int| 0 <= i < tdv.len() implies (#[trigger] tdv[i]).len() >= 1 by {
                if i < tdv.len() - 1 {
                    assert(tdv[i] == prev_tab[i]);
                }
            }
        }
        pos = re.1;
    }
    proof {
        if strict {
            assert(s@.take(pos as int) =~= s@);
        }
        assert(sp_table(s@, pos as int, rows.deep_view(), strict) == Some(rows.deep_view()));
    }
    Some(rows)
}

/// Parses comma-separated text back into rows of fields. Succeeds exactly
/// on text in this module's canonical form (fields quoted only where
/// needed, every row ended by a line feed): the parsed table re-encodes to
/// the input text itself, and every canonical encoding is accepted.
pub fn parse_csv(s: &str) -> (r: Option<Vec<Vec<String>>>)
    ensures
        r matches Some(t) ==> enc_table(t.deep_view()) == s@,
        r matches Some(t) ==> parse_spec(s@, true) == Some(t.deep_view()),
        r matches Some(t) ==> no_empty_rows(t.deep_view()),
        r is Some <==> canonical_csv(s@),
{
    match parse_table_exec(s, true) {
        Some(t) => {
            proof {
                assert((#[trigger] enc_table(t.deep_view())) == s@);
                assert(canonical_csv(s@));
            }
            Some(t)
        },
        None => {
            proof {
                if canonical_csv(s@) {
                    let t0 = choose|t: Seq<Seq<Seq<char>>>|
                        (#[trigger] enc_table(t)) == s@ && no_empty_rows(t);
                    lemma_parse_round_trip(t0, true);
                    assert(false);
                }
            }
            None
        },
    }
}

/// Parses comma-separated text leniently: as `parse_csv`, but a quoted
/// field is accepted even where its content needed no quoting. The result
/// is pinned by the lenient reading `parse_spec(s, false)`; success is
/// exactly its success.
pub fn parse_csv_lenient(s: &str) -> (r: Option<Vec<Vec<String>>>)
    ensures
        r matches Some(t) ==> parse_spec(s@, false) == Some(t.deep_view()),
        r is Some <==> parse_spec(s@, false) is Some,
        r matches Some(t) ==> no_empty_rows(t.deep_view()),
{
    parse_table_exec(s, false)
}

} // verus!
