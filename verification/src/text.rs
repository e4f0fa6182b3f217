//! Normalization of point identifiers for checkpoint file names: whitespace
//! runs become single underscores, everything but alphanumerics and
//! underscores is dropped, the rest is lower-cased and outer underscores are
//! trimmed.

use vstd::prelude::*;
use vstd::string::*;

verus! {

/// What `char::is_whitespace` returns: membership in Unicode `White_Space`.
pub uninterp spec fn unicode_whitespace(c: char) -> bool;

/// What `char::is_alphanumeric` returns: membership in the Unicode
/// alphabetic and numeric categories.
pub uninterp spec fn unicode_alphanumeric(c: char) -> bool;

/// What `str::to_lowercase` returns: the Unicode lower-casing of a string.
pub uninterp spec fn lower_of(s: Seq<char>) -> Seq<char>;

/// A character in the ASCII range.
pub open spec fn char_ascii(c: char) -> bool {
    (c as u32) < 128
}

/// Every character is in the ASCII range.
pub open spec fn all_ascii(s: Seq<char>) -> bool {
    forall|i: int| 0 <= i < s.len() ==> char_ascii(#[trigger] s[i])
}

/// ASCII lower-casing of one character.
pub open spec fn ascii_lower_char(c: char) -> char {
    if 65 <= c as u32 <= 90 {
        (((c as u32) + 32) as u8) as char
    } else {
        c
    }
}

/// ASCII lower-casing of a string.
pub open spec fn ascii_lower_seq(s: Seq<char>) -> Seq<char> {
    s.map_values(|c: char| ascii_lower_char(c))
}

/// Relies on `char::is_whitespace` of std: true exactly on characters with
/// the Unicode `White_Space` property; on the ASCII range those are space,
/// tab, line feed, vertical tab, form feed and carriage return.
pub assume_specification[ char::is_whitespace ](c: char) -> (r: bool)
    ensures
        r == unicode_whitespace(c),
        (c as u32) < 128 ==> r == ((c as u32) == 32 || 9 <= (c as u32) <= 13),
;

/// Relies on `char::is_alphanumeric` of std: true exactly on Unicode
/// alphabetic and numeric characters; on the ASCII range those are the
/// letters and the decimal digits.
pub assume_specification[ char::is_alphanumeric ](c: char) -> (r: bool)
    ensures
        r == unicode_alphanumeric(c),
        (c as u32) < 128 ==> r == (48 <= (c as u32) <= 57 || 65 <= (c as u32) <= 90 || 97 <= (
        c as u32) <= 122),
;

/// Relies on `str::to_lowercase` of std: the Unicode lower-casing, which
/// depends on the characters alone; on ASCII input it lowers each letter in
/// place.
pub assume_specification[ str::to_lowercase ](s: &str) -> (r: String)
    ensures
        r@ == lower_of(s@),
        all_ascii(s@) ==> r@ == ascii_lower_seq(s@),
;

/// Relies on `FromIterator` for `String` of std: collecting characters
/// yields the string of exactly those characters.
#[verifier::external_body]
pub fn string_of(v: &Vec<char>) -> (s: String)
    ensures
        s@ == v@,
{
    v.iter().collect()
}

/// The characters of `s`, in order.
pub fn chars_of(s: &str) -> (v: Vec<char>)
    ensures
        v@ == s@,
{
    let n = s.unicode_len();
    let mut v: Vec<char> = Vec::new();
    let mut i: usize = 0;
    while i < n
        invariant
            i <= n,
            n == s@.len(),
            v@ =~= s@.take(i as int),
        decreases n - i,
    {
        v.push(s.get_char(i));
        i = i + 1;
        assert(v@ =~= s@.take(i as int));
    }
    assert(v@ =~= s@);
    v
}

/// Each run of whitespace replaced by a single underscore.
pub open spec fn collapse_ws(s: Seq<char>) -> Seq<char>
    decreases s.len(),
{
    if s.len() == 0 {
        Seq::<char>::empty()
    } else {
        let init = collapse_ws(s.drop_last());
        if unicode_whitespace(s.last()) {
            if s.len() >= 2 && unicode_whitespace(s[s.len() - 2]) {
                init
            } else {
                init.push('_')
            }
        } else {
            init.push(s.last())
        }
    }
}

/// Only alphanumerics and underscores kept.
pub open spec fn keep_alnum(s: Seq<char>) -> Seq<char>
    decreases s.len(),
{
    if s.len() == 0 {
        Seq::<char>::empty()
    } else {
        let init = keep_alnum(s.drop_last());
        if unicode_alphanumeric(s.last()) || s.last() == '_' {
            init.push(s.last())
        } else {
            init
        }
    }
}

/// Leading underscores removed.
pub open spec fn drop_leading_us(s: Seq<char>) -> Seq<char>
    decreases s.len(),
{
    if s.len() > 0 && s[0] == '_' {
        drop_leading_us(s.drop_first())
    } else {
        s
    }
}

/// Trailing underscores removed.
pub open spec fn drop_trailing_us(s: Seq<char>) -> Seq<char>
    decreases s.len(),
{
    if s.len() > 0 && s.last() == '_' {
        drop_trailing_us(s.drop_last())
    } else {
        s
    }
}

/// The normalized form of a point identifier: whitespace runs to single
/// underscores, non-alphanumerics dropped, lower-cased, outer underscores
/// trimmed.
pub open spec fn clean_spec(s: Seq<char>) -> Seq<char> {
    drop_trailing_us(drop_leading_us(lower_of(keep_alnum(collapse_ws(s)))))
}

fn collapse_ws_exec(v: &Vec<char>) -> (r: Vec<char>)
    ensures
        r@ == collapse_ws(v@),
{
    let mut r: Vec<char> = Vec::new();
    let mut i: usize = 0;
    while i < v.len()
        invariant
            i <= v.len(),
            r@ =~= collapse_ws(v@.take(i as int)),
        decreases v.len() - i,
    {
        let c = v[i];
        if c.is_whitespace() {
            if i >= 1 && v[i - 1].is_whitespace() {
                // a later character of the same whitespace run: dropped
            } else {
                r.push('_');
            }
        } else {
            r.push(c);
        }
        i = i + 1;
        proof {
            let t = v@.take(i as int);
            assert(t.drop_last() =~= v@.take(i - 1));
            assert(t.last() == v@[i - 1]);
            if i >= 2 {
                assert(t[t.len() - 2] == v@[i - 2]);
            }
            assert(r@ =~= collapse_ws(v@.take(i as int)));
        }
    }
    assert(v@.take(v.len() as int) =~= v@);
    r
}

fn keep_alnum_exec(v: &Vec<char>) -> (r: Vec<char>)
    ensures
        r@ == keep_alnum(v@),
{
    let mut r: Vec<char> = Vec::new();
    let mut i: usize = 0;
    while i < v.len()
        invariant
            i <= v.len(),
            r@ =~= keep_alnum(v@.take(i as int)),
        decreases v.len() - i,
    {
        let c = v[i];
        if c.is_alphanumeric() || c == '_' {
            r.push(c);
        }
        i = i + 1;
        proof {
            let t = v@.take(i as int);
            assert(t.drop_last() =~= v@.take(i - 1));
            assert(t.last() == v@[i - 1]);
            assert(r@ =~= keep_alnum(v@.take(i as int)));
        }
    }
    assert(v@.take(v.len() as int) =~= v@);
    r
}

fn trim_us_exec(v: &Vec<char>) -> (r: Vec<char>)
    ensures
        r@ == drop_trailing_us(drop_leading_us(v@)),
{
    let mut start: usize = 0;
    assert(v@.skip(0) =~= v@);
    while start < v.len() && v[start] == '_'
        invariant
            start <= v.len(),
            drop_leading_us(v@) == drop_leading_us(v@.skip(start as int)),
            forall|k: int| 0 <= k < start ==> v@[k] == '_',
        decreases v.len() - start,
    {
        proof {
            let s = v@.skip(start as int);
            assert(s[0] == v@[start as int]);
            assert(s.drop_first() =~= v@.skip(start + 1));
        }
        start = start + 1;
    }
    proof {
        let s = v@.skip(start as int);
        if s.len() > 0 {
            assert(s[0] == v@[start as int]);
        }
        assert(drop_leading_us(s) == s);
    }
    let mut end: usize = v.len();
    while end > start && v[end - 1] == '_'
        invariant
            start <= end <= v.len(),
            drop_leading_us(v@) == v@.skip(start as int),
            drop_trailing_us(v@.skip(start as int)) == drop_trailing_us(
                v@.subrange(start as int, end as int),
            ),
        decreases end,
    {
        proof {
            let s = v@.subrange(start as int, end as int);
            assert(s.last() == v@[end - 1]);
            assert(s.drop_last() =~= v@.subrange(start as int, end - 1));
        }
        end = end - 1;
    }
    proof {
        let s = v@.subrange(start as int, end as int);
        if s.len() > 0 {
            assert(s.last() == v@[end - 1]);
        }
        assert(drop_trailing_us(s) == s);
        assert(v@.skip(start as int) =~= v@.subrange(start as int, v.len() as int));
    }
    let mut r: Vec<char> = Vec::new();
    let mut i: usize = start;
    while i < end
        invariant
            start <= i <= end <= v.len(),
            r@ =~= v@.subrange(start as int, i as int),
        decreases end - i,
    {
        r.push(v[i]);
        i = i + 1;
        assert(r@ =~= v@.subrange(start as int, i as int));
    }
    r
}

/// Normalizes a point identifier as `clean_spec` describes.
pub fn clean_and_snakecase(input: &str) -> (r: String)
    ensures
        r@ == clean_spec(input@),
{
    let v = chars_of(input);
    let collapsed = collapse_ws_exec(&v);
    let kept = keep_alnum_exec(&collapsed);
    let kept_str = string_of(&kept);
    let lowered = kept_str.as_str().to_lowercase();
    let lowered_chars = chars_of(lowered.as_str());
    let trimmed = trim_us_exec(&lowered_chars);
    string_of(&trimmed)
}

} // verus!
