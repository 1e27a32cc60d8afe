use vstd::prelude::*;

verus! {

/// What `str::to_lowercase` makes of a string.
pub uninterp spec fn lower_of(s: Seq<char>) -> Seq<char>;

/// What `str::trim` leaves of a string.
pub uninterp spec fn trim_of(s: Seq<char>) -> Seq<char>;

/// Relies on `str::to_lowercase`: the lowercase form depends on the characters
/// alone.
#[verifier::external_body]
pub(crate) fn lowercase(s: &str) -> (r: String)
    ensures
        r@ == lower_of(s@),
        s@.len() == 0 ==> r@.len() == 0,
{
    s.to_lowercase()
}

/// Relies on `str::trim`: the string without its leading and trailing
/// whitespace.
#[verifier::external_body]
pub(crate) fn trim(s: &str) -> (r: &str)
    ensures
        r@ == trim_of(s@),
        s@.len() == 0 ==> r@.len() == 0,
{
    s.trim()
}

/// Position of the first ',' in `s`, or -1 when there is none.
pub open spec fn first_comma(s: Seq<char>) -> int
    decreases s.len(),
{
    if s.len() == 0 {
        -1
    } else if s[0] == ',' {
        0
    } else if first_comma(s.drop_first()) < 0 {
        -1
    } else {
        first_comma(s.drop_first()) + 1
    }
}

/// Relies on `str::split_once`: the parts before and after the first ','.
#[verifier::external_body]
fn split_at_comma(s: &str) -> (r: Option<(&str, &str)>)
    ensures
        match r {
            Some(parts) => first_comma(s@) >= 0 && parts.0@ == s@.subrange(0, first_comma(s@))
                && parts.1@ == s@.subrange(first_comma(s@) + 1, s@.len() as int),
            None => first_comma(s@) < 0,
        },
{
    s.split_once(',')
}

pub open spec fn is_digit(c: char) -> bool {
    '0' <= c <= '9'
}

/// The number that a string of decimal digits denotes.
pub open spec fn digits_value(s: Seq<char>) -> int
    decreases s.len(),
{
    if s.len() == 0 {
        0
    } else {
        digits_value(s.drop_last()) * 10 + (s.last() as int - '0' as int)
    }
}

/// A base-10 unsigned integer that fits in 64 bits: an optional '+' and at
/// least one digit, nothing else.
pub open spec fn decimal_u64(s: Seq<char>) -> Option<u64> {
    let d = if s.len() > 0 && s[0] == '+' {
        s.drop_first()
    } else {
        s
    };
    if d.len() > 0 && (forall|i: int| 0 <= i < d.len() ==> is_digit(#[trigger] d[i]))
        && digits_value(d) <= u64::MAX {
        Some(digits_value(d) as u64)
    } else {
        None
    }
}

/// Relies on `u64::from_str`: accepts exactly an optional '+' followed by
/// decimal digits whose value fits in 64 bits.
#[verifier::external_body]
fn parse_u64(s: &str) -> (r: Option<u64>)
    ensures
        r == decimal_u64(s@),
{
    s.parse::<u64>().ok()
}

/// A weight field: its number, or 0 when it is not one.
pub open spec fn weight_of(s: Seq<char>) -> u64 {
    match decimal_u64(s) {
        Some(v) => v,
        None => 0,
    }
}

/// The entry that one line of the word list describes: `word,weight` gives the
/// trimmed, lowercased word and the trimmed weight's value (0 when it is not a
/// number); a line without ',' is all key, with weight 0.
pub open spec fn entry_of_line(line: Seq<char>) -> (Seq<char>, u64) {
    let c = first_comma(line);
    if c < 0 {
        (lower_of(trim_of(line)), 0)
    } else {
        (
            lower_of(trim_of(line.subrange(0, c))),
            weight_of(trim_of(line.subrange(c + 1, line.len() as int))),
        )
    }
}

/// Reads one line of the word list.
pub fn parse_entry_line(line: &str) -> (r: (String, u64))
    ensures
        (r.0@, r.1) == entry_of_line(line@),
{
    match split_at_comma(line) {
        Some((word, weight)) => {
            let key = lowercase(trim(word));
            let value = match parse_u64(trim(weight)) {
                Some(v) => v,
                None => 0,
            };
            (key, value)
        },
        None => (lowercase(trim(line)), 0),
    }
}

/// The normal form of a query: trimmed, then lowercased.
pub open spec fn normalized(q: Seq<char>) -> Seq<char> {
    lower_of(trim_of(q))
}

/// Brings a query to its normal form.
pub fn normalize_query(q: &str) -> (r: String)
    ensures
        r@ == normalized(q@),
        q@.len() == 0 ==> r@.len() == 0,
{
    lowercase(trim(q))
}

} // verus!
