use vstd::prelude::*;

use crate::error::ParseError;

verus! {

/// The pieces of `s` between occurrences of `sep`; there is always at least one.
pub open spec fn split_on(s: Seq<char>, sep: char) -> Seq<Seq<char>>
    decreases s.len(),
{
    if s.len() == 0 {
        seq![Seq::empty()]
    } else {
        let f = split_on(s.drop_last(), sep);
        if s.last() == sep {
            f.push(Seq::empty())
        } else {
            f.update(f.len() - 1, f.last().push(s.last()))
        }
    }
}

pub proof fn lemma_split_on_nonempty(s: Seq<char>, sep: char)
    ensures
        split_on(s, sep).len() >= 1,
    decreases s.len(),
{
    if s.len() > 0 {
        lemma_split_on_nonempty(s.drop_last(), sep);
    }
}

pub open spec fn is_digit(c: char) -> bool {
    '0' <= c && c <= '9'
}

/// A non-empty run of ASCII decimal digits.
pub open spec fn all_digits(d: Seq<char>) -> bool {
    d.len() > 0 && forall|i: int| 0 <= i < d.len() ==> is_digit(#[trigger] d[i])
}

/// The number that a run of decimal digits denotes.
pub open spec fn digits_value(d: Seq<char>) -> int
    decreases d.len(),
{
    if d.len() == 0 {
        0
    } else {
        digits_value(d.drop_last()) * 10 + (d.last() as int - '0' as int)
    }
}

/// The integer written by `f`: an optional `+` or `-` and then decimal digits.
pub open spec fn signed_value(f: Seq<char>) -> Option<int> {
    if f.len() > 0 && (f[0] == '+' || f[0] == '-') {
        if all_digits(f.drop_first()) {
            if f[0] == '-' {
                Some(-digits_value(f.drop_first()))
            } else {
                Some(digits_value(f.drop_first()))
            }
        } else {
            None
        }
    } else if all_digits(f) {
        Some(digits_value(f))
    } else {
        None
    }
}

/// The value of `f` read as a 32-bit signed integer, if it is one.
pub open spec fn int_of(f: Seq<char>) -> Option<int> {
    match signed_value(f) {
        Some(v) => if i32::MIN <= v <= i32::MAX {
            Some(v)
        } else {
            None
        },
        None => None,
    }
}

pub open spec fn abs(v: int) -> int {
    if v < 0 {
        -v
    } else {
        v
    }
}

/// Whether the hour field, as written, carries a minus sign.
pub open spec fn hour_text_negative(s: Seq<char>) -> bool {
    let h = split_on(s, ':')[0];
    h.len() > 0 && h[0] == '-'
}

/// `|hour| * 3600 + minute * 60 + second` of a well-formed offset.
pub open spec fn offset_magnitude(s: Seq<char>) -> int {
    let f = split_on(s, ':');
    abs(int_of(f[0])->0) * 3600 + int_of(f[1])->0 * 60 + int_of(f[2])->0
}

/// What an `H:MM:SS` offset denotes, in seconds.
pub open spec fn offset_spec(s: Seq<char>) -> Result<int, ParseError> {
    let f = split_on(s, ':');
    if f.len() != 3 {
        Err(ParseError::MalformedOffset)
    } else if int_of(f[0]) is None || int_of(f[1]) is None || int_of(f[2]) is None {
        Err(ParseError::InvalidNumber)
    } else if hour_text_negative(s) {
        Ok(-offset_magnitude(s))
    } else {
        Ok(offset_magnitude(s))
    }
}

/// With non-negative minute and second fields, the sign of a parsed offset follows the hour
/// field as written: it is negative exactly when that text starts with `-` and the magnitude is
/// non-zero, even where the hour itself reads as zero (`-0:30:00`).
pub proof fn lemma_offset_sign_follows_hour_text(s: Seq<char>)
    requires
        offset_spec(s) is Ok,
        int_of(split_on(s, ':')[1])->0 >= 0,
        int_of(split_on(s, ':')[2])->0 >= 0,
    ensures
        offset_magnitude(s) >= 0,
        hour_text_negative(s) ==> offset_spec(s) == Ok::<int, ParseError>(-offset_magnitude(s)),
        !hour_text_negative(s) ==> offset_spec(s) == Ok::<int, ParseError>(offset_magnitude(s)),
        (offset_spec(s)->Ok_0 < 0) <==> (hour_text_negative(s) && offset_magnitude(s) > 0),
        (offset_spec(s)->Ok_0 > 0) <==> (!hour_text_negative(s) && offset_magnitude(s) > 0),
{
}

/// The characters of `s`, one by one.
pub fn chars_of(s: &str) -> (r: Vec<char>)
    ensures
        r@ == s@,
{
    let n = s.unicode_len();
    let mut r: Vec<char> = Vec::new();
    let mut i: usize = 0;
    while i < n
        invariant
            n == s@.len(),
            i <= n,
            r@ == s@.subrange(0, i as int),
        decreases n - i,
    {
        r.push(s.get_char(i));
        i += 1;
    }
    assert(r@ =~= s@);
    r
}

/// Reads `cs[lo..hi]` as a 32-bit signed integer.
fn parse_int(cs: &Vec<char>, lo: usize, hi: usize) -> (r: Option<i32>)
    requires
        lo <= hi <= cs@.len(),
    ensures
        r matches Some(v) ==> int_of(cs@.subrange(lo as int, hi as int)) == Some(v as int),
        r is None ==> int_of(cs@.subrange(lo as int, hi as int)) is None,
{
    let ghost f = cs@.subrange(lo as int, hi as int);
    if lo == hi {
        return None;
    }
    let first = cs[lo];
    let signed = first == '+' || first == '-';
    let start: usize = if signed { lo + 1 } else { lo };
    let ghost d = cs@.subrange(start as int, hi as int);
    assert(signed ==> d =~= f.drop_first());
    assert(!signed ==> d =~= f);
    if start == hi {
        return None;
    }
    let cap: u64 = 2147483649;
    let mut acc: u64 = 0;
    let mut i: usize = start;
    while i < hi
        invariant
            lo <= start <= i <= hi <= cs@.len(),
            d == cs@.subrange(start as int, hi as int),
            f == cs@.subrange(lo as int, hi as int),
            lo < hi,
            first == cs@[lo as int],
            signed == (first == '+' || first == '-'),
            signed ==> d == f.drop_first(),
            !signed ==> d == f,
            forall|k: int| start <= k < i ==> is_digit(#[trigger] cs@[k]),
            acc as int == if digits_value(cs@.subrange(start as int, i as int)) < cap {
                digits_value(cs@.subrange(start as int, i as int))
            } else {
                cap as int
            },
            digits_value(cs@.subrange(start as int, i as int)) >= 0,
            cap == 2147483649,
        decreases hi - i,
    {
        let c = cs[i];
        if !('0' <= c && c <= '9') {
            assert(d[i - start] == c);
            assert(f[0] == first);
            assert(!all_digits(d));
            return None;
        }
        let ghost prev = cs@.subrange(start as int, i as int);
        let ghost next = cs@.subrange(start as int, i + 1);
        assert(next.drop_last() =~= prev);
        let dig: u64 = (c as u32 - '0' as u32) as u64;
        assert(dig as int == c as int - '0' as int);
        if acc * 10 + dig >= cap {
            acc = cap;
        } else {
            acc = acc * 10 + dig;
        }
        assert(digits_value(next) == digits_value(prev) * 10 + dig);
        i += 1;
    }
    assert(cs@.subrange(start as int, i as int) =~= d);
    assert(all_digits(d));
    if first == '-' {
        if acc > 2147483648 {
            None
        } else {
            Some((0 - acc as i64) as i32)
        }
    } else if acc > 2147483647 {
        None
    } else {
        Some(acc as i32)
    }
}

/// Converts an offset written `H:MM:SS` (the hour may carry a sign) into seconds.
///
/// The sign comes from the hour field as written, so `-0:30:00` is negative.
pub fn str_to_offset(s: &str) -> (r: Result<i64, ParseError>)
    ensures
        match r {
            Ok(v) => offset_spec(s@) == Ok::<int, ParseError>(v as int),
            Err(e) => offset_spec(s@) == Err::<int, ParseError>(e),
        },
{
    let cs = chars_of(s);
    let n = cs.len();
    let mut count: usize = 0;
    let mut p1: usize = 0;
    let mut p2: usize = 0;
    let mut field_start: usize = 0;
    let mut i: usize = 0;
    while i < n
        invariant
            n == cs@.len(),
            i <= n,
            count <= i,
            field_start <= i,
            split_on(cs@.subrange(0, i as int), ':').len() == count + 1,
            split_on(cs@.subrange(0, i as int), ':')[count as int] == cs@.subrange(
                field_start as int,
                i as int,
            ),
            count >= 1 ==> p1 < field_start && split_on(cs@.subrange(0, i as int), ':')[0]
                == cs@.subrange(0, p1 as int),
            count == 0 ==> field_start == 0,
            count == 1 ==> field_start == p1 + 1,
            count >= 2 ==> p1 < p2 && p2 < field_start && split_on(cs@.subrange(0, i as int), ':')[1]
                == cs@.subrange(p1 + 1, p2 as int),
            count == 2 ==> field_start == p2 + 1,
        decreases n - i,
    {
        let ghost prev = cs@.subrange(0, i as int);
        let ghost next = cs@.subrange(0, i + 1);
        assert(next.drop_last() =~= prev);
        if cs[i] == ':' {
            if count == 0 {
                p1 = i;
            } else if count == 1 {
                p2 = i;
            }
            count += 1;
            field_start = i + 1;
            assert(cs@.subrange(field_start as int, i + 1) =~= Seq::<char>::empty());
        } else {
            assert(cs@.subrange(field_start as int, i + 1) =~= cs@.subrange(
                field_start as int,
                i as int,
            ).push(cs@[i as int]));
        }
        i += 1;
    }
    assert(cs@.subrange(0, n as int) =~= cs@);
    if count != 2 {
        return Err(ParseError::MalformedOffset);
    }
    let hour = parse_int(&cs, 0, p1);
    let minute = parse_int(&cs, p1 + 1, p2);
    let second = parse_int(&cs, p2 + 1, n);
    match (hour, minute, second) {
        (Some(h), Some(m), Some(sec)) => {
            let h_abs: i64 = if h < 0 { 0 - h as i64 } else { h as i64 };
            let magnitude: i64 = h_abs * 3600 + m as i64 * 60 + sec as i64;
            if p1 > 0 && cs[0] == '-' {
                Ok(0 - magnitude)
            } else {
                Ok(magnitude)
            }
        },
        _ => Err(ParseError::InvalidNumber),
    }
}

} // verus!
