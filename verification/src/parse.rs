//! Parsing of delimited textual pairs, such as `"400x600"` or `"-1.0,0.25"`.
//!
//! A pair string has the form `<left><sep><right>`: the first occurrence of
//! the separator byte splits it, and each half must parse as the target
//! numeric type. Everything is specified over the string's UTF-8 bytes, which
//! is also how the standard library slices at a separator index. The
//! separator must be an ASCII character, so finding its byte is the same as
//! finding the character.

use vstd::prelude::*;
use vstd::string::StringSliceAdditionalSpecFns;

verus! {

/// A decimal digit byte, `'0'` through `'9'`.
pub open spec fn is_digit(b: u8) -> bool {
    0x30 <= b <= 0x39
}

/// The numeric value of a digit byte (zero for anything below `'0'`).
pub open spec fn digit_val(b: u8) -> nat {
    if b >= 0x30 {
        (b - 0x30) as nat
    } else {
        0
    }
}

pub open spec fn all_digits(s: Seq<u8>) -> bool {
    forall|i: int| 0 <= i < s.len() ==> is_digit(s[i])
}

/// The value of a digit sequence read as a base-ten numeral.
pub open spec fn dec_val(s: Seq<u8>) -> nat
    decreases s.len(),
{
    if s.len() == 0 {
        0
    } else {
        dec_val(s.drop_last()) * 10 + digit_val(s.last())
    }
}

/// A longer numeral is worth at least as much as any prefix of it.
proof fn lemma_dec_val_prefix(s: Seq<u8>, k: int)
    requires
        0 <= k <= s.len(),
    ensures
        dec_val(s.subrange(0, k)) <= dec_val(s),
    decreases s.len(),
{
    if k == s.len() {
        assert(s.subrange(0, k) =~= s);
    } else {
        assert(s.drop_last() =~= s.subrange(0, s.len() - 1));
        assert(s.subrange(0, k) =~= s.drop_last().subrange(0, k));
        lemma_dec_val_prefix(s.drop_last(), k);
    }
}

/// What the standard library returns when parsing an unsigned integer no
/// greater than `max` from these bytes: an optional leading `'+'`, then at
/// least one digit, and the value must fit.
pub open spec fn parse_unsigned_spec(s: Seq<u8>, max: nat) -> Option<nat> {
    let d = if s.len() > 0 && s[0] == 0x2bu8 {
        s.subrange(1, s.len() as int)
    } else {
        s
    };
    if d.len() > 0 && all_digits(d) && dec_val(d) <= max {
        Some(dec_val(d))
    } else {
        None
    }
}

/// What the standard library returns when parsing a signed integer in
/// `[min, max]`: an optional sign, then at least one digit.
pub open spec fn parse_signed_spec(s: Seq<u8>, min: int, max: int) -> Option<int> {
    if s.len() > 0 && s[0] == 0x2du8 {
        let d = s.subrange(1, s.len() as int);
        if d.len() > 0 && all_digits(d) && -(dec_val(d) as int) >= min {
            Some(-(dec_val(d) as int))
        } else {
            None
        }
    } else {
        match parse_unsigned_spec(s, max as nat) {
            Some(n) => Some(n as int),
            None => None,
        }
    }
}

/// Accumulate the digits of `bytes[start..end]` left to right, failing on a
/// non-digit, on an empty range, or when the value would pass `cap`.
fn parse_digits(bytes: &[u8], start: usize, end: usize, cap: u64) -> (r: Option<u64>)
    requires
        start <= end <= bytes@.len(),
    ensures
        ({
            let s = bytes@.subrange(start as int, end as int);
            match r {
                Some(v) => s.len() > 0 && all_digits(s) && v == dec_val(s) && v <= cap,
                None => !(s.len() > 0 && all_digits(s) && dec_val(s) <= cap),
            }
        }),
{
    if start == end {
        return None;
    }
    let ghost whole = bytes@.subrange(start as int, end as int);
    let mut acc: u64 = 0;
    let mut i: usize = start;
    while i < end
        invariant
            start <= i <= end <= bytes@.len(),
            whole == bytes@.subrange(start as int, end as int),
            all_digits(bytes@.subrange(start as int, i as int)),
            acc == dec_val(bytes@.subrange(start as int, i as int)),
            acc <= cap,
        decreases end - i,
    {
        let b = bytes[i];
        let ghost prefix = bytes@.subrange(start as int, i as int);
        let ghost grown = bytes@.subrange(start as int, i + 1);
        proof {
            assert(grown.drop_last() =~= prefix);
            assert(grown.last() == bytes@[i as int]);
        }
        if b < 0x30 || b > 0x39 {
            proof {
                assert(whole[i - start] == bytes@[i as int]);
                assert(!all_digits(whole));
            }
            return None;
        }
        let d = (b - 0x30) as u64;
        if acc > cap / 10 || (acc == cap / 10 && d > cap % 10) {
            proof {
                assert(cap == 10 * (cap / 10) + cap % 10);
                assert(dec_val(grown) == acc * 10 + digit_val(b));
                assert(dec_val(grown) > cap);
                assert(grown =~= whole.subrange(0, i + 1 - start));
                lemma_dec_val_prefix(whole, i + 1 - start);
            }
            return None;
        }
        proof {
            assert(cap == 10 * (cap / 10) + cap % 10);
        }
        acc = acc * 10 + d;
        i = i + 1;
    }
    proof {
        assert(bytes@.subrange(start as int, i as int) =~= whole);
    }
    Some(acc)
}

/// Stripping a leading `'+'` from a field is taking the tail subrange.
proof fn lemma_strip_plus(bytes: Seq<u8>, start: int, digits_from: int, end: int)
    requires
        0 <= start <= end <= bytes.len(),
        digits_from == if start < end && bytes[start] == 0x2bu8 {
            start + 1
        } else {
            start
        },
    ensures
        ({
            let s = bytes.subrange(start, end);
            let d = if s.len() > 0 && s[0] == 0x2bu8 {
                s.subrange(1, s.len() as int)
            } else {
                s
            };
            d == bytes.subrange(digits_from, end)
        }),
{
    let s = bytes.subrange(start, end);
    if s.len() > 0 && s[0] == 0x2bu8 {
        assert(s.subrange(1, s.len() as int) =~= bytes.subrange(digits_from, end));
    } else {
        assert(s =~= bytes.subrange(digits_from, end));
    }
}

/// A numeric field of a textual pair: the target type of the generic pair
/// parser, with its parse pinned down by a specification function.
pub trait ParseField: Sized {
    /// The value the standard library's string parse yields for these bytes.
    spec fn field_spec(s: Seq<u8>) -> Option<Self>;

    /// Parse `bytes[start..end]` as a field.
    fn parse_field(bytes: &[u8], start: usize, end: usize) -> (r: Option<Self>)
        requires
            start <= end <= bytes@.len(),
        ensures
            r == Self::field_spec(bytes@.subrange(start as int, end as int)),
    ;
}

impl ParseField for u32 {
    open spec fn field_spec(s: Seq<u8>) -> Option<u32> {
        match parse_unsigned_spec(s, u32::MAX as nat) {
            Some(n) => Some(n as u32),
            None => None,
        }
    }

    fn parse_field(bytes: &[u8], start: usize, end: usize) -> (r: Option<u32>) {
        let digits_from = if start < end && bytes[start] == 0x2b {
            start + 1
        } else {
            start
        };
        proof {
            lemma_strip_plus(bytes@, start as int, digits_from as int, end as int);
        }
        match parse_digits(bytes, digits_from, end, 0xffff_ffff) {
            Some(v) => Some(v as u32),
            None => None,
        }
    }
}

impl ParseField for usize {
    open spec fn field_spec(s: Seq<u8>) -> Option<usize> {
        match parse_unsigned_spec(s, usize::MAX as nat) {
            Some(n) => Some(n as usize),
            None => None,
        }
    }

    fn parse_field(bytes: &[u8], start: usize, end: usize) -> (r: Option<usize>) {
        let digits_from = if start < end && bytes[start] == 0x2b {
            start + 1
        } else {
            start
        };
        proof {
            lemma_strip_plus(bytes@, start as int, digits_from as int, end as int);
        }
        match parse_digits(bytes, digits_from, end, usize::MAX as u64) {
            Some(v) => Some(v as usize),
            None => None,
        }
    }
}

impl ParseField for i32 {
    open spec fn field_spec(s: Seq<u8>) -> Option<i32> {
        match parse_signed_spec(s, i32::MIN as int, i32::MAX as int) {
            Some(v) => Some(v as i32),
            None => None,
        }
    }

    fn parse_field(bytes: &[u8], start: usize, end: usize) -> (r: Option<i32>) {
        if start < end && bytes[start] == 0x2d {
            proof {
                assert(bytes@.subrange(start as int, end as int).subrange(
                    1,
                    end - start,
                ) =~= bytes@.subrange(start + 1, end as int));
            }
            match parse_digits(bytes, start + 1, end, 0x8000_0000) {
                Some(m) => {
                    let v = -(m as i64);
                    Some(v as i32)
                },
                None => None,
            }
        } else {
            let digits_from = if start < end && bytes[start] == 0x2b {
                start + 1
            } else {
                start
            };
            proof {
                lemma_strip_plus(bytes@, start as int, digits_from as int, end as int);
            }
            match parse_digits(bytes, digits_from, end, 0x7fff_ffff) {
                Some(v) => Some(v as i32),
                None => None,
            }
        }
    }
}

/// The index of the first occurrence of `sep` in `s`, if any.
pub open spec fn first_sep(s: Seq<u8>, sep: u8) -> Option<int>
    decreases s.len(),
{
    if s.len() == 0 {
        None
    } else if s[0] == sep {
        Some(0)
    } else {
        match first_sep(s.drop_first(), sep) {
            Some(i) => Some(i + 1),
            None => None,
        }
    }
}

proof fn lemma_first_sep_found(s: Seq<u8>, sep: u8, i: int)
    requires
        0 <= i < s.len(),
        s[i] == sep,
        forall|j: int| 0 <= j < i ==> s[j] != sep,
    ensures
        first_sep(s, sep) == Some(i),
    decreases s.len(),
{
    if s[0] != sep {
        lemma_first_sep_found(s.drop_first(), sep, i - 1);
    }
}

proof fn lemma_first_sep_absent(s: Seq<u8>, sep: u8)
    requires
        forall|j: int| 0 <= j < s.len() ==> s[j] != sep,
    ensures
        first_sep(s, sep) is None,
    decreases s.len(),
{
    if s.len() > 0 {
        lemma_first_sep_absent(s.drop_first(), sep);
    }
}

/// Find the first occurrence of `sep` in a byte slice.
fn find_byte(bytes: &[u8], sep: u8) -> (r: Option<usize>)
    ensures
        match r {
            Some(i) => i < bytes@.len() && first_sep(bytes@, sep) == Some(i as int),
            None => first_sep(bytes@, sep) is None,
        },
{
    let n = bytes.len();
    let mut i: usize = 0;
    while i < n
        invariant
            i <= n == bytes@.len(),
            forall|j: int| 0 <= j < i ==> bytes@[j] != sep,
        decreases n - i,
    {
        if bytes[i] == sep {
            proof {
                lemma_first_sep_found(bytes@, sep, i as int);
            }
            return Some(i);
        }
        i = i + 1;
    }
    proof {
        lemma_first_sep_absent(bytes@, sep);
    }
    None
}

/// What parsing `s` as a pair of `T` fields around the first `sep` yields:
/// the parsed pair when the separator occurs and both halves parse, and
/// nothing otherwise.
pub open spec fn pair_spec<T: ParseField>(s: Seq<u8>, sep: u8) -> Option<(T, T)> {
    match first_sep(s, sep) {
        Some(i) => match (T::field_spec(s.subrange(0, i)), T::field_spec(
            s.subrange(i + 1, s.len() as int),
        )) {
            (Some(l), Some(r)) => Some((l, r)),
            _ => None,
        },
        None => None,
    }
}

/// Parse the string `s` as a coordinate pair, like `"400x600"`.
///
/// `s` should have the form `<left><sep><right>`, where `<sep>` is the
/// character given by `separator` (an ASCII character) and both halves parse
/// as `T`. The first occurrence of the separator is the split point; if it is
/// absent or either half fails to parse, there is no match.
pub fn parse_pair<T: ParseField>(s: &str, separator: char) -> (r: Option<(T, T)>)
    requires
        (separator as u32) < 128,
    ensures
        r == pair_spec::<T>(s.spec_bytes(), (separator as u32) as u8),
{
    let sep: u8 = (separator as u32) as u8;
    let bytes = s.as_bytes();
    let n = bytes.len();
    match find_byte(bytes, sep) {
        None => None,
        Some(i) => {
            let left: Option<T> = T::parse_field(bytes, 0, i);
            let right: Option<T> = T::parse_field(bytes, i + 1, n);
            match (left, right) {
                (Some(l), Some(r)) => Some((l, r)),
                _ => None,
            }
        },
    }
}

/// Split `s` at the first occurrence of the ASCII `separator`: the bytes
/// before it and the bytes after it, for a caller that parses the halves as
/// some type this module does not cover.
pub fn split_pair(s: &str, separator: char) -> (r: Option<(Vec<u8>, Vec<u8>)>)
    requires
        (separator as u32) < 128,
    ensures
        ({
            let bs = s.spec_bytes();
            match r {
                Some(p) => {
                    let i = first_sep(bs, (separator as u32) as u8);
                    i is Some && p.0@ == bs.subrange(0, i->Some_0) && p.1@ == bs.subrange(
                        i->Some_0 + 1,
                        bs.len() as int,
                    )
                },
                None => first_sep(bs, (separator as u32) as u8) is None,
            }
        }),
{
    let sep: u8 = (separator as u32) as u8;
    let bytes = s.as_bytes();
    match find_byte(bytes, sep) {
        None => None,
        Some(i) => {
            let mut left: Vec<u8> = Vec::new();
            let mut j: usize = 0;
            while j < i
                invariant
                    j <= i < bytes@.len(),
                    left@ == bytes@.subrange(0, j as int),
                decreases i - j,
            {
                left.push(bytes[j]);
                proof {
                    assert(left@ =~= bytes@.subrange(0, j + 1));
                }
                j = j + 1;
            }
            let n = bytes.len();
            let mut right: Vec<u8> = Vec::new();
            let mut k: usize = i + 1;
            while k < n
                invariant
                    i + 1 <= k <= n == bytes@.len(),
                    right@ == bytes@.subrange(i + 1, k as int),
                decreases n - k,
            {
                right.push(bytes[k]);
                proof {
                    assert(right@ =~= bytes@.subrange(i + 1, k + 1));
                }
                k = k + 1;
            }
            Some((left, right))
        },
    }
}

} // verus!

