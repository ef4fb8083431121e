use vstd::prelude::*;

verus! {

/// The character of the decimal digit `d` (0 to 9).
pub open spec fn digit_char(d: int) -> char {
    (d + 48) as char
}

/// Whether `c` is one of the ASCII digits `0` to `9`.
pub open spec fn is_digit(c: char) -> bool {
    48 <= c as int <= 57
}

/// The decimal digits of `n`, most significant first, without leading zeros
/// (`0` is the single digit `0`).
pub open spec fn decimal_digits(n: nat) -> Seq<char>
    decreases n,
{
    if n < 10 {
        seq![digit_char(n as int)]
    } else {
        decimal_digits(n / 10).push(digit_char((n % 10) as int))
    }
}

/// The decimal text of `v`: a `-` before the digits of a negative value.
pub open spec fn decimal(v: int) -> Seq<char> {
    if v < 0 {
        seq!['-'] + decimal_digits((-v) as nat)
    } else {
        decimal_digits(v as nat)
    }
}

/// Whether every character of `ds` is an ASCII digit.
pub open spec fn all_digits(ds: Seq<char>) -> bool {
    forall|i: int| 0 <= i < ds.len() ==> #[trigger] is_digit(ds[i])
}

/// The value of a string of decimal digits, most significant first.
pub open spec fn digits_value(ds: Seq<char>) -> int
    decreases ds.len(),
{
    if ds.len() == 0 {
        0
    } else {
        digits_value(ds.drop_last()) * 10 + (ds.last() as int - 48)
    }
}

/// What `i32::from_str` accepts: an optional `+` or `-`, then one or more
/// ASCII digits whose signed value fits in an `i32`; `None` for anything else.
pub open spec fn parsed_i32(s: Seq<char>) -> Option<i32> {
    let signed = s.len() > 0 && (s[0] == '-' || s[0] == '+');
    let negative = s.len() > 0 && s[0] == '-';
    let ds = if signed {
        s.drop_first()
    } else {
        s
    };
    let v = if negative {
        -digits_value(ds)
    } else {
        digits_value(ds)
    };
    if ds.len() > 0 && all_digits(ds) && i32::MIN <= v <= i32::MAX {
        Some(v as i32)
    } else {
        None
    }
}

/// The digits of `n` are digits, start with a digit, and read back as `n`.
pub proof fn lemma_decimal_digits(n: nat)
    ensures
        decimal_digits(n).len() > 0,
        forall|i: int| 0 <= i < decimal_digits(n).len() ==> #[trigger] is_digit(decimal_digits(n)[i]),
        digits_value(decimal_digits(n)) == n,
    decreases n,
{
    if n >= 10 {
        lemma_decimal_digits(n / 10);
        let ds = decimal_digits(n);
        assert(ds.drop_last() =~= decimal_digits(n / 10));
        assert(ds.last() as int - 48 == n % 10);
        assert((n / 10) * 10 + n % 10 == n);
        assert(digits_value(ds) == digits_value(ds.drop_last()) * 10 + (ds.last() as int - 48));
        assert(digits_value(ds.drop_last()) == n / 10);
        assert forall|i: int| 0 <= i < ds.len() implies #[trigger] is_digit(ds[i]) by {
            if i < ds.len() - 1 {
                assert(ds[i] == decimal_digits(n / 10)[i]);
            }
        }
    } else {
        assert(decimal_digits(n) =~= seq![digit_char(n as int)]);
        assert(decimal_digits(n).drop_last() =~= Seq::<char>::empty());
        assert(decimal_digits(n).last() as int - 48 == n);
        assert(digits_value(decimal_digits(n)) == digits_value(decimal_digits(n).drop_last()) * 10 + (decimal_digits(n).last() as int - 48));
        assert(digits_value(Seq::<char>::empty()) == 0);
    }
}

/// Rendering an `i32` in decimal and parsing the text back gives the value.
pub proof fn lemma_parse_decimal(v: i32)
    ensures
        parsed_i32(decimal(v as int)) == Some(v),
        decimal(v as int).len() > 0,
        decimal(v as int)[0] == '-' || is_digit(decimal(v as int)[0]),
        forall|i: int| 0 <= i < decimal(v as int).len() ==> decimal(v as int)[i] == '-' || #[trigger] is_digit(
            decimal(v as int)[i],
        ),
{
    let s = decimal(v as int);
    if v < 0 {
        let m = (-(v as int)) as nat;
        lemma_decimal_digits(m);
        assert(s.drop_first() =~= decimal_digits(m));
        assert forall|i: int| 0 <= i < s.len() implies s[i] == '-' || #[trigger] is_digit(s[i]) by {
            if i > 0 {
                assert(s[i] == decimal_digits(m)[i - 1]);
            }
        }
    } else {
        lemma_decimal_digits(v as nat);
        assert(is_digit(s[0]));
    }
}

/// Calls `usize::to_string`; std's `Display` for integers writes the
/// decimal digits without sign or leading zeros.
#[verifier::external_body]
pub(crate) fn usize_to_string(n: usize) -> (s: String)
    ensures
        s@ == decimal(n as int),
{
    n.to_string()
}

/// Calls `i32::to_string`; std's `Display` for integers writes a `-` for a
/// negative value, then the decimal digits without leading zeros.
#[verifier::external_body]
pub(crate) fn i32_to_string(v: i32) -> (s: String)
    ensures
        s@ == decimal(v as int),
{
    v.to_string()
}

/// Calls `i32::from_str`, documented to accept an optional `+` or `-` sign
/// followed by digits only, and to fail on anything else or on overflow.
#[verifier::external_body]
pub(crate) fn parse_i32(s: &str) -> (r: Option<i32>)
    ensures
        r == parsed_i32(s@),
{
    match <i32 as std::str::FromStr>::from_str(s) {
        Ok(v) => Some(v),
        Err(_) => None,
    }
}

} // verus!
