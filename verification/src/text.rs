//! Decimal numerals for error messages.
use vstd::prelude::*;
use vstd::string::*;

verus! {

/// The decimal numeral of `n`, most significant digit first.
pub open spec fn decimal(n: nat) -> Seq<char>
    decreases n,
{
    if n < 10 {
        seq![digit(n)]
    } else {
        decimal(n / 10).push(digit(n % 10))
    }
}

/// The character of one decimal digit.
pub open spec fn digit(d: nat) -> char {
    "0123456789"@[d as int]
}

/// A numeral ends with the character of the last digit, counted from that of
/// zero; in front of it stands the numeral of the tenth part, where there is
/// one.
pub proof fn law_decimal_digits(n: nat)
    ensures
        decimal(n).len() > 0,
        decimal(n).last() as int == '0' as int + n % 10,
        n < 10 ==> decimal(n).len() == 1,
        n >= 10 ==> decimal(n).drop_last() == decimal(n / 10),
{
    reveal_strlit("0123456789");
    if n >= 10 {
        assert(decimal(n).drop_last() =~= decimal(n / 10));
    }
}

/// Writes `n` in decimal.
pub fn to_decimal(n: u64) -> (text: String)
    ensures
        text@ == decimal(n as nat),
    decreases n,
{
    let digits = "0123456789";
    proof {
        reveal_strlit("0123456789");
        assert(is_ascii(digits)) by {
            assert forall|i: int| 0 <= i < digits@.len() implies (#[trigger] digits@[i] as nat)
                < 128 by {}
        }
    }
    let d: usize = (n % 10) as usize;
    let last = digits.substring_ascii(d, d + 1);
    assert(last@ =~= seq![digit((n % 10) as nat)]);
    if n < 10 {
        last.to_owned()
    } else {
        let mut text = to_decimal(n / 10);
        text.append(last);
        assert(text@ =~= decimal(n as nat));
        text
    }
}

/// `head` followed by the decimal numeral of `n`.
pub fn with_number(head: &str, n: u64) -> (text: String)
    ensures
        text@ == head@ + decimal(n as nat),
{
    let mut text = head.to_owned();
    let tail = to_decimal(n);
    text.append(tail.as_str());
    text
}

} // verus!
