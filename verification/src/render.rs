//! Numbers as decimal text.

use vstd::prelude::*;
use vstd::string::StringExecFns;

verus! {

/// The character of a digit.
pub open spec fn digit_char(d: int) -> char {
    if d == 0 {
        '0'
    } else if d == 1 {
        '1'
    } else if d == 2 {
        '2'
    } else if d == 3 {
        '3'
    } else if d == 4 {
        '4'
    } else if d == 5 {
        '5'
    } else if d == 6 {
        '6'
    } else if d == 7 {
        '7'
    } else if d == 8 {
        '8'
    } else {
        '9'
    }
}

/// A number in decimal digits, without leading zeros.
pub open spec fn spec_decimal(n: nat) -> Seq<char>
    decreases n,
{
    if n < 10 {
        seq![digit_char(n as int)]
    } else {
        spec_decimal(n / 10).push(digit_char((n % 10) as int))
    }
}

/// The text of one digit.
fn digit_text(d: u8) -> (r: &'static str)
    requires
        d < 10,
    ensures
        r@ == seq![digit_char(d as int)],
{
    proof {
        reveal_strlit("0");
        reveal_strlit("1");
        reveal_strlit("2");
        reveal_strlit("3");
        reveal_strlit("4");
        reveal_strlit("5");
        reveal_strlit("6");
        reveal_strlit("7");
        reveal_strlit("8");
        reveal_strlit("9");
    }
    let r = if d == 0 {
        "0"
    } else if d == 1 {
        "1"
    } else if d == 2 {
        "2"
    } else if d == 3 {
        "3"
    } else if d == 4 {
        "4"
    } else if d == 5 {
        "5"
    } else if d == 6 {
        "6"
    } else if d == 7 {
        "7"
    } else if d == 8 {
        "8"
    } else {
        "9"
    };
    proof {
        assert(r@ =~= seq![digit_char(d as int)]);
    }
    r
}

/// The digits from the `k`-th on, the last digit of the number first in
/// the list.
pub open spec fn digits_text(digits: Seq<u8>, k: int) -> Seq<char>
    decreases k,
{
    if k <= 0 {
        Seq::empty()
    } else {
        seq![digit_char(digits[k - 1] as int)] + digits_text(digits, k - 1)
    }
}

/// Writes a number in decimal digits.
pub fn decimal(n: u128) -> (text: String)
    ensures
        text@ == spec_decimal(n as nat),
{
    let mut digits: Vec<u8> = Vec::new();
    let mut rest: u128 = n;
    digits.push((rest % 10) as u8);
    rest = rest / 10;
    proof {
        let d = digit_char((n % 10) as int);
        assert(digits_text(digits@, 0) =~= Seq::<char>::empty());
        assert(digits_text(digits@, 1) =~= seq![d]);
        if n >= 10 {
            assert(spec_decimal(n as nat) =~= spec_decimal(rest as nat) + seq![d]);
        }
    }
    while rest > 0
        invariant
            digits.len() >= 1,
            forall|i: int| 0 <= i < digits.len() ==> digits[i] < 10,
            spec_decimal(n as nat) == if rest == 0 {
                digits_text(digits@, digits.len() as int)
            } else {
                spec_decimal(rest as nat) + digits_text(digits@, digits.len() as int)
            },
        decreases rest,
    {
        let ghost before = digits@;
        let ghost whole = rest;
        digits.push((rest % 10) as u8);
        rest = rest / 10;
        proof {
            lemma_digits_text_push(before, (whole % 10) as u8, before.len() as int);
            let tail = digits_text(before, before.len() as int);
            let d = digit_char((whole % 10) as int);
            assert(digits_text(digits@, digits.len() as int) =~= seq![d] + tail);
            if whole < 10 {
                assert(spec_decimal(whole as nat) + tail =~= seq![d] + tail);
            } else {
                assert(spec_decimal(whole as nat) + tail =~= spec_decimal(rest as nat) + (seq![d]
                    + tail));
            }
        }
    }
    let mut text = String::new();
    let mut k: usize = digits.len();
    while k > 0
        invariant
            k <= digits.len(),
            forall|i: int| 0 <= i < digits.len() ==> digits[i] < 10,
            text@ + digits_text(digits@, k as int) == digits_text(digits@, digits.len() as int),
        decreases k,
    {
        let ghost so_far = text@;
        text.append(digit_text(digits[k - 1]));
        proof {
            assert(text@ + digits_text(digits@, k - 1) =~= so_far + digits_text(digits@, k as int));
        }
        k -= 1;
    }
    proof {
        assert(text@ + digits_text(digits@, 0) =~= text@);
    }
    text
}

/// One more digit in the list does not change the text of the digits
/// before it.
proof fn lemma_digits_text_push(digits: Seq<u8>, d: u8, k: int)
    requires
        0 <= k <= digits.len(),
    ensures
        digits_text(digits.push(d), k) == digits_text(digits, k),
    decreases k,
{
    if k > 0 {
        lemma_digits_text_push(digits, d, k - 1);
    }
}

} // verus!
