//! The text by which a polynomial is shown.

use super::{Polynomial, Storage};
use vstd::prelude::*;
use vstd::string::StringExecFns;

verus! {

/// The decimal digit of a number below ten.
pub open spec fn digit(d: int) -> char {
    if d == 0 {
        '0'
    } else if d == 1 {
        '1'
    } else if d == 2 {
        '2'
    } else if d == 3 {
        '3'
    } else if d == 4 {
        '4'
    } else if d == 5 {
        '5'
    } else if d == 6 {
        '6'
    } else if d == 7 {
        '7'
    } else if d == 8 {
        '8'
    } else {
        '9'
    }
}

/// A number in decimal, without leading zeroes.
pub open spec fn decimal(n: nat) -> Seq<char>
    decreases n,
{
    if n < 10 {
        seq![digit(n as int)]
    } else {
        decimal(n / 10).push(digit(n as int % 10))
    }
}

fn digit_text(d: usize) -> (r: &'static str)
    requires
        d < 10,
    ensures
        r@ == seq![digit(d as int)],
{
    proof {
        reveal_strlit("0");
        reveal_strlit("1");
        reveal_strlit("2");
        reveal_strlit("3");
        reveal_strlit("4");
        reveal_strlit("5");
        reveal_strlit("6");
        reveal_strlit("7");
        reveal_strlit("8");
        reveal_strlit("9");
    }
    let r = if d == 0 {
        "0"
    } else if d == 1 {
        "1"
    } else if d == 2 {
        "2"
    } else if d == 3 {
        "3"
    } else if d == 4 {
        "4"
    } else if d == 5 {
        "5"
    } else if d == 6 {
        "6"
    } else if d == 7 {
        "7"
    } else if d == 8 {
        "8"
    } else {
        "9"
    };
    assert(r@ =~= seq![digit(d as int)]);
    r
}

/// Appends a number in decimal.
fn append_decimal(text: &mut String, n: usize)
    ensures
        final(text)@ == old(text)@ + decimal(n as nat),
    decreases n,
{
    let ghost before = text@;
    if n >= 10 {
        append_decimal(text, n / 10);
    }
    text.append(digit_text(n % 10));
    assert(text@ =~= before + decimal(n as nat));
}

impl<F, B, S: Storage<F>> Polynomial<F, B, S> {
    /// The number of values and where they reside.
    pub fn debug_text(&self) -> (r: String)
        ensures
            r@ == "Polynomial { len: "@ + decimal(S::spec_backing_len(&self.spec_backing()))
                + ", residency: \""@ + (if S::IS_DEVICE {
                "Device"@
            } else {
                "Host"@
            }) + "\" }"@,
    {
        let mut text = String::new();
        text.append("Polynomial { len: ");
        append_decimal(&mut text, self.len());
        text.append(", residency: \"");
        text.append(
            if S::IS_DEVICE {
                "Device"
            } else {
                "Host"
            },
        );
        text.append("\" }");
        text
    }
}

/// The number that decimal digits stand for, the last of which counts one.
pub open spec fn number_of(text: Seq<char>) -> int
    decreases text.len(),
{
    if text.len() == 0 {
        0
    } else {
        number_of(text.drop_last()) * 10 + (text.last() as u32 - 48)
    }
}

/// A number in decimal consists of digits, does not start with a zero unless it is
/// zero, and is read back as the number.
pub proof fn lemma_decimal(n: nat)
    ensures
        number_of(decimal(n)) == n,
        decimal(n).len() > 0,
        decimal(n).len() > 1 ==> decimal(n)[0] != '0',
        forall|i: int| 0 <= i < decimal(n).len() ==> '0' <= #[trigger] decimal(n)[i] <= '9',
    decreases n,
{
    let text = decimal(n);
    if n < 10 {
        assert(text.drop_last() =~= Seq::empty());
        assert(number_of(text.drop_last()) == 0);
        assert(text.last() == digit(n as int));
    } else {
        let (q, d) = (n / 10, n as int % 10);
        lemma_decimal(q);
        assert(text.drop_last() =~= decimal(q));
        assert(text.last() == digit(d));
        assert(digit(d) as u32 == 48 + d);
        if decimal(q).len() == 1 {
            assert(decimal(q)[0] == text[0]);
            if q >= 10 {
                lemma_decimal(q / 10);
                assert(decimal(q).len() == decimal(q / 10).len() + 1);
            }
            assert(q < 10 && q > 0);
        } else {
            assert(decimal(q)[0] == text[0]);
        }
        assert forall|i: int| 0 <= i < text.len() implies '0' <= #[trigger] text[i] <= '9' by {
            if i < text.len() - 1 {
                assert(text[i] == decimal(q)[i]);
            }
        }
    }
}

} // verus!
