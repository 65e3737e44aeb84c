//! Decimal rendering of machine words, as used in messages and debug output.

use vstd::prelude::*;
use vstd::string::*;

verus! {

/// The character that stands for a single decimal digit.
pub open spec fn digit(d: nat) -> char {
    if d == 0 {
        '0'
    } else if d == 1 {
        '1'
    } else if d == 2 {
        '2'
    } else if d == 3 {
        '3'
    } else if d == 4 {
        '4'
    } else if d == 5 {
        '5'
    } else if d == 6 {
        '6'
    } else if d == 7 {
        '7'
    } else if d == 8 {
        '8'
    } else {
        '9'
    }
}

/// The usual base-ten numeral of `n`: most significant digit first, no sign,
/// no padding, and the single digit `0` for zero.
pub open spec fn decimal(n: nat) -> Seq<char>
    decreases n,
{
    if n < 10 {
        seq![digit(n)]
    } else {
        decimal(n / 10).push(digit(n % 10))
    }
}

/// The digits of `low_first`, rendered last element first.
spec fn rendered_backwards(low_first: Seq<usize>) -> Seq<char>
    decreases low_first.len(),
{
    if low_first.len() == 0 {
        Seq::empty()
    } else {
        seq![digit(low_first.last() as nat)] + rendered_backwards(low_first.drop_last())
    }
}

/// The text of one character that stands for the digit `d`.

fn digit_text(d: usize) -> (text: &'static str)
    requires
        d < 10,
    ensures
        text@ == seq![digit(d as nat)],
{
    proof {
        reveal_strlit("0");
        reveal_strlit("1");
        reveal_strlit("2");
        reveal_strlit("3");
        reveal_strlit("4");
        reveal_strlit("5");
        reveal_strlit("6");
        reveal_strlit("7");
        reveal_strlit("8");
        reveal_strlit("9");
    }
    let text = if d == 0 {
        "0"
    } else if d == 1 {
        "1"
    } else if d == 2 {
        "2"
    } else if d == 3 {
        "3"
    } else if d == 4 {
        "4"
    } else if d == 5 {
        "5"
    } else if d == 6 {
        "6"
    } else if d == 7 {
        "7"
    } else if d == 8 {
        "8"
    } else {
        "9"
    };
    assert(text@ =~= seq![digit(d as nat)]);
    text
}

/// Appends the base-ten numeral of `n` to `out`.
pub(crate) fn push_decimal(out: &mut String, n: usize)
    ensures
        final(out)@ == old(out)@ + decimal(n as nat),
{
    let mut low_first: Vec<usize> = Vec::new();
    let mut rest: usize = n;
    while rest >= 10
        invariant
            decimal(n as nat) == decimal(rest as nat) + rendered_backwards(low_first@),
            forall|k: int| 0 <= k < low_first@.len() ==> low_first@[k] < 10,
        decreases rest,
    {
        let ghost before = low_first@;
        low_first.push(rest % 10);
        proof {
            assert(low_first@.drop_last() =~= before);
            assert(decimal(rest as nat) =~= decimal((rest / 10) as nat) + seq![
                digit((rest % 10) as nat),
            ]);
            assert(decimal(n as nat) =~= decimal((rest / 10) as nat) + rendered_backwards(
                low_first@,
            ));
        }
        rest = rest / 10;
    }
    out.append(digit_text(rest));
    let mut i: usize = low_first.len();
    proof {
        assert(low_first@.take(i as int) =~= low_first@);
        assert(decimal(rest as nat) =~= seq![digit(rest as nat)]);
    }
    while i > 0
        invariant
            i <= low_first@.len(),
            forall|k: int| 0 <= k < low_first@.len() ==> low_first@[k] < 10,
            out@ + rendered_backwards(low_first@.take(i as int)) == old(out)@ + decimal(n as nat),
        decreases i,
    {
        i = i - 1;
        proof {
            let shorter = low_first@.take(i as int);
            let longer = low_first@.take(i + 1);
            assert(longer.drop_last() =~= shorter);
            assert(longer.last() == low_first@[i as int]);
            assert((out@ + seq![digit(low_first@[i as int] as nat)]) + rendered_backwards(shorter)
                =~= out@ + rendered_backwards(longer));
        }
        out.append(digit_text(low_first[i]));
    }
    proof {
        assert(low_first@.take(0) =~= Seq::<usize>::empty());
        assert(out@ + Seq::<char>::empty() =~= out@);
    }
}

} // verus!
