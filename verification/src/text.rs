//! Writing numbers as text.
use vstd::prelude::*;
use vstd::string::*;

verus! {

/// The character of a decimal digit.
pub open spec fn digit(d: int) -> char {
    if d == 0 {
        '0'
    } else if d == 1 {
        '1'
    } else if d == 2 {
        '2'
    } else if d == 3 {
        '3'
    } else if d == 4 {
        '4'
    } else if d == 5 {
        '5'
    } else if d == 6 {
        '6'
    } else if d == 7 {
        '7'
    } else if d == 8 {
        '8'
    } else {
        '9'
    }
}

/// A number in decimal, without leading zeros.
pub open spec fn decimal(n: nat) -> Seq<char>
    decreases n,
{
    if n < 10 {
        seq![digit(n as int)]
    } else {
        decimal(n / 10).push(digit((n % 10) as int))
    }
}

/// A number in decimal, led by as many zeros as it takes to fill `width` places.
pub open spec fn padded(n: nat, width: nat) -> Seq<char> {
    let digits = decimal(n);
    Seq::new(
        if width > digits.len() {
            (width - digits.len()) as nat
        } else {
            0
        },
        |i: int| '0',
    ) + digits
}

/// The text of a digit.
fn digit_text(d: u64) -> (r: &'static str)
    requires
        d < 10,
    ensures
        r@ == seq![digit(d as int)],
{
    proof {
        reveal_strlit("0");
        reveal_strlit("1");
        reveal_strlit("2");
        reveal_strlit("3");
        reveal_strlit("4");
        reveal_strlit("5");
        reveal_strlit("6");
        reveal_strlit("7");
        reveal_strlit("8");
        reveal_strlit("9");
    }
    let r = if d == 0 {
        "0"
    } else if d == 1 {
        "1"
    } else if d == 2 {
        "2"
    } else if d == 3 {
        "3"
    } else if d == 4 {
        "4"
    } else if d == 5 {
        "5"
    } else if d == 6 {
        "6"
    } else if d == 7 {
        "7"
    } else if d == 8 {
        "8"
    } else {
        "9"
    };
    assert(r@ =~= seq![digit(d as int)]);
    r
}

/// Writes a number in decimal.
pub fn write_decimal(out: &mut String, n: u64)
    ensures
        final(out)@ == old(out)@ + decimal(n as nat),
    decreases n,
{
    let ghost was = out@;
    if n >= 10 {
        write_decimal(out, n / 10);
        let ghost mid = out@;
        out.append(digit_text(n % 10));
        assert(out@ =~= was + decimal(n as nat)) by {
            assert(mid == was + decimal((n / 10) as nat));
            assert(out@ == mid + seq![digit((n % 10) as int)]);
        }
    } else {
        out.append(digit_text(n));
        assert(out@ =~= was + decimal(n as nat));
    }
}

/// Writes a number in decimal, led by zeros up to `width` places.
pub fn write_padded(out: &mut String, n: u64, width: usize)
    ensures
        final(out)@ == old(out)@ + padded(n as nat, width as nat),
{
    let ghost was = out@;
    let mut digits: String = String::new();
    write_decimal(&mut digits, n);
    assert(digits@ =~= decimal(n as nat));
    let have: usize = digits.as_str().unicode_len();
    let mut k: usize = have;
    while k < width
        invariant
            have <= k,
            k <= width || k == have,
            out@ == was + Seq::new((k - have) as nat, |i: int| '0'),
        decreases width - k,
    {
        let ghost before = out@;
        proof {
            reveal_strlit("0");
        }
        out.append("0");
        assert(out@ =~= was + Seq::new((k + 1 - have) as nat, |i: int| '0')) by {
            assert(out@ == before + "0"@);
        }
        k = k + 1;
    }
    let ghost mid = out@;
    out.append(digits.as_str());
    assert(out@ =~= was + padded(n as nat, width as nat)) by {
        assert(out@ == mid + decimal(n as nat));
    }
}

/// A number in decimal, led by a minus sign when it is negative.
pub open spec fn signed(n: int) -> Seq<char> {
    if n < 0 {
        "-"@ + decimal((-n) as nat)
    } else {
        decimal(n as nat)
    }
}

/// Writes a number in decimal, led by a minus sign when it is negative.
pub fn write_signed(out: &mut String, n: i64)
    requires
        n > i64::MIN,
    ensures
        final(out)@ == old(out)@ + signed(n as int),
{
    let ghost was = out@;
    if n < 0 {
        out.append("-");
        write_decimal(out, (-n) as u64);
        assert(out@ =~= was + signed(n as int));
    } else {
        write_decimal(out, n as u64);
    }
}

/// The number that decimal digits spell, the first weighing most.
pub open spec fn spelled(digits: Seq<char>) -> int
    decreases digits.len(),
{
    if digits.len() == 0 {
        0
    } else {
        10 * spelled(digits.drop_last()) + (digits.last() as int - 48)
    }
}

/// Numerals spell their number, in digits only, and no numeral but zero's starts with a zero.
pub proof fn law_numerals_spell_their_number(n: nat)
    ensures
        spelled(decimal(n)) == n,
        decimal(n).len() > 0,
        forall|i: int| 0 <= i < decimal(n).len() ==> 48 <= #[trigger] decimal(n)[i] as int <= 57,
        n > 0 ==> decimal(n)[0] as int != 48,
        decimal(n).len() == 1 <==> n < 10,
    decreases n,
{
    if n < 10 {
        assert(decimal(n).drop_last() =~= Seq::empty());
        assert(spelled(decimal(n).drop_last()) == 0);
    } else {
        law_numerals_spell_their_number(n / 10);
        assert(decimal(n).drop_last() =~= decimal(n / 10));
    }
}

/// Leading zeros change nothing of the number: they fill a numeral up to its width, and no further.
pub proof fn law_padding_only_leads_with_zeros(n: nat, width: nat)
    ensures
        spelled(padded(n, width)) == n,
        padded(n, width).len() >= width,
        padded(n, width).len() >= decimal(n).len(),
        padded(n, width).len() == width || padded(n, width).len() == decimal(n).len(),
        forall|i: int|
            0 <= i < padded(n, width).len() - decimal(n).len() ==> #[trigger] padded(n, width)[i]
                as int == 48,
        padded(n, width).subrange(
            padded(n, width).len() - decimal(n).len(),
            padded(n, width).len() as int,
        ) == decimal(n),
{
    law_numerals_spell_their_number(n);
    let zeros = padded(n, width).subrange(0, padded(n, width).len() - decimal(n).len());
    assert(padded(n, width) =~= zeros + decimal(n));
    lemma_zeros_spell_nothing(zeros, decimal(n));
    assert(padded(n, width).subrange(
        padded(n, width).len() - decimal(n).len(),
        padded(n, width).len() as int,
    ) =~= decimal(n));
}

proof fn lemma_zeros_spell_nothing(zeros: Seq<char>, digits: Seq<char>)
    requires
        forall|i: int| 0 <= i < zeros.len() ==> #[trigger] zeros[i] as int == 48,
    ensures
        spelled(zeros + digits) == spelled(digits),
    decreases zeros.len() + digits.len(),
{
    if digits.len() > 0 {
        assert((zeros + digits).drop_last() =~= zeros + digits.drop_last());
        lemma_zeros_spell_nothing(zeros, digits.drop_last());
    } else if zeros.len() > 0 {
        assert(zeros + digits =~= zeros);
        assert(zeros.drop_last() + digits =~= zeros.drop_last());
        lemma_zeros_spell_nothing(zeros.drop_last(), digits);
    }
}

/// A minus sign leads the numerals of negative numbers, and of no others.
pub proof fn law_negative_numerals_lead_with_a_minus(n: int)
    ensures
        n < 0 ==> signed(n)[0] as int == 45 && spelled(signed(n).drop_first()) == -n,
        n >= 0 ==> spelled(signed(n)) == n && 48 <= signed(n)[0] as int <= 57,
{
    reveal_strlit("-");
    if n < 0 {
        law_numerals_spell_their_number((-n) as nat);
        assert(signed(n).drop_first() =~= decimal((-n) as nat));
    } else {
        law_numerals_spell_their_number(n as nat);
    }
}

} // verus!
