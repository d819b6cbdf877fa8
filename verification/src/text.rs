//! Numbers written out in error messages.

use vstd::prelude::*;
use vstd::string::StringExecFns;

verus! {

/// The character for a digit below sixteen.
pub open spec fn digit_text(digit: nat) -> Seq<char> {
    if digit == 0 {
        "0"@
    } else if digit == 1 {
        "1"@
    } else if digit == 2 {
        "2"@
    } else if digit == 3 {
        "3"@
    } else if digit == 4 {
        "4"@
    } else if digit == 5 {
        "5"@
    } else if digit == 6 {
        "6"@
    } else if digit == 7 {
        "7"@
    } else if digit == 8 {
        "8"@
    } else if digit == 9 {
        "9"@
    } else if digit == 10 {
        "a"@
    } else if digit == 11 {
        "b"@
    } else if digit == 12 {
        "c"@
    } else if digit == 13 {
        "d"@
    } else if digit == 14 {
        "e"@
    } else {
        "f"@
    }
}

/// A natural number in decimal notation.
pub open spec fn decimal_text(n: nat) -> Seq<char>
    decreases n,
{
    if n < 10 {
        digit_text(n)
    } else {
        decimal_text(n / 10) + digit_text(n % 10)
    }
}

/// An integer in decimal notation.
pub open spec fn integer_text(n: int) -> Seq<char> {
    if n < 0 {
        "-"@ + decimal_text((-n) as nat)
    } else {
        decimal_text(n as nat)
    }
}

/// The low `width` hexadecimal digits of a number.
pub open spec fn hex_text(n: nat, width: nat) -> Seq<char>
    decreases width,
{
    if width == 0 {
        ""@
    } else {
        hex_text(n / 16, (width - 1) as nat) + digit_text(n % 16)
    }
}

/// The number that a digit stands for.
pub open spec fn digit_number(c: char) -> int {
    if 'a' <= c {
        c as int - 'a' as int + 10
    } else {
        c as int - '0' as int
    }
}

/// The number that digits stand for in a base, the highest one first.
pub open spec fn spelled(digits: Seq<char>, base: int) -> int
    decreases digits.len(),
{
    if digits.len() == 0 {
        0
    } else {
        spelled(digits.drop_last(), base) * base + digit_number(digits.last())
    }
}

proof fn lemma_digit(digit: nat)
    requires
        digit < 16,
    ensures
        digit_text(digit).len() == 1,
        digit_number(digit_text(digit)[0]) == digit,
        digit_text(digit)[0] == '0' <==> digit == 0,
{
    reveal_strlit("0");
    reveal_strlit("1");
    reveal_strlit("2");
    reveal_strlit("3");
    reveal_strlit("4");
    reveal_strlit("5");
    reveal_strlit("6");
    reveal_strlit("7");
    reveal_strlit("8");
    reveal_strlit("9");
    reveal_strlit("a");
    reveal_strlit("b");
    reveal_strlit("c");
    reveal_strlit("d");
    reveal_strlit("e");
    reveal_strlit("f");
}

proof fn lemma_spelled(front: Seq<char>, digit: nat, base: int)
    requires
        digit < 16,
    ensures
        spelled(front + digit_text(digit), base) == spelled(front, base) * base + digit,
        (front + digit_text(digit)).len() == front.len() + 1,
{
    lemma_digit(digit);
    let whole = front + digit_text(digit);
    assert(whole.drop_last() =~= front);
    assert(whole.last() == digit_text(digit)[0]);
}

/// Decimal digits spell the number, without a zero in front.
pub proof fn law_decimal_spelled(n: nat)
    ensures
        spelled(decimal_text(n), 10) == n,
        decimal_text(n).len() > 0,
        n > 0 ==> decimal_text(n)[0] != '0',
    decreases n,
{
    if n < 10 {
        let none: Seq<char> = seq![];
        lemma_digit(n);
        lemma_spelled(none, n, 10);
        assert(none + digit_text(n) =~= decimal_text(n));
    } else {
        law_decimal_spelled(n / 10);
        lemma_spelled(decimal_text(n / 10), n % 10, 10);
    }
}

/// An integer is spelled by its absolute value, behind a minus sign where it is negative.
pub proof fn law_integer_spelled(n: int)
    ensures
        n >= 0 ==> spelled(integer_text(n), 10) == n,
        n < 0 ==> integer_text(n)[0] == '-' && spelled(integer_text(n).skip(1), 10) == -n,
{
    reveal_strlit("-");
    if n < 0 {
        law_decimal_spelled((-n) as nat);
        assert(integer_text(n).skip(1) =~= decimal_text((-n) as nat));
    } else {
        law_decimal_spelled(n as nat);
    }
}

/// Hexadecimal digits spell the number, as far as they reach.
pub proof fn law_hex_spelled(n: nat, width: nat)
    requires
        n < vstd::arithmetic::power::pow(16, width),
    ensures
        hex_text(n, width).len() == width,
        spelled(hex_text(n, width), 16) == n,
    decreases width,
{
    reveal_strlit("");
    if width == 0 {
        vstd::arithmetic::power::lemma_pow0(16);
    } else {
        reveal(vstd::arithmetic::power::pow);
        law_hex_spelled(n / 16, (width - 1) as nat);
        lemma_spelled(hex_text(n / 16, (width - 1) as nat), n % 16, 16);
    }
}

fn digit(n: u64) -> (s: &'static str)
    requires
        n < 16,
    ensures
        s@ == digit_text(n as nat),
{
    if n == 0 {
        "0"
    } else if n == 1 {
        "1"
    } else if n == 2 {
        "2"
    } else if n == 3 {
        "3"
    } else if n == 4 {
        "4"
    } else if n == 5 {
        "5"
    } else if n == 6 {
        "6"
    } else if n == 7 {
        "7"
    } else if n == 8 {
        "8"
    } else if n == 9 {
        "9"
    } else if n == 10 {
        "a"
    } else if n == 11 {
        "b"
    } else if n == 12 {
        "c"
    } else if n == 13 {
        "d"
    } else if n == 14 {
        "e"
    } else {
        "f"
    }
}

/// Appends a number in decimal notation.
pub fn push_decimal(out: &mut String, n: u64)
    ensures
        final(out)@ == old(out)@ + decimal_text(n as nat),
    decreases n,
{
    if n >= 10 {
        push_decimal(out, n / 10);
    }
    out.append(digit(n % 10));
    proof {
        if n >= 10 {
            assert(old(out)@ + (decimal_text((n / 10) as nat) + digit_text((n % 10) as nat))
                =~= (old(out)@ + decimal_text((n / 10) as nat)) + digit_text((n % 10) as nat));
        }
    }
}

/// Appends an integer in decimal notation.
pub fn push_integer(out: &mut String, n: i64)
    ensures
        final(out)@ == old(out)@ + integer_text(n as int),
{
    if n < 0 {
        out.append("-");
        push_decimal(out, (-(n as i128)) as u64);
        proof {
            assert((old(out)@ + "-"@) + decimal_text((-n) as nat) =~= old(out)@ + ("-"@
                + decimal_text((-n) as nat)));
        }
    } else {
        push_decimal(out, n as u64);
    }
}

/// Appends the low `width` hexadecimal digits of a number.
pub fn push_hex(out: &mut String, n: u64, width: u32)
    ensures
        final(out)@ == old(out)@ + hex_text(n as nat, width as nat),
    decreases width,
{
    if width == 0 {
        proof {
            reveal_strlit("");
            assert(old(out)@ + ""@ =~= old(out)@);
        }
        return;
    }
    push_hex(out, n / 16, width - 1);
    out.append(digit(n % 16));
    proof {
        assert(old(out)@ + (hex_text((n / 16) as nat, (width - 1) as nat) + digit_text(
            (n % 16) as nat,
        )) =~= (old(out)@ + hex_text((n / 16) as nat, (width - 1) as nat)) + digit_text(
            (n % 16) as nat,
        ));
    }
}

/// `before`, a number, `after`.
pub fn sentence(before: &str, n: u64, after: &str) -> (s: String)
    ensures
        s@ == before@ + decimal_text(n as nat) + after@,
{
    let mut s: String = before.to_owned();
    push_decimal(&mut s, n);
    s.append(after);
    s
}

} // verus!
