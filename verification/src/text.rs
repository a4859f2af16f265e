//! Decimal text.

use vstd::prelude::*;

verus! {

/// The character of the digit `d`.
pub open spec fn digit_char(d: int) -> char {
    if d == 0 {
        '0'
    } else if d == 1 {
        '1'
    } else if d == 2 {
        '2'
    } else if d == 3 {
        '3'
    } else if d == 4 {
        '4'
    } else if d == 5 {
        '5'
    } else if d == 6 {
        '6'
    } else if d == 7 {
        '7'
    } else if d == 8 {
        '8'
    } else {
        '9'
    }
}

/// The decimal digits of `n`, without leading zeros.
pub open spec fn digits(n: nat) -> Seq<char>
    decreases n,
{
    if n < 10 {
        seq![digit_char(n as int)]
    } else {
        digits(n / 10).push(digit_char((n % 10) as int))
    }
}

/// The decimal text of `n`.
pub open spec fn decimal(n: int) -> Seq<char> {
    if n < 0 {
        seq!['-'] + digits((-n) as nat)
    } else {
        digits(n as nat)
    }
}

/// The digits of a number are digits, one at least.
pub(crate) proof fn lemma_digits(n: nat)
    ensures
        digits(n).len() > 0,
        forall|i: int| 0 <= i < digits(n).len() ==> '0' <= #[trigger] digits(n)[i] <= '9',
    decreases n,
{
    if n >= 10 {
        lemma_digits(n / 10);
    }
}

/// Numbers with the same digits are equal.
proof fn lemma_digits_differ(m: nat, n: nat)
    requires
        digits(m) == digits(n),
    ensures
        m == n,
    decreases m,
{
    lemma_digits(m / 10);
    lemma_digits(n / 10);
    if m < 10 {
        assert(digits(m).len() == 1);
        assert(n < 10);
    }
    let (a, b) = ((m % 10) as int, (n % 10) as int);
    assert(digits(m).last() == digit_char(a));
    assert(digits(n).last() == digit_char(b));
    assert(a == b);
    if m >= 10 {
        assert(digits(n).len() > 1);
        assert(digits(m).drop_last() =~= digits(m / 10));
        assert(digits(n).drop_last() =~= digits(n / 10));
        lemma_digits_differ(m / 10, n / 10);
    }
}

/// Numbers with the same decimal text are equal.
pub proof fn law_decimal_texts_differ(m: int, n: int)
    ensures
        decimal(m) == decimal(n) <==> m == n,
{
    let p = if m < 0 {
        (-m) as nat
    } else {
        m as nat
    };
    let q = if n < 0 {
        (-n) as nat
    } else {
        n as nat
    };
    lemma_digits(p);
    lemma_digits(q);
    if decimal(m) == decimal(n) {
        assert(decimal(m)[0] == decimal(n)[0]);
        if m < 0 {
            assert(decimal(m).skip(1) =~= digits(p));
            assert(decimal(n).skip(1) =~= digits(q));
        }
        lemma_digits_differ(p, q);
    }
}

/// The number that a text of digits says.
pub open spec fn value_of(s: Seq<char>) -> int
    decreases s.len(),
{
    if s.len() == 0 {
        0
    } else {
        value_of(s.drop_last()) * 10 + (s.last() as int - '0' as int)
    }
}

/// A decimal text says its number: read as digits, after a minus sign for a
/// negative number, and without a zero in front unless it is the only digit.
pub proof fn law_decimal_texts_say_their_number(n: int)
    ensures
        n >= 0 ==> value_of(decimal(n)) == n,
        n < 0 ==> decimal(n)[0] == '-' && value_of(decimal(n).skip(1)) == -n,
        n > 0 ==> decimal(n)[0] != '0',
        n < 0 ==> decimal(n)[1] != '0',
        n == 0 ==> decimal(n).len() == 1,
        forall|i: int|
            0 <= i < decimal(n).len() ==> '0' <= #[trigger] decimal(n)[i] <= '9' || (i == 0 && n
                < 0),
{
    let m = if n < 0 {
        (-n) as nat
    } else {
        n as nat
    };
    lemma_value(m);
    lemma_digits(m);
    if n < 0 {
        assert(decimal(n).skip(1) =~= digits(m));
        assert(decimal(n)[1] == digits(m)[0]);
    }
}

proof fn lemma_value(n: nat)
    ensures
        value_of(digits(n)) == n,
        n > 0 ==> digits(n)[0] != '0',
    decreases n,
{
    reveal_with_fuel(value_of, 2);
    lemma_digits(n);
    if n < 10 {
        assert(digits(n).drop_last() =~= Seq::<char>::empty());
    } else {
        lemma_value(n / 10);
        lemma_digits(n / 10);
        assert(digits(n).drop_last() =~= digits(n / 10));
    }
}

/// No decimal text holds a slash.
pub(crate) proof fn lemma_no_slash(n: int)
    ensures
        forall|i: int| 0 <= i < decimal(n).len() ==> #[trigger] decimal(n)[i] != '/',
{
    lemma_digits(if n < 0 { (-n) as nat } else { n as nat });
}

/// Appends the digit `d`.
fn push_digit(s: &mut String, d: u32)
    requires
        d < 10,
    ensures
        final(s)@ == old(s)@.push(digit_char(d as int)),
{
    proof {
        reveal_strlit("0");
        reveal_strlit("1");
        reveal_strlit("2");
        reveal_strlit("3");
        reveal_strlit("4");
        reveal_strlit("5");
        reveal_strlit("6");
        reveal_strlit("7");
        reveal_strlit("8");
        reveal_strlit("9");
    }
    let t: &str = if d == 0 {
        "0"
    } else if d == 1 {
        "1"
    } else if d == 2 {
        "2"
    } else if d == 3 {
        "3"
    } else if d == 4 {
        "4"
    } else if d == 5 {
        "5"
    } else if d == 6 {
        "6"
    } else if d == 7 {
        "7"
    } else if d == 8 {
        "8"
    } else {
        "9"
    };
    s.append(t);
    assert(t@ =~= seq![digit_char(d as int)]);
    assert(s@ =~= old(s)@.push(digit_char(d as int)));
}

/// Appends the decimal digits of `n`.
fn push_digits(s: &mut String, n: u32)
    ensures
        final(s)@ == old(s)@ + digits(n as nat),
    decreases n,
{
    if n < 10 {
        push_digit(s, n);
    } else {
        push_digits(s, n / 10);
        push_digit(s, n % 10);
    }
    assert(s@ =~= old(s)@ + digits(n as nat));
}

/// Appends the decimal text of `n`.
pub fn push_decimal(s: &mut String, n: i16)
    ensures
        final(s)@ == old(s)@ + decimal(n as int),
{
    if n < 0 {
        proof {
            reveal_strlit("-");
        }
        s.append("-");
        assert("-"@ =~= seq!['-']);
        push_digits(s, (-(n as i32)) as u32);
        assert(s@ =~= old(s)@ + decimal(n as int));
    } else {
        push_digits(s, n as u32);
    }
}

} // verus!
