//! Numbers as text: how they are written, and how one is read.

use vstd::prelude::*;

use crate::text::chars_of;

verus! {

/// The character a digit is written as, below ten in decimal and below sixteen in hexadecimal.
pub open spec fn digit(n: nat) -> char {
    if n < 10 {
        ('0' as u32 + n) as char
    } else {
        ('a' as u32 + (n - 10)) as char
    }
}

/// A number in decimal.
pub open spec fn decimal(n: nat) -> Seq<char>
    decreases n,
{
    if n < 10 {
        seq![digit(n)]
    } else {
        decimal(n / 10).push(digit(n % 10))
    }
}

/// The last `width` hexadecimal digits of a number, zeros before it where it has fewer.
pub open spec fn hexadecimal(n: nat, width: nat) -> Seq<char>
    decreases width,
{
    if width == 0 {
        Seq::empty()
    } else {
        hexadecimal(n / 16, (width - 1) as nat).push(digit(n % 16))
    }
}

/// The number some decimal digits write; nothing when one of the characters is not a digit.
pub open spec fn value(s: Seq<char>) -> Option<nat>
    decreases s.len(),
{
    if s.len() == 0 {
        Some(0)
    } else {
        match value(s.drop_last()) {
            Some(n) if '0' <= s.last() <= '9' => Some(n * 10 + (s.last() as nat - '0' as nat) as nat),
            _ => None,
        }
    }
}

/// The whole number a text is: digits, with a sign before them or none, that fit in 64 bits.
pub open spec fn integer(s: Seq<char>) -> Option<int> {
    let signed = s.len() > 0 && (s[0] == '+' || s[0] == '-');
    let digits = if signed {
        s.skip(1)
    } else {
        s
    };
    if digits.len() == 0 {
        None
    } else {
        match value(digits) {
            None => None,
            Some(n) => {
                let read = if signed && s[0] == '-' {
                    -n
                } else {
                    n as int
                };
                if i64::MIN <= read <= i64::MAX {
                    Some(read)
                } else {
                    None
                }
            },
        }
    }
}

/// The character a digit is written as.
fn digit_of(n: u64) -> (c: char)
    requires
        n < 16,
    ensures
        c == digit(n as nat),
{
    if n < 10 {
        (0x30u8 + n as u8) as char
    } else {
        (0x61u8 + (n - 10) as u8) as char
    }
}

/// A number in decimal.
pub fn to_decimal(n: u64) -> (text: String)
    ensures
        text@ == decimal(n as nat),
    decreases n,
{
    if n < 10 {
        let mut text = String::new();
        text.push(digit_of(n));
        assert(text@ =~= seq![digit(n as nat)]);
        text
    } else {
        let mut text = to_decimal(n / 10);
        text.push(digit_of(n % 10));
        text
    }
}

/// The last `width` hexadecimal digits of a number.
pub fn to_hexadecimal(n: u64, width: u64) -> (text: String)
    ensures
        text@ == hexadecimal(n as nat, width as nat),
    decreases width,
{
    if width == 0 {
        String::new()
    } else {
        let mut text = to_hexadecimal(n / 16, width - 1);
        text.push(digit_of(n % 16));
        text
    }
}

/// A longer run of digits is no smaller a number, and one that does not read as a number does
/// not for having more after it.
proof fn lemma_value_prefix(s: Seq<char>, n: int)
    requires
        0 <= n <= s.len(),
    ensures
        value(s.take(n)) is None ==> value(s) is None,
        value(s) matches Some(all) ==> value(s.take(n)) matches Some(some) && some <= all,
    decreases s.len() - n,
{
    if n < s.len() {
        lemma_value_prefix(s, n + 1);
        assert(s.take(n + 1).drop_last() == s.take(n));
        let t = s.take(n + 1);
        if let Some(some) = value(s.take(n)) {
            assert(some * 10 >= some) by (nonlinear_arith)
                requires
                    some >= 0,
            ;
        }
    } else {
        assert(s.take(n) == s);
    }
}

/// Reads a whole number.
pub fn to_integer(text: &str) -> (read: Option<i64>)
    ensures
        match read {
            Some(n) => integer(text@) == Some(n as int),
            None => integer(text@) is None,
        },
{
    let s = chars_of(text);
    let signed = s.len() > 0 && (s[0] == '+' || s[0] == '-');
    let negative = s.len() > 0 && s[0] == '-';
    let from: usize = if signed {
        1
    } else {
        0
    };
    let ghost digits = if signed {
        s@.skip(1)
    } else {
        s@
    };
    assert(digits =~= s@.skip(from as int));
    if s.len() == from {
        return None;
    }
    let mut n: u64 = 0;
    let mut i: usize = from;
    assert(digits.take(0) =~= Seq::empty());
    while i < s.len()
        invariant
            from <= i <= s.len(),
            s@ == text@,
            signed == (s@.len() > 0 && (s@[0] == '+' || s@[0] == '-')),
            from == if signed {
                1int
            } else {
                0
            },
            digits == s@.skip(from as int),
            digits == if signed {
                s@.skip(1)
            } else {
                s@
            },
            from < s.len(),
            value(digits.take(i - from)) == Some(n as nat),
            n <= 0x8000_0000_0000_0000,
        decreases s.len() - i,
    {
        let c = s[i];
        let ghost next = digits.take(i - from + 1);
        assert(next.drop_last() =~= digits.take(i - from));
        assert(next.last() == c);
        proof {
            lemma_value_prefix(digits, i - from + 1);
        }
        if c < '0' || c > '9' {
            return None;
        }
        let more: u64 = c as u64 - '0' as u64;
        if n > (0x8000_0000_0000_0000 - more) / 10 {
            assert(n * 10 + more > 0x8000_0000_0000_0000);
            return None;
        }
        n = n * 10 + more;
        i += 1;
    }
    assert(digits.take(i - from) =~= digits);
    if negative {
        if n == 0x8000_0000_0000_0000 {
            Some(i64::MIN)
        } else {
            Some(-(n as i64))
        }
    } else if n <= i64::MAX as u64 {
        Some(n as i64)
    } else {
        None
    }
}

// ---- What holds of it ----

/// A number multiplied by itself so many times.
pub open spec fn power(base: nat, times: nat) -> nat
    decreases times,
{
    if times == 0 {
        1
    } else {
        base * power(base, (times - 1) as nat)
    }
}

/// The digits a number below sixteen is written with.
pub open spec fn digits() -> Seq<char> {
    seq!['0', '1', '2', '3', '4', '5', '6', '7', '8', '9', 'a', 'b', 'c', 'd', 'e', 'f']
}

proof fn lemma_digit(n: nat)
    requires
        n < 16,
    ensures
        digit(n) == digits()[n as int],
{
    assert(digits()[0] == '0' && digits()[1] == '1' && digits()[2] == '2' && digits()[3] == '3');
    assert(digits()[4] == '4' && digits()[5] == '5' && digits()[6] == '6' && digits()[7] == '7');
    assert(digits()[8] == '8' && digits()[9] == '9' && digits()[10] == 'a' && digits()[11] == 'b');
    assert(digits()[12] == 'c' && digits()[13] == 'd' && digits()[14] == 'e' && digits()[15] == 'f');
}

proof fn lemma_power_positive(base: nat, times: nat)
    requires
        base > 0,
    ensures
        power(base, times) > 0,
    decreases times,
{
    if times > 0 {
        lemma_power_positive(base, (times - 1) as nat);
        assert(base * power(base, (times - 1) as nat) > 0) by (nonlinear_arith)
            requires
                base > 0,
                power(base, (times - 1) as nat) > 0,
        ;
    }
}

/// Digit by digit, from the last on, a number is written as what is left of it after dividing
/// by the base that often; it has as many digits as it needs.
pub proof fn law_each_digit_has_its_worth(n: nat)
    ensures
        decimal(n).len() > 0,
        n < power(10, decimal(n).len()),
        decimal(n).len() > 1 ==> power(10, (decimal(n).len() - 1) as nat) <= n,
        forall|i: nat|
            i < decimal(n).len() ==> #[trigger] decimal(n)[decimal(n).len() - 1 - i] == digits()[((
            n / power(10, i)) % 10) as int],
    decreases n,
{
    let all = decimal(n);
    reveal_with_fuel(power, 2);
    if n < 10 {
        lemma_digit(n);
        assert(power(10, 1) == 10);
        assert forall|i: nat| i < all.len() implies #[trigger] all[all.len() - 1 - i]
            == digits()[((n / power(10, i)) % 10) as int] by {
            assert(i == 0 && power(10, i) == 1);
            assert(n / power(10, i) == n);
        }
    } else {
        let less = decimal(n / 10);
        law_each_digit_has_its_worth(n / 10);
        lemma_digit(n % 10);
        let k = less.len();
        assert(power(10, (k + 1) as nat) == 10 * power(10, k));
        assert(k > 1 ==> power(10, k) == 10 * power(10, (k - 1) as nat));
        assert(k == 1 ==> power(10, k) == 10);
        assert forall|i: nat| i < all.len() implies #[trigger] all[all.len() - 1 - i]
            == digits()[((n / power(10, i)) % 10) as int] by {
            if i > 0 {
                let j = (i - 1) as nat;
                assert(all[all.len() - 1 - i] == less[less.len() - 1 - j]);
                lemma_power_positive(10, j);
                vstd::arithmetic::div_mod::lemma_div_denominator(
                    n as int,
                    10,
                    power(10, j) as int,
                );
                assert(power(10, i) == 10 * power(10, j));
                assert((n / 10) / power(10, j) == n / power(10, i));
            } else {
                assert(all[all.len() - 1] == digit(n % 10));
                assert(power(10, i) == 1);
                assert(n / power(10, i) == n);
            }
        }
    }
}

/// In hexadecimal too, as many digits as are asked for.
pub proof fn law_each_hexadecimal_digit_has_its_worth(n: nat, width: nat)
    ensures
        hexadecimal(n, width).len() == width,
        forall|i: nat|
            i < width ==> #[trigger] hexadecimal(n, width)[width - 1 - i] == digits()[((n / power(
                16,
                i,
            )) % 16) as int],
    decreases width,
{
    let all = hexadecimal(n, width);
    if width > 0 {
        let less = hexadecimal(n / 16, (width - 1) as nat);
        law_each_hexadecimal_digit_has_its_worth(n / 16, (width - 1) as nat);
        lemma_digit(n % 16);
        assert forall|i: nat| i < width implies #[trigger] all[width - 1 - i] == digits()[((n
            / power(16, i)) % 16) as int] by {
            if i > 0 {
                let j = (i - 1) as nat;
                assert(all[width - 1 - i] == less[less.len() - 1 - j]);
                lemma_power_positive(16, j);
                vstd::arithmetic::div_mod::lemma_div_denominator(
                    n as int,
                    16,
                    power(16, j) as int,
                );
                assert(power(16, i) == 16 * power(16, j));
                assert((n / 16) / power(16, j) == n / power(16, i));
            } else {
                assert(all[width - 1] == digit(n % 16));
                assert(power(16, i) == 1);
                assert(n / power(16, i) == n);
            }
        }
    }
}

proof fn lemma_reads_back(n: nat)
    ensures
        value(decimal(n)) == Some(n),
        decimal(n).len() > 0,
        '0' <= decimal(n)[0] <= '9',
    decreases n,
{
    reveal_with_fuel(value, 2);
    if n < 10 {
        assert(decimal(n).drop_last() =~= Seq::empty());
    } else {
        lemma_reads_back(n / 10);
        assert(decimal(n).drop_last() =~= decimal(n / 10));
    }
}

/// A number that was written is read as that number, with a minus before it as its negative,
/// with a plus as itself; one that does not fit in 64 bits is not read.
pub proof fn law_what_is_written_reads_back(n: nat)
    ensures
        n <= 0x7fff_ffff_ffff_ffff ==> integer(decimal(n)) == Some(n as int),
        n <= 0x7fff_ffff_ffff_ffff ==> integer(seq!['+'] + decimal(n)) == Some(n as int),
        n <= 0x8000_0000_0000_0000 ==> integer(seq!['-'] + decimal(n)) == Some(-(n as int)),
        n > 0x7fff_ffff_ffff_ffff ==> integer(decimal(n)) is None && integer(
            seq!['+'] + decimal(n),
        ) is None,
        n > 0x8000_0000_0000_0000 ==> integer(seq!['-'] + decimal(n)) is None,
{
    lemma_reads_back(n);
    assert((seq!['+'] + decimal(n)).skip(1) =~= decimal(n));
    assert((seq!['-'] + decimal(n)).skip(1) =~= decimal(n));
}

/// Zeros before a number make no difference; a character that is no digit, or no digit at all,
/// makes it none.
pub proof fn law_only_digits_are_read(s: Seq<char>, i: int)
    ensures
        value(seq!['0'] + s) == value(s),
        1 <= i < s.len() && !('0' <= s[i] <= '9') ==> integer(s) is None,
        s.len() > 0 && s[0] != '+' && s[0] != '-' && !('0' <= s[0] <= '9') ==> integer(s) is None,
        s.len() == 0 ==> integer(s) is None,
        integer(seq!['+']) is None,
        integer(seq!['-']) is None,
{
    lemma_leading_zero(s);
    if 1 <= i < s.len() && !('0' <= s[i] <= '9') {
        lemma_no_digit(s, i);
        assert(s.skip(1)[i - 1] == s[i]);
        lemma_no_digit(s.skip(1), i - 1);
    }
    if s.len() > 0 && s[0] != '+' && s[0] != '-' && !('0' <= s[0] <= '9') {
        lemma_no_digit(s, 0);
    }
}

proof fn lemma_no_digit(s: Seq<char>, i: int)
    requires
        0 <= i < s.len(),
        !('0' <= s[i] <= '9'),
    ensures
        value(s) is None,
{
    let t = s.take(i + 1);
    assert(t.last() == s[i]);
    lemma_value_prefix(s, i + 1);
}

proof fn lemma_leading_zero(s: Seq<char>)
    ensures
        value(seq!['0'] + s) == value(s),
    decreases s.len(),
{
    let t = seq!['0'] + s;
    reveal_with_fuel(value, 2);
    if s.len() == 0 {
        assert(t.drop_last() =~= Seq::empty());
    } else {
        lemma_leading_zero(s.drop_last());
        assert(t.drop_last() =~= seq!['0'] + s.drop_last());
    }
}

} // verus!
