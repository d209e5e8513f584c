//! Decimal numerals, read and written.

use vstd::arithmetic::div_mod::*;
use vstd::prelude::*;
use vstd::slice::slice_subrange;

verus! {

/// The decimal digit of a number below ten.
pub open spec fn digit(n: nat) -> char {
    (48 + n) as char
}

/// Whether a character is an ASCII digit.
pub open spec fn is_digit(c: char) -> bool {
    '0' <= c <= '9'
}

/// Whether every character is an ASCII digit.
pub open spec fn all_digits(s: Seq<char>) -> bool {
    forall|i: int| 0 <= i < s.len() ==> is_digit(#[trigger] s[i])
}

/// What digits stand for, read in base ten.
pub open spec fn value(s: Seq<char>) -> nat
    decreases s.len(),
{
    if s.len() == 0 {
        0
    } else {
        value(s.drop_last()) * 10 + (s.last() as nat - 48) as nat
    }
}

/// What a numeral of ASCII digits, with or without a plus sign before them, stands for, if
/// it fits in 64 bits.
pub open spec fn unsigned(s: Seq<char>) -> Option<u64> {
    let digits = if s.len() > 0 && s[0] == '+' {
        s.drop_first()
    } else {
        s
    };
    if digits.len() > 0 && all_digits(digits) && value(digits) <= u64::MAX {
        Some(value(digits) as u64)
    } else {
        None
    }
}

/// What a numeral stands for, and 0 where there is none.
pub open spec fn unsigned_or_zero(s: Seq<char>) -> u64 {
    match unsigned(s) {
        Some(n) => n,
        None => 0,
    }
}

/// More digits do not make a number smaller.
proof fn lemma_value_prefix(s: Seq<char>, i: int)
    requires
        0 <= i <= s.len(),
    ensures
        value(s.take(i)) <= value(s),
    decreases s.len(),
{
    if i == s.len() {
        assert(s.take(i) =~= s);
    } else {
        lemma_value_prefix(s.drop_last(), i);
        assert(s.drop_last().take(i) =~= s.take(i));
    }
}

/// Reads digits, if there is at least one and they fit in 64 bits.
pub fn parse_digits(s: &[char]) -> (res: Option<u64>)
    ensures
        res == (if s@.len() > 0 && all_digits(s@) && value(s@) <= u64::MAX {
            Some(value(s@) as u64)
        } else {
            None
        }),
{
    if s.len() == 0 {
        return None;
    }
    let mut n: u64 = 0;
    let mut i: usize = 0;
    while i < s.len()
        invariant
            i <= s.len(),
            forall|j: int| 0 <= j < i ==> is_digit(#[trigger] s@[j]),
            n == value(s@.take(i as int)),
        decreases s.len() - i,
    {
        let c = s[i];
        if c < '0' || '9' < c {
            assert(!is_digit(s@[i as int]));
            return None;
        }
        let d: u64 = c as u64 - 48;
        proof {
            assert(s@.take(i + 1).drop_last() =~= s@.take(i as int));
            lemma_value_prefix(s@, i + 1);
        }
        match n.checked_mul(10) {
            Some(tens) => match tens.checked_add(d) {
                Some(next) => {
                    n = next;
                },
                None => {
                    return None;
                },
            },
            None => {
                return None;
            },
        }
        i = i + 1;
    }
    assert(s@.take(i as int) =~= s@);
    Some(n)
}

/// Reads an unsigned numeral.
pub fn parse_u64(s: &[char]) -> (res: Option<u64>)
    ensures
        res == unsigned(s@),
{
    if s.len() > 0 && s[0] == '+' {
        let digits = slice_subrange(s, 1, s.len());
        assert(digits@ =~= s@.drop_first());
        parse_digits(digits)
    } else {
        parse_digits(s)
    }
}

/// Reads an unsigned numeral, and 0 where there is none.
pub fn parse_u64_or_zero(s: &[char]) -> (res: u64)
    ensures
        res == unsigned_or_zero(s@),
{
    match parse_u64(s) {
        Some(n) => n,
        None => 0,
    }
}

/// The decimal numeral of a number.
pub open spec fn decimal(n: nat) -> Seq<char>
    decreases n,
{
    if n < 10 {
        seq![digit(n)]
    } else {
        decimal(n / 10).push(digit(n % 10))
    }
}

/// The last `k` decimal digits of a number, with zeros in front where it has fewer.
pub open spec fn low_digits(n: nat, k: nat) -> Seq<char>
    decreases k,
{
    if k == 0 {
        Seq::empty()
    } else {
        low_digits(n / 10, (k - 1) as nat).push(digit(n % 10))
    }
}

/// The decimal numeral of an integer.
pub open spec fn signed(n: int) -> Seq<char> {
    if n < 0 {
        seq!['-'] + decimal((-n) as nat)
    } else {
        decimal(n as nat)
    }
}

/// The character of a digit.
fn digit_char(n: u128) -> (res: char)
    requires
        n < 10,
    ensures
        res == digit(n as nat),
{
    (48u8 + n as u8) as char
}

/// Appends a decimal numeral.
pub fn push_decimal(out: &mut String, n: u128)
    ensures
        final(out)@ == old(out)@ + decimal(n as nat),
    decreases n,
{
    let ghost before = out@;
    if n >= 10 {
        push_decimal(out, n / 10);
    }
    out.push(digit_char(n % 10));
    assert(out@ =~= before + decimal(n as nat));
}

/// Appends the last `k` decimal digits of a number.
pub fn push_low_digits(out: &mut String, n: u128, k: u32)
    ensures
        final(out)@ == old(out)@ + low_digits(n as nat, k as nat),
    decreases k,
{
    let ghost before = out@;
    if k > 0 {
        push_low_digits(out, n / 10, k - 1);
        out.push(digit_char(n % 10));
    }
    assert(out@ =~= before + low_digits(n as nat, k as nat));
}

/// Appends the decimal numeral of an integer.
pub fn push_signed(out: &mut String, n: i32)
    ensures
        final(out)@ == old(out)@ + signed(n as int),
{
    let ghost before = out@;
    if n < 0 {
        out.push('-');
        push_decimal(out, (-(n as i64)) as u128);
    } else {
        push_decimal(out, n as u128);
    }
    assert(out@ =~= before + signed(n as int));
}

/// A decimal numeral reads back as the number it was written for.
pub proof fn lemma_decimal_reads_back(n: nat)
    ensures
        decimal(n).len() > 0,
        all_digits(decimal(n)),
        value(decimal(n)) == n,
    decreases n,
{
    if n >= 10 {
        lemma_decimal_reads_back(n / 10);
        assert(decimal(n).drop_last() =~= decimal(n / 10));
    } else {
        assert(decimal(n).drop_last() =~= Seq::empty());
        assert(value(decimal(n).drop_last()) == 0);
    }
}

/// Reading a numeral undoes writing it, for every number of 64 bits.
pub proof fn lemma_unsigned_undoes_decimal(n: u64)
    ensures
        unsigned(decimal(n as nat)) == Some(n),
{
    lemma_decimal_reads_back(n as nat);
    assert(is_digit(decimal(n as nat)[0]));
}

/// A plus sign before a numeral changes nothing.
pub proof fn lemma_plus_sign(n: u64)
    ensures
        unsigned(seq!['+'] + decimal(n as nat)) == Some(n),
{
    lemma_decimal_reads_back(n as nat);
    assert((seq!['+'] + decimal(n as nat)).drop_first() =~= decimal(n as nat));
}

/// What is read as a number holds digits alone, but for a plus sign in front.
pub proof fn lemma_unsigned_is_digits(s: Seq<char>)
    requires
        unsigned(s) is Some,
    ensures
        s.len() > 0,
        forall|i: int| 0 < i < s.len() ==> is_digit(#[trigger] s[i]),
        s[0] == '+' || is_digit(s[0]),
        s.last() != '+',
        all_digits(s) ==> unsigned(s) == Some(value(s) as u64) && value(s) <= u64::MAX,
{
    if s[0] == '+' {
        let digits = s.drop_first();
        assert(is_digit(digits[digits.len() - 1]));
        assert forall|i: int| 0 < i < s.len() implies is_digit(#[trigger] s[i]) by {
            assert(is_digit(digits[i - 1]));
        }
    } else {
        assert(is_digit(s[s.len() - 1]));
    }
}

/// Two numbers have the same numeral only if they are the same.
pub proof fn lemma_decimal_injective(n: nat, m: nat)
    requires
        decimal(n) == decimal(m),
    ensures
        n == m,
{
    lemma_decimal_reads_back(n);
    lemma_decimal_reads_back(m);
}

/// A numeral has no zeros in front.
pub proof fn lemma_decimal_starts(n: nat)
    ensures
        n > 0 ==> decimal(n)[0] != '0',
        n == 0 ==> decimal(n) == seq!['0'],
    decreases n,
{
    if n >= 10 {
        lemma_decimal_starts(n / 10);
        lemma_decimal_reads_back(n / 10);
    }
}

/// The numeral of an integer is that of its size, behind a minus sign if it is below zero.
pub proof fn lemma_signed_reads_back(n: int)
    ensures
        n >= 0 ==> all_digits(signed(n)) && value(signed(n)) == n,
        n < 0 ==> signed(n).len() > 1 && signed(n)[0] == '-' && all_digits(signed(n).drop_first())
            && value(signed(n).drop_first()) == -n,
{
    if n < 0 {
        lemma_decimal_reads_back((-n) as nat);
        assert(signed(n).drop_first() =~= decimal((-n) as nat));
    } else {
        lemma_decimal_reads_back(n as nat);
    }
}

/// How many digits a text starts with.
pub open spec fn digit_run(s: Seq<char>) -> nat
    decreases s.len(),
{
    if s.len() == 0 || !is_digit(s[0]) {
        0
    } else {
        1 + digit_run(s.drop_first())
    }
}

/// The number that a text starts with.
pub open spec fn leading_number(s: Seq<char>) -> nat {
    value(s.take(digit_run(s) as int))
}

/// What follows the number that a text starts with.
pub open spec fn behind_number(s: Seq<char>) -> Seq<char> {
    s.skip(digit_run(s) as int)
}

/// Digits before something else are all of the number that a text starts with.
proof fn lemma_digit_run(digits: Seq<char>, rest: Seq<char>)
    requires
        all_digits(digits),
        rest.len() > 0 ==> !is_digit(rest[0]),
    ensures
        digit_run(digits + rest) == digits.len(),
    decreases digits.len(),
{
    let s = digits + rest;
    if digits.len() == 0 {
        assert(s =~= rest);
    } else {
        assert(is_digit(digits[0]) && s[0] == digits[0]);
        let tail = digits.drop_first();
        assert forall|i: int| 0 <= i < tail.len() implies is_digit(#[trigger] tail[i]) by {
            assert(tail[i] == digits[i + 1]);
        }
        lemma_digit_run(tail, rest);
        assert(s.drop_first() =~= tail + rest);
    }
}

/// A numeral at the start of a text is read back, and what follows it is left.
pub proof fn lemma_leading_number(n: nat, rest: Seq<char>)
    requires
        rest.len() > 0 ==> !is_digit(rest[0]),
    ensures
        leading_number(decimal(n) + rest) == n,
        behind_number(decimal(n) + rest) == rest,
{
    lemma_decimal_reads_back(n);
    lemma_digit_run(decimal(n), rest);
    let s = decimal(n) + rest;
    assert(s.take(decimal(n).len() as int) =~= decimal(n));
    assert(s.skip(decimal(n).len() as int) =~= rest);
}

/// The last digits of a number: as many as asked for, and what they stand for is what is
/// left of the number by ten to that power.
pub proof fn lemma_low_digits_read_back(n: nat, k: nat)
    ensures
        low_digits(n, k).len() == k,
        all_digits(low_digits(n, k)),
        value(low_digits(n, k)) == n % crate::double::ten(k),
        crate::double::ten(k) > 0,
    decreases k,
{
    if k == 0 {
        assert(n % 1 == 0);
    } else {
        let j = (k - 1) as nat;
        lemma_low_digits_read_back(n / 10, j);
        assert(low_digits(n, k).drop_last() =~= low_digits(n / 10, j));
        let t = crate::double::ten(j);
        assert(n % (10 * t) == 10 * ((n / 10) % t) + n % 10) by {
            lemma_mod_breakdown(n as int, 10, t as int);
        }
        assert(value(low_digits(n, k)) == value(low_digits(n / 10, j)) * 10 + n % 10);
    }
}

/// One digit more makes a number ten times as large, and adds the digit.
pub proof fn lemma_value_grows(s: Seq<char>, d: nat)
    requires
        d < 10,
    ensures
        value(Seq::<char>::empty()) == 0,
        value(s.push(digit(d))) == 10 * value(s) + d,
{
    assert(s.push(digit(d)).drop_last() =~= s);
}

/// Digits are read as the number that they stand for if it fits in 64 bits, zeros in front
/// or not, and as none if it does not.
pub proof fn lemma_digits_are_read(s: Seq<char>)
    requires
        s.len() > 0,
        all_digits(s),
    ensures
        value(s) <= u64::MAX ==> unsigned(s) is Some && unsigned(s)->0 == value(s),
        value(s) > u64::MAX ==> unsigned(s) is None,
{
    assert(is_digit(s[0]));
}

} // verus!
