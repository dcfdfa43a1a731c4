//! Numbers as decimal text.

use vstd::prelude::*;

use crate::text::{chars_of, text_of};

verus! {

/// A decimal digit.
pub open spec fn digit(value: int) -> char {
    (value + 0x30) as char
}

/// The value of a decimal digit.
pub open spec fn digit_value(c: char) -> Option<int> {
    if '0' <= c <= '9' {
        Some(c as int - 0x30)
    } else {
        None
    }
}

/// A number in decimal, without leading zeros.
pub open spec fn decimal_text(n: nat) -> Seq<char>
    decreases n,
{
    if n < 10 {
        seq![digit(n as int)]
    } else {
        decimal_text(n / 10).push(digit(n as int % 10))
    }
}

/// An integer in decimal.
pub open spec fn integer_text(n: int) -> Seq<char> {
    if n < 0 {
        seq!['-'] + decimal_text((-n) as nat)
    } else {
        decimal_text(n as nat)
    }
}

/// The number that digits stand for. An empty text is zero.
pub open spec fn digits_value(s: Seq<char>) -> Option<nat>
    decreases s.len(),
{
    if s.len() == 0 {
        Some(0)
    } else {
        match (digits_value(s.drop_last()), digit_value(s.last())) {
            (Some(front), Some(last)) => Some((front * 10 + last) as nat),
            _ => None,
        }
    }
}

/// The number that a text of digits stands for, behind an optional plus.
pub open spec fn natural_of(s: Seq<char>) -> Option<nat> {
    let digits = if s.len() > 0 && s[0] == '+' {
        s.skip(1)
    } else {
        s
    };
    if digits.len() == 0 {
        None
    } else {
        digits_value(digits)
    }
}

/// The integer that a text stands for: digits behind an optional sign.
pub open spec fn integer_of(s: Seq<char>) -> Option<int> {
    if s.len() > 0 && s[0] == '-' {
        if s.len() == 1 {
            None
        } else {
            match digits_value(s.skip(1)) {
                Some(n) => Some(-(n as int)),
                None => None,
            }
        }
    } else {
        match natural_of(s) {
            Some(n) => Some(n as int),
            None => None,
        }
    }
}

fn push_digits(out: &mut Vec<char>, n: u64)
    ensures
        final(out)@ == old(out)@ + decimal_text(n as nat),
    decreases n,
{
    let ghost before = out@;
    if n >= 10 {
        push_digits(out, n / 10);
    }
    let last: u8 = (n % 10) as u8;
    out.push((0x30 + last) as char);
    assert(out@ =~= before + decimal_text(n as nat));
}

/// Appends a count in decimal.
pub fn push_count(out: &mut Vec<char>, n: usize)
    ensures
        final(out)@ == old(out)@ + integer_text(n as int),
{
    push_digits(out, n as u64);
}

/// Appends an integer in decimal.
pub fn push_integer(out: &mut Vec<char>, n: i64)
    ensures
        final(out)@ == old(out)@ + integer_text(n as int),
{
    let ghost before = out@;
    if n < 0 {
        out.push('-');
        let magnitude: u64 = (-(n as i128)) as u64;
        push_digits(out, magnitude);
        assert(out@ =~= before + integer_text(n as int));
    } else {
        push_digits(out, n as u64);
    }
}

/// An integer in decimal.
pub fn decimal(n: i64) -> (r: String)
    ensures
        r@ == integer_text(n as int),
{
    let mut out: Vec<char> = Vec::new();
    push_integer(&mut out, n);
    assert(out@ =~= integer_text(n as int));
    text_of(out.as_slice())
}

/// The number that the digits from a place on stand for, if it is no more than a
/// limit.
fn read_digits(chars: &Vec<char>, from: usize, limit: u64) -> (r: Option<u64>)
    requires
        from <= chars@.len(),
    ensures
        match r {
            Some(n) => n <= limit && digits_value(chars@.skip(from as int)) == Some(n as nat),
            None => digits_value(chars@.skip(from as int)) matches Some(n) ==> n > limit,
        },
{
    let ghost digits = chars@.skip(from as int);
    let mut value: u128 = 0;
    let mut beyond = false;
    let mut i: usize = from;
    assert(digits.take(0) =~= Seq::<char>::empty());
    while i < chars.len()
        invariant
            from <= i <= chars.len(),
            digits == chars@.skip(from as int),
            digits_value(digits.take(i - from)) is Some,
            !beyond ==> value <= limit && digits_value(digits.take(i - from)) == Some(value as nat),
            beyond ==> digits_value(digits.take(i - from))->0 > limit,
        decreases chars.len() - i,
    {
        let c = chars[i];
        proof {
            assert(digits.take(i + 1 - from).drop_last() =~= digits.take(i - from));
            assert(digits.take(i + 1 - from).last() == c);
        }
        if c < '0' || c > '9' {
            proof {
                lemma_prefix_spoils(digits, i + 1 - from);
            }
            return None;
        }
        if !beyond {
            value = value * 10 + (c as u32 - 0x30) as u128;
            if value > limit as u128 {
                beyond = true;
            }
        }
        i += 1;
    }
    assert(digits.take(i - from) =~= digits);
    if beyond {
        None
    } else {
        Some(value as u64)
    }
}

proof fn lemma_prefix_spoils(s: Seq<char>, n: int)
    requires
        0 <= n <= s.len(),
        digits_value(s.take(n)) is None,
    ensures
        digits_value(s) is None,
    decreases s.len() - n,
{
    if n == s.len() {
        assert(s.take(n) =~= s);
    } else {
        assert(s.take(n + 1).drop_last() =~= s.take(n));
        lemma_prefix_spoils(s, n + 1);
    }
}

/// The number that a text stands for, if it is no more than a limit.
pub fn parse_natural(text: &str, limit: u64) -> (r: Option<u64>)
    ensures
        match r {
            Some(n) => n <= limit && natural_of(text@) == Some(n as nat),
            None => natural_of(text@) matches Some(n) ==> n > limit,
        },
{
    let chars = chars_of(text);
    let from: usize = if chars.len() > 0 && chars[0] == '+' {
        1
    } else {
        0
    };
    assert(from == 0 ==> chars@.skip(0) =~= chars@);
    if from == chars.len() {
        return None;
    }
    read_digits(&chars, from, limit)
}

/// The integer that a text stands for, if 64 bits hold it.
pub fn parse_integer(text: &str) -> (r: Option<i64>)
    ensures
        match r {
            Some(n) => integer_of(text@) == Some(n as int),
            None => integer_of(text@) matches Some(n) ==> n < i64::MIN || n > i64::MAX,
        },
{
    let chars = chars_of(text);
    if chars.len() > 0 && chars[0] == '-' {
        if chars.len() == 1 {
            return None;
        }
        return match read_digits(&chars, 1, 0x8000_0000_0000_0000) {
            Some(n) => Some((-(n as i128)) as i64),
            None => None,
        };
    }
    match parse_natural(text, 0x7fff_ffff_ffff_ffff) {
        Some(n) => Some(n as i64),
        None => None,
    }
}

proof fn lemma_decimal_value(n: nat)
    ensures
        digits_value(decimal_text(n)) == Some(n),
        decimal_text(n).len() > 0,
        '0' <= decimal_text(n)[0] <= '9',
    decreases n,
{
    if n < 10 {
        assert(decimal_text(n).drop_last() =~= Seq::<char>::empty());
        assert(digits_value(Seq::<char>::empty()) == Some(0nat));
    } else {
        lemma_decimal_value(n / 10);
        assert(decimal_text(n).drop_last() =~= decimal_text(n / 10));
    }
}

/// An integer in decimal is read back as itself.
pub proof fn decimal_is_read_back(n: int)
    ensures
        integer_of(integer_text(n)) == Some(n),
{
    if n < 0 {
        lemma_decimal_value((-n) as nat);
        assert(integer_text(n).skip(1) =~= decimal_text((-n) as nat));
    } else {
        lemma_decimal_value(n as nat);
    }
}

/// A text of digits without a leading zero is the number it stands for in decimal.
pub proof fn digits_are_the_number_in_decimal(s: Seq<char>)
    requires
        s.len() > 0,
        s.len() > 1 ==> s[0] != '0',
        digits_value(s) is Some,
    ensures
        decimal_text(digits_value(s)->0) == s,
    decreases s.len(),
{
    let last = digit_value(s.last())->0;
    if s.len() == 1 {
        assert(s.drop_last() =~= Seq::<char>::empty());
        assert(digits_value(s.drop_last()) == Some(0nat));
        assert(digits_value(s) == Some(last as nat));
        assert(digit(last) == s[0]);
        assert(decimal_text(last as nat) =~= s);
    } else {
        let front = s.drop_last();
        assert(front[0] == s[0]);
        digits_are_the_number_in_decimal(front);
        let f = digits_value(front)->0;
        if f == 0 {
            assert(decimal_text(0)[0] == digit(0));
            assert(front[0] == '0');
        }
        let n = digits_value(s)->0;
        assert(n == f * 10 + last);
        assert(n / 10 == f && n % 10 == last);
        assert(digit(last) == s.last());
        assert(decimal_text(f).push(s.last()) =~= s);
    }
}

/// A number in decimal is digits, of which the first is a zero for zero alone, and stands
/// for the number.
pub proof fn decimal_is_digits(n: nat)
    ensures
        digits_value(decimal_text(n)) == Some(n),
        decimal_text(n).len() > 0,
        decimal_text(n)[0] == '0' <==> n == 0,
        decimal_text(n).len() > 1 <==> n >= 10,
        decimal_text(n).len() > 2 <==> n >= 100,
        decimal_text(n).len() > 3 <==> n >= 1000,
    decreases n,
{
    lemma_decimal_value(n);
    if n >= 10 {
        decimal_is_digits(n / 10);
        assert(decimal_text(n)[0] == decimal_text(n / 10)[0]);
        assert(decimal_text(n).len() == decimal_text(n / 10).len() + 1);
    }
}

/// A plus before digits changes nothing, and a minus turns the number around.
pub proof fn signs_turn_the_number(s: Seq<char>)
    requires
        s.len() > 0,
        digits_value(s) is Some,
    ensures
        natural_of(s) == digits_value(s),
        natural_of(seq!['+'] + s) == digits_value(s),
        integer_of(s) == Some(digits_value(s)->0 as int),
        integer_of(seq!['+'] + s) == Some(digits_value(s)->0 as int),
        integer_of(seq!['-'] + s) == Some(-(digits_value(s)->0 as int)),
{
    lemma_digit_first(s);
    assert((seq!['+'] + s).skip(1) =~= s);
    assert((seq!['-'] + s).skip(1) =~= s);
}

proof fn lemma_digit_first(s: Seq<char>)
    requires
        s.len() > 0,
        digits_value(s) is Some,
    ensures
        '0' <= s[0] <= '9',
    decreases s.len(),
{
    if s.len() > 1 {
        assert(s.drop_last()[0] == s[0]);
        lemma_digit_first(s.drop_last());
    } else {
        assert(s.last() == s[0]);
    }
}

} // verus!
