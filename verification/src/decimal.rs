//! Numbers on the wire: a reference travels as its decimal digits, without
//! sign and without leading zeros.

use vstd::prelude::*;
use vstd::string::*;

verus! {

/// The digit that stands for `d`.
pub open spec fn digit_char(d: nat) -> char {
    if d == 0 {
        '0'
    } else if d == 1 {
        '1'
    } else if d == 2 {
        '2'
    } else if d == 3 {
        '3'
    } else if d == 4 {
        '4'
    } else if d == 5 {
        '5'
    } else if d == 6 {
        '6'
    } else if d == 7 {
        '7'
    } else if d == 8 {
        '8'
    } else {
        '9'
    }
}

/// Whether `c` is a decimal digit.
pub open spec fn is_digit(c: char) -> bool {
    c == '0' || c == '1' || c == '2' || c == '3' || c == '4' || c == '5' || c == '6' || c == '7' || c
        == '8' || c == '9'
}

/// The number that the digit `c` stands for.
pub open spec fn digit_value(c: char) -> nat {
    if c == '1' {
        1
    } else if c == '2' {
        2
    } else if c == '3' {
        3
    } else if c == '4' {
        4
    } else if c == '5' {
        5
    } else if c == '6' {
        6
    } else if c == '7' {
        7
    } else if c == '8' {
        8
    } else if c == '9' {
        9
    } else {
        0
    }
}

/// The digits of `n`, the most significant first.
pub open spec fn digits_of(n: nat) -> Seq<char>
    decreases n,
{
    if n < 10 {
        seq![digit_char(n)]
    } else {
        digits_of(n / 10).push(digit_char(n % 10))
    }
}

/// The number that the digits `s` stand for.
pub open spec fn value_of(s: Seq<char>) -> nat
    decreases s.len(),
{
    if s.len() == 0 {
        0
    } else {
        value_of(s.drop_last()) * 10 + digit_value(s.last())
    }
}

/// Whether `s` is a number as it travels: at least one digit, nothing but
/// digits, and no leading zero but in `0` itself.
pub open spec fn is_decimal(s: Seq<char>) -> bool {
    &&& s.len() > 0
    &&& forall|i: int| 0 <= i < s.len() ==> is_digit(#[trigger] s[i])
    &&& s.len() > 1 ==> s[0] != '0'
}

/// The number that `s` stands for, where it is a number that fits.
pub open spec fn parsed(s: Seq<char>) -> Option<u64> {
    if is_decimal(s) && value_of(s) <= u64::MAX {
        Some(value_of(s) as u64)
    } else {
        None
    }
}

/// The digits of a number are a number as it travels, and stand for it.
pub proof fn lemma_digits_roundtrip(n: nat)
    ensures
        is_decimal(digits_of(n)),
        value_of(digits_of(n)) == n,
        n > 0 ==> digits_of(n)[0] != '0',
    decreases n,
{
    let s = digits_of(n);
    if n < 10 {
        assert(s.drop_last() =~= Seq::<char>::empty());
        assert(value_of(s.drop_last()) == 0);
        assert(s.last() == digit_char(n));
    } else {
        lemma_digits_roundtrip(n / 10);
        let init = digits_of(n / 10);
        assert(s.drop_last() =~= init);
        assert(s.last() == digit_char(n % 10));
        assert(s[0] == init[0]);
        assert forall|i: int| 0 <= i < s.len() implies is_digit(#[trigger] s[i]) by {
            if i < init.len() {
                assert(s[i] == init[i]);
            }
        }
    }
}

/// A number as it travels is the digits of the number it stands for: two
/// different texts never stand for one number.
pub proof fn lemma_value_roundtrip(s: Seq<char>)
    requires
        is_decimal(s),
    ensures
        digits_of(value_of(s)) == s,
        s[0] != '0' ==> value_of(s) > 0,
    decreases s.len(),
{
    let last = s.last();
    assert(is_digit(last));
    if s.len() == 1 {
        assert(s.drop_last() =~= Seq::<char>::empty());
        assert(value_of(s.drop_last()) == 0);
        assert(digits_of(value_of(s)) =~= s);
    } else {
        let init = s.drop_last();
        assert(init[0] == s[0]);
        assert forall|i: int| 0 <= i < init.len() implies is_digit(#[trigger] init[i]) by {
            assert(init[i] == s[i]);
        }
        if init.len() > 1 {
        }
        assert(is_decimal(init));
        lemma_value_roundtrip(init);
        let v = value_of(init);
        assert(v > 0);
        let n = value_of(s);
        assert(n == v * 10 + digit_value(last));
        assert(n / 10 == v && n % 10 == digit_value(last));
        assert(digit_char(digit_value(last)) == last);
        assert(digits_of(n) =~= init.push(last));
        assert(init.push(last) =~= s);
    }
}

/// The digit for a number below ten, as a text.
fn digit_text(d: u64) -> (out: &'static str)
    requires
        d < 10,
    ensures
        out@ == seq![digit_char(d as nat)],
{
    proof {
        reveal_strlit("0");
        reveal_strlit("1");
        reveal_strlit("2");
        reveal_strlit("3");
        reveal_strlit("4");
        reveal_strlit("5");
        reveal_strlit("6");
        reveal_strlit("7");
        reveal_strlit("8");
        reveal_strlit("9");
    }
    let out = if d == 0 {
        "0"
    } else if d == 1 {
        "1"
    } else if d == 2 {
        "2"
    } else if d == 3 {
        "3"
    } else if d == 4 {
        "4"
    } else if d == 5 {
        "5"
    } else if d == 6 {
        "6"
    } else if d == 7 {
        "7"
    } else if d == 8 {
        "8"
    } else {
        "9"
    };
    assert(out@ =~= seq![digit_char(d as nat)]);
    out
}

/// The number as it travels.
pub fn format_u64(n: u64) -> (out: String)
    ensures
        out@ == digits_of(n as nat),
        parsed(out@) == Some(n),
    decreases n,
{
    proof {
        lemma_digits_roundtrip(n as nat);
    }
    if n < 10 {
        String::from_str(digit_text(n))
    } else {
        let mut out = format_u64(n / 10);
        out.append(digit_text(n % 10));
        assert(out@ =~= digits_of(n as nat));
        out
    }
}

/// The number that the digit `c` stands for, if it is a digit.
fn digit_of(c: char) -> (out: Option<u64>)
    ensures
        match out {
            Some(d) => is_digit(c) && d == digit_value(c),
            None => !is_digit(c),
        },
{
    if c == '0' {
        Some(0)
    } else if c == '1' {
        Some(1)
    } else if c == '2' {
        Some(2)
    } else if c == '3' {
        Some(3)
    } else if c == '4' {
        Some(4)
    } else if c == '5' {
        Some(5)
    } else if c == '6' {
        Some(6)
    } else if c == '7' {
        Some(7)
    } else if c == '8' {
        Some(8)
    } else if c == '9' {
        Some(9)
    } else {
        None
    }
}

/// The value of digits only grows with more digits.
proof fn lemma_value_grows(s: Seq<char>, i: int)
    requires
        0 <= i <= s.len(),
    ensures
        value_of(s.take(i)) <= value_of(s),
    decreases s.len() - i,
{
    if i < s.len() {
        lemma_value_grows(s, i + 1);
        assert(s.take(i + 1).drop_last() =~= s.take(i));
    } else {
        assert(s.take(i) =~= s);
    }
}

/// Reads a number as it travels. Anything else gives `None`: an empty
/// text, a sign, a leading zero, a character that is no digit, a number
/// that does not fit.
pub fn parse_u64(s: &str) -> (out: Option<u64>)
    ensures
        out == parsed(s@),
{
    let len = s.unicode_len();
    if len == 0 {
        return None;
    }
    let mut value: u64 = 0;
    let mut i: usize = 0;
    assert(s@.take(0) =~= Seq::<char>::empty());
    while i < len
        invariant
            i <= len,
            len == s@.len(),
            len > 0,
            value == value_of(s@.take(i as int)),
            forall|j: int| 0 <= j < i ==> is_digit(#[trigger] s@[j]),
            i > 1 ==> s@[0] != '0',
        decreases len - i,
    {
        let c = s.get_char(i);
        proof {
            assert(s@.take(i + 1).drop_last() =~= s@.take(i as int));
            assert(s@.take(i + 1).last() == c);
            lemma_value_grows(s@, i + 1);
        }
        let digit = match digit_of(c) {
            Some(d) => d,
            None => {
                return None;
            },
        };
        if i == 1 && value == 0 {
            proof {
                assert(s@.take(1).drop_last() =~= Seq::<char>::empty());
                assert(value_of(s@.take(1).drop_last()) == 0);
                assert(s@.take(1).last() == s@[0]);
                assert(digit_value(s@[0]) == 0);
                assert(is_digit(s@[0]));
            }
            return None;
        }
        proof {
            if i == 1 {
                assert(s@.take(1).drop_last() =~= Seq::<char>::empty());
                assert(value_of(s@.take(1).drop_last()) == 0);
                assert(s@.take(1).last() == s@[0]);
            }
        }
        if value > (u64::MAX - digit) / 10 {
            return None;
        }
        value = value * 10 + digit;
        i += 1;
    }
    proof {
        assert(s@.take(len as int) =~= s@);
        if len > 1 {
        }
    }
    Some(value)
}

} // verus!
