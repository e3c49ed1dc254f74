//! Unsigned decimal numbers in text.
use vstd::prelude::*;
use vstd::string::*;
use vstd::utf8::*;

verus! {

pub open spec fn is_digit(c: char) -> bool {
    '0' <= c <= '9'
}

/// The value of a digit.
pub open spec fn digit_value(c: char) -> nat {
    (c as u32 - '0' as u32) as nat
}

pub open spec fn all_digits(s: Seq<char>) -> bool {
    forall|i: int| 0 <= i < s.len() ==> is_digit(#[trigger] s[i])
}

/// The number that a sequence of digits writes.
pub open spec fn decimal_value(s: Seq<char>) -> nat
    decreases s.len(),
{
    if s.len() == 0 {
        0
    } else {
        decimal_value(s.drop_last()) * 10 + digit_value(s.last())
    }
}

/// The number that a text writes: digits, at least one, behind an optional plus sign.
pub open spec fn unsigned(s: Seq<char>) -> Option<nat> {
    let digits = if s.len() > 0 && s[0] == '+' {
        s.skip(1)
    } else {
        s
    };
    if digits.len() > 0 && all_digits(digits) {
        Some(decimal_value(digits))
    } else {
        None
    }
}

/// The number that a text writes, where it is at most `max`.
pub open spec fn unsigned_up_to(s: Seq<char>, max: nat) -> Option<nat> {
    match unsigned(s) {
        Some(v) if v <= max => Some(v),
        _ => None,
    }
}

/// The digits of a number, without leading zeros.
pub open spec fn decimal_text(n: nat) -> Seq<char>
    decreases n,
{
    if n < 10 {
        seq![digit_char(n)]
    } else {
        decimal_text(n / 10).push(digit_char(n % 10))
    }
}

/// The digit with a value below ten.
pub open spec fn digit_char(d: nat) -> char {
    ('0' as u32 + d) as char
}

/// More digits never write a smaller number.
proof fn lemma_value_grows(s: Seq<char>, k: int)
    requires
        0 <= k <= s.len(),
    ensures
        decimal_value(s.take(k)) <= decimal_value(s),
    decreases s.len() - k,
{
    if k < s.len() {
        lemma_value_grows(s, k + 1);
        assert(s.take(k + 1).drop_last() =~= s.take(k));
    } else {
        assert(s.take(k) =~= s);
    }
}

/// Writing a number and reading it back gives the number.
pub proof fn lemma_decimal_round_trip(n: nat)
    ensures
        unsigned(decimal_text(n)) == Some(n),
        all_digits(decimal_text(n)),
        decimal_text(n).len() > 0,
{
    lemma_decimal_digits(n);
}

proof fn lemma_decimal_digits(n: nat)
    ensures
        all_digits(decimal_text(n)),
        decimal_text(n).len() > 0,
        decimal_value(decimal_text(n)) == n,
    decreases n,
{
    let d: nat = n % 10;
    assert(is_digit(digit_char(d)) && digit_value(digit_char(d)) == d);
    if n < 10 {
        let s = seq![digit_char(n)];
        assert(s.drop_last() =~= Seq::<char>::empty());
        reveal_with_fuel(decimal_value, 2);
    } else {
        lemma_decimal_digits(n / 10);
        let s = decimal_text(n / 10);
        let t = s.push(digit_char(d));
        assert(t.drop_last() =~= s);
        assert(t.last() == digit_char(d));
    }
}

/// Reads an unsigned number of at most `max`.
pub fn parse_unsigned(s: &str, max: u64) -> (value: Option<u64>)
    ensures
        match value {
            Some(v) => unsigned_up_to(s@, max as nat) == Some(v as nat),
            None => unsigned_up_to(s@, max as nat) is None,
        },
{
    if !s.is_ascii() {
        assert(unsigned(s@) is None) by {
            let i = choose|i: int| 0 <= i < s@.len() && !('\0' <= #[trigger] s@[i] <= '\u{7f}');
            assert(!is_digit(s@[i]));
            if s@[0] == '+' {
                assert(s@.skip(1)[i - 1] == s@[i]);
            }
        }
        return None;
    }
    let bytes = s.as_bytes();
    proof {
        is_ascii_chars_encode_utf8(s@);
    }
    let n: usize = bytes.len();
    let start: usize = if n > 0 && bytes[0] == '+' as u8 {
        1
    } else {
        0
    };
    let ghost digits = s@.skip(start as int);
    proof {
        if n > 0 {
            lemma_byte_of(s@[0], '+');
        }
        assert(s@.skip(0) =~= s@);
    }
    if start == n {
        return None;
    }
    let mut i: usize = start;
    let mut acc: u64 = 0;
    assert(digits.take(0) =~= Seq::<char>::empty());
    while i < n
        invariant
            n == bytes@.len(),
            n == s@.len(),
            start <= i <= n,
            start < n,
            is_ascii_chars(s@),
            forall|k: int| 0 <= k < n ==> #[trigger] s@[k] as u8 == bytes@[k],
            digits == s@.skip(start as int),
            unsigned(s@) == (if all_digits(digits) { Some(decimal_value(digits)) } else { None }),
            all_digits(digits.take(i - start)),
            acc == decimal_value(digits.take(i - start)),
            acc <= max,
        decreases n - i,
    {
        let b: u8 = bytes[i];
        assert(digits[i - start] == s@[i as int]);
        proof {
            lemma_byte_digit(s@[i as int]);
        }
        if b < '0' as u8 || b > '9' as u8 {
            assert(!is_digit(digits[i - start]));
            return None;
        }
        let d: u64 = (b - '0' as u8) as u64;
        let ghost next = digits.take(i - start + 1);
        proof {
            assert(next.drop_last() =~= digits.take(i - start));
            assert(next.last() == s@[i as int]);
            assert(decimal_value(next) == acc * 10 + d);
            assert forall|k: int| 0 <= k < next.len() implies is_digit(#[trigger] next[k]) by {
                if k < i - start {
                    assert(digits.take(i - start)[k] == next[k]);
                }
            }
        }
        if d > max || acc > (max - d) / 10 {
            proof {
                lemma_value_grows(digits, i - start + 1);
            }
            return None;
        }
        acc = acc * 10 + d;
        i += 1;
    }
    assert(digits.take(n - start) =~= digits);
    Some(acc)
}

/// A character below 0x80 is the plus sign, or another given one, exactly where its byte is.
proof fn lemma_byte_of(c: char, d: char)
    requires
        '\0' <= c <= '\u{7f}',
        '\0' <= d <= '\u{7f}',
    ensures
        c == d <==> c as u8 == d as u8,
{
}

proof fn lemma_byte_digit(c: char)
    requires
        '\0' <= c <= '\u{7f}',
    ensures
        is_digit(c) <==> '0' as u8 <= c as u8 <= '9' as u8,
        is_digit(c) ==> digit_value(c) == c as u8 - '0' as u8,
{
}

/// The text of one digit.
fn digit_str(d: u64) -> (text: &'static str)
    requires
        d < 10,
    ensures
        text@ == seq![digit_char(d as nat)],
{
    proof {
        reveal_strlit("0");
        reveal_strlit("1");
        reveal_strlit("2");
        reveal_strlit("3");
        reveal_strlit("4");
        reveal_strlit("5");
        reveal_strlit("6");
        reveal_strlit("7");
        reveal_strlit("8");
        reveal_strlit("9");
    }
    let text: &'static str = match d {
        0 => "0",
        1 => "1",
        2 => "2",
        3 => "3",
        4 => "4",
        5 => "5",
        6 => "6",
        7 => "7",
        8 => "8",
        _ => "9",
    };
    assert(text@ =~= seq![digit_char(d as nat)]);
    text
}

/// Writes a number in decimal.
pub fn decimal_string(n: u64) -> (text: String)
    ensures
        text@ == decimal_text(n as nat),
    decreases n,
{
    if n < 10 {
        digit_str(n).to_owned()
    } else {
        let mut text = decimal_string(n / 10);
        text.append(digit_str(n % 10));
        assert(text@ =~= decimal_text(n as nat));
        text
    }
}

} // verus!
