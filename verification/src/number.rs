//! Numbers as text.

use crate::text::lemma_encode_injective;
use crate::token::string_from_utf8;
use vstd::arithmetic::div_mod::{lemma_div_decreases, lemma_fundamental_div_mod};
use vstd::prelude::*;
use vstd::utf8::{encode_utf8, encode_utf8_valid_utf8, is_ascii_chars, is_ascii_chars_encode_utf8};

verus! {

/// The digit of value `d`: `0` to `9`, then `a` to `z`.
pub open spec fn digit(d: int) -> char {
    if d < 10 {
        (48 + d) as char
    } else {
        (87 + d) as char
    }
}

/// `n` written in the given base, without leading zeros.
pub open spec fn numeral(n: nat, base: nat) -> Seq<char>
    decreases n via numeral_shrinks
{
    if base < 2 || n < base {
        seq![digit(n as int)]
    } else {
        numeral(n / base, base).push(digit((n % base) as int))
    }
}

#[via_fn]
proof fn numeral_shrinks(n: nat, base: nat) {
    if base >= 2 && n >= base {
        lemma_div_decreases(n as int, base as int);
    }
}

/// The two hexadecimal digits of each byte.
pub open spec fn hex_of(bytes: Seq<u8>) -> Seq<char>
    decreases bytes.len(),
{
    if bytes.len() == 0 {
        Seq::empty()
    } else {
        hex_of(bytes.drop_last()) + seq![
            digit(bytes.last() as int / 16),
            digit(bytes.last() as int % 16),
        ]
    }
}

/// The string of ASCII bytes.
fn ascii_string(bytes: Vec<u8>) -> (s: String)
    requires
        forall|i: int| 0 <= i < bytes@.len() ==> #[trigger] bytes@[i] < 128,
    ensures
        s@ == Seq::new(bytes@.len(), |i: int| bytes@[i] as char),
{
    let ghost raw = bytes@;
    let ghost chars = Seq::new(raw.len(), |i: int| raw[i] as char);
    proof {
        assert(is_ascii_chars(chars));
        is_ascii_chars_encode_utf8(chars);
        assert(encode_utf8(chars) =~= raw);
        encode_utf8_valid_utf8(chars);
    }
    match string_from_utf8(bytes) {
        Some(s) => {
            proof {
                lemma_encode_injective(s@, chars);
            }
            s
        },
        None => String::new(),
    }
}

/// The ASCII code of the digit of value `d`.
fn digit_code(d: u8) -> (c: u8)
    requires
        d < 36,
    ensures
        c < 128,
        c as char == digit(d as int),
{
    if d < 10 {
        48 + d
    } else {
        87 + d
    }
}

/// `n` written in the given base, without leading zeros.
pub fn numeral_text(n: u128, base: u8) -> (s: String)
    requires
        2 <= base <= 36,
    ensures
        s@ == numeral(n as nat, base as nat),
{
    let ghost b = base as nat;
    let mut backwards: Vec<u8> = Vec::new();
    let mut rest: u128 = n;
    let ghost mut tail = Seq::<char>::empty();
    assert(numeral(n as nat, b) + tail =~= numeral(n as nat, b));
    while rest >= base as u128
        invariant
            2 <= base <= 36,
            b == base as nat,
            numeral(n as nat, b) == numeral(rest as nat, b) + tail,
            tail.len() == backwards@.len(),
            forall|i: int| 0 <= i < backwards@.len() ==> #[trigger] backwards@[i] < 128,
            forall|i: int|
                0 <= i < tail.len() ==> (#[trigger] tail[i]) == backwards@[tail.len() - 1
                    - i] as char,
        decreases rest,
    {
        let d: u8 = (rest % (base as u128)) as u8;
        let ghost more = seq![digit(d as int)] + tail;
        proof {
            lemma_div_decreases(rest as int, base as int);
            assert(numeral(rest as nat, b) == numeral(rest as nat / b, b).push(digit(d as int)));
            assert(numeral(rest as nat, b) + tail =~= numeral(rest as nat / b, b) + more);
        }
        backwards.push(digit_code(d));
        proof {
            assert forall|i: int| 0 <= i < more.len() implies (#[trigger] more[i])
                == backwards@[more.len() - 1 - i] as char by {
                if i > 0 {
                    assert(more[i] == tail[i - 1]);
                }
            }
            tail = more;
        }
        rest = rest / (base as u128);
    }
    let ghost more = seq![digit(rest as int)] + tail;
    backwards.push(digit_code(rest as u8));
    proof {
        assert(numeral(rest as nat, b) + tail =~= more);
        assert forall|i: int| 0 <= i < more.len() implies (#[trigger] more[i])
            == backwards@[more.len() - 1 - i] as char by {
            if i > 0 {
                assert(more[i] == tail[i - 1]);
            }
        }
    }
    let codes = crate::sort::reversed(backwards);
    let s = ascii_string(codes);
    assert(s@ =~= more);
    s
}

/// The two hexadecimal digits of each byte.
pub fn hex_encode(bytes: &[u8]) -> (s: String)
    ensures
        s@ == hex_of(bytes@),
{
    let mut codes: Vec<u8> = Vec::new();
    let mut i: usize = 0;
    while i < bytes.len()
        invariant
            i <= bytes.len(),
            forall|k: int| 0 <= k < codes@.len() ==> #[trigger] codes@[k] < 128,
            Seq::new(codes@.len(), |k: int| codes@[k] as char) == hex_of(bytes@.take(i as int)),
        decreases bytes.len() - i,
    {
        let ghost before = codes@;
        let byte = bytes[i];
        codes.push(digit_code(byte / 16));
        codes.push(digit_code(byte % 16));
        proof {
            assert(bytes@.take(i + 1).drop_last() =~= bytes@.take(i as int));
            assert(Seq::new(codes@.len(), |k: int| codes@[k] as char) =~= Seq::new(
                before.len(),
                |k: int| before[k] as char,
            ) + seq![digit(byte as int / 16), digit(byte as int % 16)]);
        }
        i += 1;
    }
    assert(bytes@.take(bytes@.len() as int) =~= bytes@);
    ascii_string(codes)
}

/// Digits tell their values apart, and none is a hyphen.
proof fn lemma_digit(a: int, b: int)
    requires
        0 <= a < 36,
        0 <= b < 36,
    ensures
        digit(a) == digit(b) ==> a == b,
        digit(a) != '-',
{
}

/// A numeral has at least one digit and no hyphen.
pub proof fn lemma_numeral_digits(n: nat, base: nat)
    requires
        2 <= base <= 36,
    ensures
        numeral(n, base).len() > 0,
        !numeral(n, base).contains('-'),
    decreases n,
{
    if n < base {
        lemma_digit(n as int, 0);
    } else {
        lemma_div_decreases(n as int, base as int);
        lemma_numeral_digits(n / base, base);
        lemma_digit((n % base) as int, 0);
    }
}

/// A numeral determines its number.
pub proof fn lemma_numeral_injective(a: nat, b: nat, base: nat)
    requires
        2 <= base <= 36,
        numeral(a, base) == numeral(b, base),
    ensures
        a == b,
    decreases a,
{
    let x = numeral(a, base);
    let y = numeral(b, base);
    if a < base && b < base {
        assert(x[0] == digit(a as int) && y[0] == digit(b as int));
        lemma_digit(a as int, b as int);
    } else if a < base {
        lemma_numeral_digits(b / base, base);
        assert(y.len() > 1);
    } else if b < base {
        lemma_numeral_digits(a / base, base);
        assert(x.len() > 1);
    } else {
        lemma_fundamental_div_mod(a as int, base as int);
        lemma_fundamental_div_mod(b as int, base as int);
        assert(x == numeral(a / base, base).push(digit((a % base) as int)));
        assert(y == numeral(b / base, base).push(digit((b % base) as int)));
        assert(x.last() == digit((a % base) as int));
        assert(y.last() == digit((b % base) as int));
        lemma_digit((a % base) as int, (b % base) as int);
        assert(x.drop_last() =~= numeral(a / base, base));
        assert(y.drop_last() =~= numeral(b / base, base));
        lemma_div_decreases(a as int, base as int);
        lemma_numeral_injective(a / base, b / base, base);
        let q = a / base;
        assert(a == base * q + a % base);
        assert(b == base * q + b % base);
    }
}

/// Two texts split at their only hyphen are equal only if both parts are.
pub proof fn lemma_hyphen_splits(a: Seq<char>, b: Seq<char>, c: Seq<char>, d: Seq<char>)
    requires
        !a.contains('-'),
        !c.contains('-'),
        a.push('-') + b == c.push('-') + d,
    ensures
        a == c,
        b == d,
{
    let x = a.push('-') + b;
    let y = c.push('-') + d;
    if a.len() < c.len() {
        assert(x[a.len() as int] == '-');
        assert(y[a.len() as int] == c[a.len() as int]);
        assert(c.contains(c[a.len() as int]));
    } else if c.len() < a.len() {
        assert(y[c.len() as int] == '-');
        assert(x[c.len() as int] == a[c.len() as int]);
        assert(a.contains(a[c.len() as int]));
    }
    assert forall|i: int| 0 <= i < a.len() implies a[i] == c[i] by {
        assert(x[i] == a[i] && y[i] == c[i]);
    }
    assert(a =~= c);
    assert(b =~= x.skip(a.len() as int + 1));
    assert(d =~= y.skip(c.len() as int + 1));
}

/// The value of a digit: `0` to `9`, then `a` to `z`.
pub open spec fn digit_value(c: char) -> int {
    if '0' <= c <= '9' {
        c as int - '0' as int
    } else if 'a' <= c <= 'z' {
        c as int - 'a' as int + 10
    } else {
        -1
    }
}

/// The number that digits stand for in positional notation.
pub open spec fn positional_value(digits: Seq<char>, base: int) -> int
    decreases digits.len(),
{
    if digits.len() == 0 {
        0
    } else {
        positional_value(digits.drop_last(), base) * base + digit_value(digits.last())
    }
}

/// What a digit is worth.
proof fn lemma_digit_value(d: int)
    requires
        0 <= d < 36,
    ensures
        digit_value(digit(d)) == d,
        digit(d) == '0' ==> d == 0,
{
}

/// The digits of a numeral, and what they are worth.
proof fn lemma_numeral_value(n: nat, base: nat)
    requires
        2 <= base <= 36,
    ensures
        numeral(n, base).len() > 0,
        forall|i: int|
            0 <= i < numeral(n, base).len() ==> 0 <= digit_value(#[trigger] numeral(n, base)[i])
                < base,
        positional_value(numeral(n, base), base as int) == n,
        n > 0 ==> numeral(n, base)[0] != '0',
        numeral(n, base).len() > 1 ==> n >= base,
    decreases n,
{
    let t = numeral(n, base);
    if n < base {
        lemma_digit_value(n as int);
        assert(t.drop_last() =~= Seq::<char>::empty());
        assert(positional_value(t.drop_last(), base as int) == 0);
        assert(0 * base == 0);
    } else {
        lemma_div_decreases(n as int, base as int);
        lemma_fundamental_div_mod(n as int, base as int);
        let q = n / base;
        let front = numeral(q, base);
        lemma_numeral_value(q, base);
        lemma_digit_value((n % base) as int);
        assert(t == front.push(digit((n % base) as int)));
        assert(t.drop_last() =~= front);
        assert(q * base == base * q) by (nonlinear_arith);
        assert(q > 0) by {
            if q == 0 {
                assert(base * q == 0);
            }
        }
        assert forall|i: int| 0 <= i < t.len() implies 0 <= digit_value(#[trigger] t[i]) < base by {
            if i < front.len() {
                assert(t[i] == front[i]);
            }
        }
        assert(t[0] == front[0]);
    }
}

/// A numeral says its number: its digits are digits of the base, in positional notation they
/// are worth the number, and no zero leads them.
pub proof fn law_numeral_says_its_number(n: u128, base: u8, s: String)
    requires
        2 <= base <= 36,
        call_ensures(numeral_text, (n, base), s),
    ensures
        s@.len() > 0,
        forall|i: int| 0 <= i < s@.len() ==> 0 <= digit_value(#[trigger] s@[i]) < base,
        positional_value(s@, base as int) == n,
        s@.len() > 1 ==> s@[0] != '0',
{
    lemma_numeral_value(n as nat, base as nat);
}

/// Where the digits of a byte stand.
proof fn lemma_hex_digits(bytes: Seq<u8>)
    ensures
        hex_of(bytes).len() == 2 * bytes.len(),
        forall|i: int|
            0 <= i < bytes.len() ==> hex_of(bytes)[2 * i] == digit((#[trigger] bytes[i]) as int / 16)
                && hex_of(bytes)[2 * i + 1] == digit(bytes[i] as int % 16),
    decreases bytes.len(),
{
    if bytes.len() > 0 {
        lemma_hex_digits(bytes.drop_last());
        let front = bytes.drop_last();
        let t = hex_of(bytes);
        assert forall|i: int| 0 <= i < bytes.len() implies t[2 * i] == digit(
            (#[trigger] bytes[i]) as int / 16,
        ) && t[2 * i + 1] == digit(bytes[i] as int % 16) by {
            if i < front.len() {
                assert(front[i] == bytes[i]);
                assert(t[2 * i] == hex_of(front)[2 * i]);
                assert(t[2 * i + 1] == hex_of(front)[2 * i + 1]);
            }
        }
    }
}

/// Two hexadecimal digits are worth a byte.
pub open spec fn says_byte(high: char, low: char, byte: u8) -> bool {
    &&& 0 <= digit_value(high) < 16
    &&& 0 <= digit_value(low) < 16
    &&& 16 * digit_value(high) + digit_value(low) == byte
}

/// Hexadecimal text says its bytes: two digits for each, the higher first.
pub proof fn law_hex_says_its_bytes(bytes: &[u8], s: String)
    requires
        call_ensures(hex_encode, (bytes,), s),
    ensures
        s@.len() == 2 * bytes@.len(),
        forall|i: int|
            0 <= i < bytes@.len() ==> says_byte(s@[2 * i], s@[2 * i + 1], #[trigger] bytes@[i]),
{
    lemma_hex_digits(bytes@);
    assert forall|i: int| 0 <= i < bytes@.len() implies says_byte(
        s@[2 * i],
        s@[2 * i + 1],
        #[trigger] bytes@[i],
    ) by {
        lemma_digit_value(bytes@[i] as int / 16);
        lemma_digit_value(bytes@[i] as int % 16);
    }
}

} // verus!
