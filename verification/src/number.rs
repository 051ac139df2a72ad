//! Unsigned integers read from and written as text.
use vstd::prelude::*;
use crate::text::chars_of;

verus! {

/// The value of `c` as a digit in base `radix`, as `char::to_digit` gives it.
pub open spec fn digit_value(c: char, radix: nat) -> Option<nat> {
    let u = c as u32;
    let v: int = if 48 <= u <= 57 {
        u - 48
    } else if 97 <= u <= 122 {
        u - 87
    } else if 65 <= u <= 90 {
        u - 55
    } else {
        36
    };
    if v < radix {
        Some(v as nat)
    } else {
        None
    }
}

/// Whether every character of `s` is a digit in base `radix`.
pub open spec fn all_digits(s: Seq<char>, radix: nat) -> bool {
    forall|i: int| 0 <= i < s.len() ==> digit_value(#[trigger] s[i], radix) is Some
}

/// The number that the digits `s` write in base `radix`, most significant first.
pub open spec fn digits_value(s: Seq<char>, radix: nat) -> nat
    decreases s.len(),
{
    if s.len() == 0 {
        0
    } else {
        digits_value(s.drop_last(), radix) * radix + match digit_value(s.last(), radix) {
            Some(d) => d,
            None => 0,
        }
    }
}

/// The digits of `s`: `s` without one leading `+`.
pub open spec fn unsigned_digits(s: Seq<char>) -> Seq<char> {
    if s.len() > 0 && s[0] == '+' {
        s.drop_first()
    } else {
        s
    }
}

/// The unsigned number that `s` writes in base `radix`, as `from_str_radix` of
/// an unsigned type reads it before the range check: an optional `+`, then one
/// or more digits.
pub open spec fn parse_unsigned(s: Seq<char>, radix: nat) -> Option<nat> {
    let d = unsigned_digits(s);
    if d.len() > 0 && all_digits(d, radix) {
        Some(digits_value(d, radix))
    } else {
        None
    }
}

/// The `usize` that `s` writes in base `radix`: `usize::from_str_radix(s, radix).ok()`.
pub open spec fn parse_usize_spec(s: Seq<char>, radix: nat) -> Option<usize> {
    match parse_unsigned(s, radix) {
        Some(v) => if v <= usize::MAX {
            Some(v as usize)
        } else {
            None
        },
        None => None,
    }
}

fn digit_of(c: char, radix: u32) -> (r: Option<u32>)
    requires
        2 <= radix <= 36,
    ensures
        match r {
            Some(d) => digit_value(c, radix as nat) == Some(d as nat),
            None => digit_value(c, radix as nat) is None,
        },
{
    let u = c as u32;
    let v: u32 = if 48 <= u && u <= 57 {
        u - 48
    } else if 97 <= u && u <= 122 {
        u - 87
    } else if 65 <= u && u <= 90 {
        u - 55
    } else {
        36
    };
    if v < radix {
        Some(v)
    } else {
        None
    }
}

/// A prefix of a digit string is worth no more than the whole.
pub proof fn lemma_digits_value_prefix(s: Seq<char>, radix: nat, k: int)
    requires
        radix >= 1,
        0 <= k <= s.len(),
    ensures
        digits_value(s.take(k), radix) <= digits_value(s, radix),
    decreases s.len(),
{
    if k < s.len() {
        let p = s.drop_last();
        assert(p.take(k) == s.take(k));
        lemma_digits_value_prefix(p, radix, k);
        let v = digits_value(p, radix);
        assert(v * radix >= v) by (nonlinear_arith)
            requires
                radix >= 1,
        ;
    } else {
        assert(s.take(k) == s);
    }
}

/// Reading a `usize` in base `radix` (10 or 16).
pub fn parse_usize(s: &str, radix: u32) -> (r: Option<usize>)
    requires
        radix == 10 || radix == 16,
    ensures
        r == parse_usize_spec(s@, radix as nat),
{
    let cs = chars_of(s);
    let n = cs.len();
    let start: usize = if n > 0 && cs[0] == '+' {
        1
    } else {
        0
    };
    let ghost d = unsigned_digits(s@);
    assert(d == s@.skip(start as int));
    if start == n {
        return None;
    }
    let mut i: usize = start;
    while i < n
        invariant
            cs@ == s@,
            n == cs.len(),
            start <= i <= n,
            d == s@.skip(start as int),
            d == unsigned_digits(s@),
            2 <= radix <= 36,
            forall|j: int| start <= j < i ==> digit_value(#[trigger] s@[j], radix as nat) is Some,
        decreases n - i,
    {
        if digit_of(cs[i], radix).is_none() {
            assert(d[i - start] == s@[i as int]);
            assert(digit_value(d[i - start], radix as nat) is None);
            return None;
        }
        i = i + 1;
    }
    assert(all_digits(d, radix as nat)) by {
        assert forall|j: int| 0 <= j < d.len() implies digit_value(#[trigger] d[j], radix as nat) is Some by {
            assert(d[j] == s@[start + j]);
        }
    }
    let mut acc: usize = 0;
    let mut k: usize = start;
    assert(d.take(0) == Seq::<char>::empty());
    while k < n
        invariant
            cs@ == s@,
            n == cs.len(),
            start <= k <= n,
            d == s@.skip(start as int),
            d == unsigned_digits(s@),
            d.len() == n - start,
            radix == 10 || radix == 16,
            all_digits(d, radix as nat),
            acc == digits_value(d.take(k - start), radix as nat),
        decreases n - k,
    {
        assert(d[k - start] == s@[k as int]);
        assert(digit_value(d[k - start], radix as nat) is Some);
        let dv = digit_of(cs[k], radix).unwrap();
        let ghost t = d.take(k + 1 - start);
        assert(t.drop_last() == d.take(k - start));
        assert(t.last() == s@[k as int]);
        proof {
            lemma_digits_value_prefix(d, radix as nat, k + 1 - start);
        }
        match acc.checked_mul(radix as usize) {
            Some(m) => match m.checked_add(dv as usize) {
                Some(a) => {
                    acc = a;
                },
                None => {
                    assert(digits_value(t, radix as nat) == m + dv);
                    return None;
                },
            },
            None => {
                assert(digits_value(t, radix as nat) >= acc * radix) by (nonlinear_arith)
                    requires
                        digits_value(t, radix as nat) == acc * radix + dv,
                ;
                return None;
            },
        }
        k = k + 1;
    }
    assert(d.take(n - start) == d);
    Some(acc)
}

/// The digit character for `d` (below 16), in lower case.
pub open spec fn digit_char(d: int) -> char {
    seq!['0', '1', '2', '3', '4', '5', '6', '7', '8', '9', 'a', 'b', 'c', 'd', 'e', 'f'][d]
}

/// `n` written in decimal, as `Display` for unsigned integers writes it.
pub open spec fn decimal(n: nat) -> Seq<char>
    decreases n,
{
    if n < 10 {
        seq![digit_char(n as int)]
    } else {
        decimal(n / 10).push(digit_char((n % 10) as int))
    }
}

/// `n` written in lower-case hexadecimal, as the `{:x}` format writes it.
pub open spec fn hex_lower(n: nat) -> Seq<char>
    decreases n,
{
    if n < 16 {
        seq![digit_char(n as int)]
    } else {
        hex_lower(n / 16).push(digit_char((n % 16) as int))
    }
}

fn digit_str(d: u128) -> (r: &'static str)
    requires
        d < 16,
    ensures
        r@ == seq![digit_char(d as int)],
{
    let digits = "0123456789abcdef";
    proof {
        reveal_strlit("0123456789abcdef");
    }
    let k = d as usize;
    digits.substring_char(k, k + 1)
}

/// Writing `n` in decimal.
pub fn decimal_string(n: u128) -> (r: String)
    ensures
        r@ == decimal(n as nat),
    decreases n,
{
    if n < 10 {
        String::from_str(digit_str(n))
    } else {
        let mut s = decimal_string(n / 10);
        s.append(digit_str(n % 10));
        s
    }
}

/// Writing `n` in lower-case hexadecimal.
pub fn hex_string(n: u128) -> (r: String)
    ensures
        r@ == hex_lower(n as nat),
    decreases n,
{
    if n < 16 {
        String::from_str(digit_str(n))
    } else {
        let mut s = hex_string(n / 16);
        s.append(digit_str(n % 16));
        s
    }
}


proof fn lemma_digit_char(d: nat, radix: nat)
    requires
        d < radix,
        radix == 10 || radix == 16,
    ensures
        digit_value(digit_char(d as int), radix) == Some(d),
        digit_char(d as int) != '+',
        is_hex_digit(digit_char(d as int)),
{
    assert(seq!['0', '1', '2', '3', '4', '5', '6', '7', '8', '9', 'a', 'b', 'c', 'd', 'e', 'f'][d as int]
        == digit_char(d as int));
    if d == 0 {
    } else if d == 1 {
    } else if d == 2 {
    } else if d == 3 {
    } else if d == 4 {
    } else if d == 5 {
    } else if d == 6 {
    } else if d == 7 {
    } else if d == 8 {
    } else if d == 9 {
    } else if d == 10 {
    } else if d == 11 {
    } else if d == 12 {
    } else if d == 13 {
    } else if d == 14 {
    } else {
    }
}

proof fn lemma_decimal_value(n: nat)
    ensures
        decimal(n).len() >= 1,
        all_digits(decimal(n), 10),
        digits_value(decimal(n), 10) == n,
        decimal(n)[0] != '+',
    decreases n,
{
    if n < 10 {
        lemma_digit_char(n, 10);
        assert(decimal(n).drop_last() == Seq::<char>::empty());
        assert(digits_value(Seq::<char>::empty(), 10) == 0);
        assert(digits_value(decimal(n), 10) == 0 * 10 + n);
    } else {
        lemma_decimal_value(n / 10);
        lemma_digit_char(n % 10, 10);
        let s = decimal(n);
        assert(s.drop_last() == decimal(n / 10));
        assert forall|i: int| 0 <= i < s.len() implies digit_value(#[trigger] s[i], 10) is Some by {
            if i < s.len() - 1 {
                assert(s[i] == decimal(n / 10)[i]);
            }
        }
        assert(s[0] == decimal(n / 10)[0]);
        assert(s.last() == digit_char((n % 10) as int));
        assert((n / 10) * 10 + n % 10 == n);
        assert(digits_value(s, 10) == digits_value(decimal(n / 10), 10) * 10 + n % 10);
    }
}

/// Reading back a decimal number gives the number: the decimal text of every
/// `usize` parses to that `usize`.
pub proof fn lemma_decimal_round_trip(n: usize)
    ensures
        parse_usize_spec(decimal(n as nat), 10) == Some(n),
{
    lemma_decimal_value(n as nat);
}


/// Whether `c` is a lower-case hexadecimal digit.
pub open spec fn is_hex_digit(c: char) -> bool {
    ('0' <= c <= '9') || ('a' <= c <= 'f')
}

proof fn lemma_digit_char_hex(d: int)
    requires
        0 <= d < 16,
    ensures
        is_hex_digit(digit_char(d)),
{
    lemma_digit_char(d as nat, 16);
}

/// Every character of a number written in lower-case hexadecimal is a
/// lower-case hexadecimal digit, and there is at least one.
pub proof fn lemma_hex_lower_digits(n: nat)
    ensures
        hex_lower(n).len() >= 1,
        forall|i: int| 0 <= i < hex_lower(n).len() ==> is_hex_digit(#[trigger] hex_lower(n)[i]),
    decreases n,
{
    if n < 16 {
        lemma_digit_char_hex(n as int);
    } else {
        lemma_hex_lower_digits(n / 16);
        lemma_digit_char_hex((n % 16) as int);
        let s = hex_lower(n);
        assert forall|i: int| 0 <= i < s.len() implies is_hex_digit(#[trigger] s[i]) by {
            if i < s.len() - 1 {
                assert(s[i] == hex_lower(n / 16)[i]);
            }
        }
    }
}


pub(crate) proof fn lemma_hex_value(n: nat)
    ensures
        hex_lower(n).len() >= 1,
        all_digits(hex_lower(n), 16),
        digits_value(hex_lower(n), 16) == n,
        hex_lower(n)[0] != '+',
    decreases n,
{
    if n < 16 {
        lemma_digit_char(n, 16);
        assert(hex_lower(n).drop_last() == Seq::<char>::empty());
        assert(digits_value(Seq::<char>::empty(), 16) == 0);
        assert(digits_value(hex_lower(n), 16) == 0 * 16 + n);
    } else {
        lemma_hex_value(n / 16);
        lemma_digit_char(n % 16, 16);
        let s = hex_lower(n);
        assert(s.drop_last() == hex_lower(n / 16));
        assert forall|i: int| 0 <= i < s.len() implies digit_value(#[trigger] s[i], 16) is Some by {
            if i < s.len() - 1 {
                assert(s[i] == hex_lower(n / 16)[i]);
            }
        }
        assert(s[0] == hex_lower(n / 16)[0]);
        assert(s.last() == digit_char((n % 16) as int));
        assert((n / 16) * 16 + n % 16 == n);
        assert(digits_value(s, 16) == digits_value(hex_lower(n / 16), 16) * 16 + n % 16);
    }
}

/// Reading back a hexadecimal number gives the number: the lower-case
/// hexadecimal text of every `usize` parses to that `usize`.
pub proof fn lemma_hex_round_trip(n: usize)
    ensures
        parse_usize_spec(hex_lower(n as nat), 16) == Some(n),
{
    lemma_hex_value(n as nat);
}

} // verus!
