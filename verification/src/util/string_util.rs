//! Text forms of numbers and bytes.

use vstd::prelude::*;
use vstd::string::*;

verus! {

/// The character of one decimal digit.
pub open spec fn digit_char(digit: int) -> char {
    if digit == 0 {
        '0'
    } else if digit == 1 {
        '1'
    } else if digit == 2 {
        '2'
    } else if digit == 3 {
        '3'
    } else if digit == 4 {
        '4'
    } else if digit == 5 {
        '5'
    } else if digit == 6 {
        '6'
    } else if digit == 7 {
        '7'
    } else if digit == 8 {
        '8'
    } else {
        '9'
    }
}

/// The decimal digits of a natural number, most significant first, without
/// leading zeros.
pub open spec fn natural_text(n: nat) -> Seq<char>
    decreases n,
{
    if n < 10 {
        seq![digit_char(n as int)]
    } else {
        natural_text(n / 10).push(digit_char((n % 10) as int))
    }
}

/// The decimal form of an integer: a minus sign for a negative one, then
/// the digits of its magnitude.
pub open spec fn decimal_text(value: int) -> Seq<char> {
    if value < 0 {
        seq!['-'] + natural_text((-value) as nat)
    } else {
        natural_text(value as nat)
    }
}

/// One decimal digit as text.
fn digit_str(digit: u8) -> (s: &'static str)
    requires
        digit < 10,
    ensures
        s@ == seq![digit_char(digit as int)],
{
    proof {
        reveal_strlit("0");
        reveal_strlit("1");
        reveal_strlit("2");
        reveal_strlit("3");
        reveal_strlit("4");
        reveal_strlit("5");
        reveal_strlit("6");
        reveal_strlit("7");
        reveal_strlit("8");
        reveal_strlit("9");
    }
    let s = match digit {
        0 => "0",
        1 => "1",
        2 => "2",
        3 => "3",
        4 => "4",
        5 => "5",
        6 => "6",
        7 => "7",
        8 => "8",
        _ => "9",
    };
    assert(s@ =~= seq![digit_char(digit as int)]);
    s
}

/// The digits of `n` from the least significant up, for as long as a
/// quotient is left: the reverse of `natural_text`.
spec fn digits_up(n: nat) -> Seq<u8>
    decreases n,
{
    if n < 10 {
        seq![n as u8]
    } else {
        seq![(n % 10) as u8] + digits_up(n / 10)
    }
}

/// Reading `digits_up` from its end gives `natural_text`.
proof fn lemma_digits_up(n: nat)
    ensures
        digits_up(n).len() == natural_text(n).len(),
        digits_up(n).len() >= 1,
        forall|i: int|
            0 <= i < digits_up(n).len() ==> #[trigger] digits_up(n)[i] < 10 && natural_text(
                n,
            )[digits_up(n).len() - 1 - i] == digit_char(digits_up(n)[i] as int),
    decreases n,
{
    if n >= 10 {
        lemma_digits_up(n / 10);
        let up = digits_up(n);
        let rest = digits_up(n / 10);
        assert forall|i: int| 0 <= i < up.len() implies #[trigger] up[i] < 10 && natural_text(
            n,
        )[up.len() - 1 - i] == digit_char(up[i] as int) by {
            if i > 0 {
                assert(up[i] == rest[i - 1]);
            }
        }
    }
}

/// The decimal form of `value`.
pub fn decimal(value: i64) -> (text: String)
    ensures
        text@ == decimal_text(value as int),
{
    let magnitude: u64 = if value < 0 {
        ((-(value + 1)) as u64) + 1
    } else {
        value as u64
    };
    let mut digits: Vec<u8> = Vec::new();
    let mut rest = magnitude;
    while rest >= 10
        invariant
            digits@ + digits_up(rest as nat) == digits_up(magnitude as nat),
        decreases rest,
    {
        let ghost before = digits@;
        digits.push((rest % 10) as u8);
        proof {
            assert(digits@ + digits_up((rest / 10) as nat) =~= before + digits_up(rest as nat));
        }
        rest = rest / 10;
    }
    digits.push(rest as u8);
    proof {
        lemma_digits_up(magnitude as nat);
        assert(digits@ =~= digits_up(magnitude as nat));
    }
    let mut text = if value < 0 {
        proof {
            reveal_strlit("-");
        }
        String::from_str("-")
    } else {
        String::from_str("")
    };
    proof {
        reveal_strlit("");
    }
    let ghost sign = text@;
    let ghost whole = natural_text(magnitude as nat);
    assert(sign =~= if value < 0 {
        seq!['-']
    } else {
        Seq::<char>::empty()
    });
    let n = digits.len();
    let mut i = n;
    while i > 0
        invariant
            i <= n,
            n == digits@.len(),
            n == whole.len(),
            forall|k: int|
                0 <= k < n ==> #[trigger] digits@[k] < 10 && whole[n - 1 - k] == digit_char(
                    digits@[k] as int,
                ),
            text@ == sign + whole.take(n - i),
        decreases i,
    {
        i -= 1;
        let ghost before = text@;
        text.append(digit_str(digits[i]));
        proof {
            assert(whole.take(n - i) =~= whole.take(n - i - 1).push(whole[n - 1 - i]));
            assert(text@ =~= sign + whole.take(n - i));
        }
    }
    proof {
        assert(whole.take(n as int) =~= whole);
        assert(text@ =~= decimal_text(value as int));
    }
    text
}

/// The character of one hexadecimal digit, in upper case.
pub open spec fn hex_char(digit: int) -> char {
    if digit < 10 {
        digit_char(digit)
    } else if digit == 10 {
        'A'
    } else if digit == 11 {
        'B'
    } else if digit == 12 {
        'C'
    } else if digit == 13 {
        'D'
    } else if digit == 14 {
        'E'
    } else {
        'F'
    }
}

/// The two hexadecimal digits of a byte.
pub open spec fn byte_hex(byte: u8) -> Seq<char> {
    seq![hex_char(byte as int / 16), hex_char(byte as int % 16)]
}

/// The bytes in hexadecimal, separated by a comma and a space.
pub open spec fn hex_joined(bytes: Seq<u8>) -> Seq<char>
    decreases bytes.len(),
{
    if bytes.len() == 0 {
        Seq::empty()
    } else if bytes.len() == 1 {
        byte_hex(bytes[0])
    } else {
        hex_joined(bytes.drop_last()) + seq![',', ' '] + byte_hex(bytes.last())
    }
}

/// The bytes as a list in hexadecimal: `[00, 01, FE]`.
pub open spec fn hex_text(bytes: Seq<u8>) -> Seq<char> {
    seq!['['] + hex_joined(bytes) + seq![']']
}

/// One hexadecimal digit as text.
fn hex_str(digit: u8) -> (s: &'static str)
    requires
        digit < 16,
    ensures
        s@ == seq![hex_char(digit as int)],
{
    if digit < 10 {
        digit_str(digit)
    } else {
        proof {
            reveal_strlit("A");
            reveal_strlit("B");
            reveal_strlit("C");
            reveal_strlit("D");
            reveal_strlit("E");
            reveal_strlit("F");
        }
        let s = match digit {
            10 => "A",
            11 => "B",
            12 => "C",
            13 => "D",
            14 => "E",
            _ => "F",
        };
        assert(s@ =~= seq![hex_char(digit as int)]);
        s
    }
}

/// The bytes as a list in hexadecimal, two upper-case digits for each.
pub fn hex_list(bytes: &[u8]) -> (text: String)
    ensures
        text@ == hex_text(bytes@),
{
    proof {
        reveal_strlit("[");
        reveal_strlit("]");
        reveal_strlit(", ");
    }
    let mut text = String::from_str("[");
    let n = bytes.len();
    let mut i: usize = 0;
    while i < n
        invariant
            n == bytes@.len(),
            i <= n,
            text@ == seq!['['] + hex_joined(bytes@.take(i as int)),
            ", "@ == seq![',', ' '],
        decreases n - i,
    {
        let ghost before = text@;
        if i > 0 {
            text.append(", ");
        }
        let b = bytes[i];
        text.append(hex_str(b / 16));
        text.append(hex_str(b % 16));
        proof {
            let upto = bytes@.take(i + 1);
            assert(upto.drop_last() =~= bytes@.take(i as int));
            assert(upto.last() == b);
            if i == 0 {
                assert(bytes@.take(0) =~= Seq::<u8>::empty());
                assert(upto[0] == b);
            }
            assert(text@ =~= seq!['['] + hex_joined(upto));
        }
        i += 1;
    }
    text.append("]");
    proof {
        assert(bytes@.take(n as int) =~= bytes@);
        assert(text@ =~= hex_text(bytes@));
    }
    text
}

/// Whether `a` comes before `b` in the order of a dictionary: at the first
/// place where they differ `a` has the smaller byte, or `a` ends there and
/// `b` goes on.
pub open spec fn lex_less(a: Seq<u8>, b: Seq<u8>) -> bool
    decreases a.len(),
{
    if b.len() == 0 {
        false
    } else if a.len() == 0 {
        true
    } else if a[0] != b[0] {
        a[0] < b[0]
    } else {
        lex_less(a.drop_first(), b.drop_first())
    }
}

/// Two byte strings of which neither comes before the other are the same.
pub proof fn lemma_lex_total(a: Seq<u8>, b: Seq<u8>)
    ensures
        !lex_less(a, a),
        lex_less(a, b) ==> !lex_less(b, a),
        !lex_less(a, b) && !lex_less(b, a) ==> a == b,
    decreases a.len(),
{
    if a.len() > 0 {
        lemma_lex_total(a.drop_first(), a.drop_first());
    }
    if a.len() > 0 && b.len() > 0 && a[0] == b[0] {
        lemma_lex_total(a.drop_first(), b.drop_first());
        if !lex_less(a, b) && !lex_less(b, a) {
            assert(a =~= seq![a[0]] + a.drop_first());
            assert(b =~= seq![b[0]] + b.drop_first());
        }
    } else if a.len() == 0 && b.len() == 0 {
        assert(a =~= b);
    }
}

/// Whether `a` comes before `b` in the order of a dictionary.
pub fn bytes_less(a: &[u8], b: &[u8]) -> (less: bool)
    ensures
        less == lex_less(a@, b@),
{
    let n = a.len();
    let m = b.len();
    let mut i: usize = 0;
    proof {
        assert(a@.skip(0) =~= a@);
        assert(b@.skip(0) =~= b@);
    }
    while i < n && i < m
        invariant
            n == a@.len(),
            m == b@.len(),
            i <= n,
            i <= m,
            lex_less(a@, b@) == lex_less(a@.skip(i as int), b@.skip(i as int)),
        decreases n - i,
    {
        proof {
            assert(a@.skip(i as int).drop_first() =~= a@.skip(i + 1));
            assert(b@.skip(i as int).drop_first() =~= b@.skip(i + 1));
        }
        if a[i] != b[i] {
            return a[i] < b[i];
        }
        i += 1;
    }
    i < m
}

} // verus!
