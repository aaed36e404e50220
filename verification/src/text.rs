//! Fixed-point readings and the text they are shown as.
//!
//! Every real-valued quantity in this crate (a confidence, a signal strength, a
//! turbidity, a coordinate, a score) is an `i64` that counts ten-thousandths:
//! `SCALE` units make one whole, so `9000` stands for `0.90`.

use vstd::prelude::*;
use vstd::string::*;

verus! {

/// Fixed-point units in one whole.
pub const SCALE: i64 = 10000;

/// The character of a decimal digit.
pub open spec fn digit_char(d: int) -> char {
    if d == 0 {
        '0'
    } else if d == 1 {
        '1'
    } else if d == 2 {
        '2'
    } else if d == 3 {
        '3'
    } else if d == 4 {
        '4'
    } else if d == 5 {
        '5'
    } else if d == 6 {
        '6'
    } else if d == 7 {
        '7'
    } else if d == 8 {
        '8'
    } else {
        '9'
    }
}

/// The decimal numeral of a natural number, most significant digit first,
/// without leading zeros.
pub open spec fn decimal(n: nat) -> Seq<char>
    decreases n,
{
    if n < 10 {
        seq![digit_char(n as int)]
    } else {
        decimal(n / 10).push(digit_char((n % 10) as int))
    }
}

/// A non-negative magnitude, counted in units of which `per` make one
/// hundredth, rounded to whole hundredths, exact ties to even.
pub open spec fn round_hundredths(m: nat, per: nat) -> nat {
    let q = m / per;
    let r = m % per;
    if 2 * r > per || (2 * r == per && q % 2 == 1) {
        q + 1
    } else {
        q
    }
}

/// A value, counted in units of which `per` make one hundredth, shown with
/// exactly two decimal places: a minus sign for a negative value, the whole
/// part, a point, and two decimals, the exact value rounded to hundredths
/// with ties to even.
pub open spec fn two_places_at(v: int, per: nat) -> Seq<char> {
    let m: nat = if v < 0 {
        (-v) as nat
    } else {
        v as nat
    };
    let h = round_hundredths(m, per);
    let body = decimal(h / 100) + seq![
        '.',
        digit_char(((h % 100) / 10) as int),
        digit_char((h % 10) as int),
    ];
    if v < 0 {
        seq!['-'] + body
    } else {
        body
    }
}

/// A fixed-point value (ten-thousandths) shown with two decimal places.
pub open spec fn two_places(v: int) -> Seq<char> {
    two_places_at(v, 100)
}

/// `s` followed by spaces up to `width` characters, as `{:<width}` shows it.
pub open spec fn pad_to(s: Seq<char>, width: nat) -> Seq<char> {
    if s.len() >= width {
        s
    } else {
        s + Seq::new((width - s.len()) as nat, |i: int| ' ')
    }
}

/// Whether every character of `s` is a decimal digit.
pub open spec fn all_digits(s: Seq<char>) -> bool {
    forall|i: int| 0 <= i < s.len() ==> '0' <= #[trigger] s[i] <= '9'
}

/// The number a string of decimal digits spells, read by character code.
pub open spec fn digits_value(s: Seq<char>) -> int
    decreases s.len(),
{
    if s.len() == 0 {
        0
    } else {
        10 * digits_value(s.drop_last()) + ((s.last() as int) - ('0' as int))
    }
}

proof fn lemma_digit_char(d: int)
    requires
        0 <= d < 10,
    ensures
        '0' <= digit_char(d) <= '9',
        (digit_char(d) as int) - ('0' as int) == d,
{
}

/// The numeral of `n` is made of digits, spells `n`, and starts with a
/// zero only when it is the single digit of zero.
pub proof fn lemma_decimal_spells(n: nat)
    ensures
        all_digits(decimal(n)),
        digits_value(decimal(n)) == n,
        decimal(n).len() >= 1,
        decimal(n)[0] == '0' ==> n == 0 && decimal(n).len() == 1,
    decreases n,
{
    if n < 10 {
        lemma_digit_char(n as int);
        assert(decimal(n) =~= seq![digit_char(n as int)]);
        assert(decimal(n).drop_last() =~= Seq::<char>::empty());
        assert(digits_value(Seq::<char>::empty()) == 0);
        assert(digits_value(decimal(n)) == 10 * digits_value(decimal(n).drop_last()) + ((
        decimal(n).last() as int) - ('0' as int)));
    } else {
        lemma_decimal_spells(n / 10);
        lemma_digit_char((n % 10) as int);
        let d = decimal(n);
        assert(d.drop_last() =~= decimal(n / 10));
        assert(d[0] == decimal(n / 10)[0]);
        assert(d.last() == digit_char((n % 10) as int));
        assert(digits_value(d) == 10 * digits_value(d.drop_last()) + ((d.last() as int) - (
        '0' as int)));
        assert(10 * (n / 10) + n % 10 == n);
        assert forall|i: int| 0 <= i < d.len() implies '0' <= #[trigger] d[i] <= '9' by {
            if i < d.len() - 1 {
                assert(d[i] == decimal(n / 10)[i]);
            }
        }
    }
}

proof fn lemma_digits_value_append(s: Seq<char>, a: char, b: char)
    ensures
        digits_value(s + seq![a, b]) == 100 * digits_value(s) + 10 * ((a as int) - ('0' as int))
            + ((b as int) - ('0' as int)),
{
    let t = s + seq![a, b];
    assert(t.drop_last() =~= s.push(a));
    assert(s.push(a).drop_last() =~= s);
    assert(t.last() == b);
    assert(s.push(a).last() == a);
    assert(digits_value(t) == 10 * digits_value(s.push(a)) + ((b as int) - ('0' as int)));
    assert(digits_value(s.push(a)) == 10 * digits_value(s) + ((a as int) - ('0' as int)));
}

/// A value shown with two decimal places reads as the nearest hundredth:
/// the sign shows when the value is negative; what follows it is the
/// magnitude's whole part, a point and two digits; and those digits, read
/// without the point, count hundredths no further than half a hundredth
/// from the magnitude.
pub proof fn lemma_two_places_reads_back(v: int, per: nat)
    requires
        per > 0,
    ensures
        ({
            let t = two_places_at(v, per);
            let m = if v < 0 {
                -v
            } else {
                v
            };
            let body = if v < 0 {
                t.drop_first()
            } else {
                t
            };
            &&& (v < 0 <==> t[0] == '-')
            &&& body.len() >= 4
            &&& body[body.len() - 3] == '.'
            &&& all_digits(body.take(body.len() - 3))
            &&& '0' <= body[body.len() - 2] <= '9'
            &&& '0' <= body[body.len() - 1] <= '9'
            &&& {
                let hundredths = digits_value(body.take(body.len() - 3) + body.skip(body.len() - 2));
                &&& 2 * (hundredths * per - m) <= per
                &&& 2 * (m - hundredths * per) <= per
            }
        }),
{
    let t = two_places_at(v, per);
    let m: nat = if v < 0 {
        (-v) as nat
    } else {
        v as nat
    };
    let h = round_hundredths(m, per);
    let whole = decimal(h / 100);
    let d1 = digit_char(((h % 100) / 10) as int);
    let d2 = digit_char((h % 10) as int);
    let body = whole + seq!['.', d1, d2];
    lemma_decimal_spells(h / 100);
    lemma_digit_char(((h % 100) / 10) as int);
    lemma_digit_char((h % 10) as int);
    if v < 0 {
        assert(t =~= seq!['-'] + body);
        assert(t.drop_first() =~= body);
    } else {
        assert(whole[0] != '-');
        assert(t[0] == whole[0]);
    }
    assert(body.take(body.len() - 3) =~= whole);
    assert(body.skip(body.len() - 2) =~= seq![d1, d2]);
    lemma_digits_value_append(whole, d1, d2);
    assert(100 * (h / 100) + 10 * ((h % 100) / 10) + (h % 10) == h) by (nonlinear_arith);
    let q = m / per;
    let r = m % per;
    assert(m == q * per + r) by (nonlinear_arith)
        requires
            q == m / per,
            r == m % per,
            per > 0,
    ;
    if h == q + 1 {
        assert(h * per - m == per - r) by (nonlinear_arith)
            requires
                h == q + 1,
                m == q * per + r,
        ;
    } else {
        assert(m - h * per == r) by (nonlinear_arith)
            requires
                h == q,
                m == q * per + r,
        ;
    }
}

/// Appends one character to a `String` (`String::push`).
#[verifier::external_body]
pub(crate) fn push_char(s: &mut String, c: char)
    ensures
        final(s)@ == old(s)@.push(c),
{
    s.push(c)
}

fn digit(d: u64) -> (c: char)
    requires
        d < 10,
    ensures
        c == digit_char(d as int),
{
    if d == 0 {
        '0'
    } else if d == 1 {
        '1'
    } else if d == 2 {
        '2'
    } else if d == 3 {
        '3'
    } else if d == 4 {
        '4'
    } else if d == 5 {
        '5'
    } else if d == 6 {
        '6'
    } else if d == 7 {
        '7'
    } else if d == 8 {
        '8'
    } else {
        '9'
    }
}

/// Appends the decimal numeral of `n`.
pub fn push_decimal(out: &mut String, n: u128)
    ensures
        final(out)@ == old(out)@ + decimal(n as nat),
    decreases n,
{
    if n >= 10 {
        push_decimal(out, n / 10);
    }
    push_char(out, digit((n % 10) as u64));
    proof {
        if n >= 10 {
            assert(decimal(n as nat) == decimal((n / 10) as nat).push(digit_char((n % 10) as int)));
        }
    }
    assert(final(out)@ =~= old(out)@ + decimal(n as nat)) by {
        if n < 10 {
            assert(decimal(n as nat) =~= seq![digit_char(n as int)]);
        }
    }
}

/// Appends a value counted in units of which `per` make one hundredth, with
/// two decimal places (`two_places_at`).
pub fn push_two_places_at(out: &mut String, v: i128, per: u128)
    requires
        per > 0,
    ensures
        final(out)@ == old(out)@ + two_places_at(v as int, per as nat),
{
    let m: u128 = if v < 0 {
        ((-(v + 1)) as u128) + 1
    } else {
        v as u128
    };
    assert(m as int == if v < 0 { -v } else { v as int });
    let q = m / per;
    let r = m % per;
    assert(r < per);
    let h: u128 = if r > per - r || (r == per - r && q % 2 == 1) {
        q + 1
    } else {
        q
    };
    assert(h == round_hundredths(m as nat, per as nat));
    let ghost start = out@;
    if v < 0 {
        push_char(out, '-');
    }
    let ghost signed = out@;
    push_decimal(out, h / 100);
    push_char(out, '.');
    push_char(out, digit(((h % 100) / 10) as u64));
    push_char(out, digit((h % 10) as u64));
    let ghost body = decimal((h / 100) as nat) + seq![
        '.',
        digit_char(((h % 100) / 10) as int),
        digit_char((h % 10) as int),
    ];
    assert(out@ =~= signed + body);
    if v < 0 {
        assert(signed =~= start + seq!['-']);
        assert(out@ =~= start + (seq!['-'] + body));
    } else {
        assert(out@ =~= start + body);
    }
}

/// Appends a fixed-point value (ten-thousandths) with two decimal places
/// (`two_places`).
pub fn push_two_places(out: &mut String, v: i64)
    ensures
        final(out)@ == old(out)@ + two_places(v as int),
{
    push_two_places_at(out, v as i128, 100);
}

/// Appends `text` padded with spaces to `width` characters (`pad_to`).
pub fn push_padded(out: &mut String, text: &str, width: usize)
    ensures
        final(out)@ == old(out)@ + pad_to(text@, width as nat),
{
    out.append(text);
    let n = text.unicode_len();
    let mut i: usize = n;
    while i < width
        invariant
            n == text@.len(),
            n <= i,
            i <= width || n >= width,
            n >= width ==> i == n,
            out@ == old(out)@ + text@ + Seq::new((i - n) as nat, |j: int| ' '),
        decreases width - i,
    {
        push_char(out, ' ');
        assert(Seq::new((i + 1 - n) as nat, |j: int| ' ') =~= Seq::new(
            (i - n) as nat,
            |j: int| ' ',
        ).push(' '));
        i = i + 1;
    }
    if n >= width {
        assert(Seq::new((i - n) as nat, |j: int| ' ') =~= Seq::<char>::empty());
        assert(out@ =~= old(out)@ + text@);
    } else {
        assert(out@ =~= old(out)@ + pad_to(text@, width as nat));
    }
}

} // verus!
