//! Physical quantities: lengths in millimetres, held as whole millionths of a
//! millimetre.
//!
//! A quantity is written as a signed decimal literal without a unit: an
//! optional sign, one digit or more, and optionally a point followed by one to
//! six digits. It is rendered with as few fraction digits as give the same
//! value back, and without a point where it is a whole number of millimetres.
//! An exponent, or a seventh fraction digit, is not accepted.

use vstd::prelude::*;
use vstd::slice::slice_subrange;
use crate::decimal::{
    all_digits, decimal_text, decimal_value, digit_byte, is_decimal, is_digit, lemma_decimal_text,
    parse_decimal, write_decimal, ZERO,
};
use crate::text::append_bytes;

verus! {

pub const MINUS: u8 = 0x2d;

pub const PLUS: u8 = 0x2b;

pub const POINT: u8 = 0x2e;

/// How many units of a quantity make one millimetre.
pub const SCALE: u64 = 1000000;

/// A length: `nanos` millionths of a millimetre.
#[derive(Clone, Copy, Debug, Default, PartialEq, Eq, PartialOrd, Ord, Hash, Structural)]
pub struct Quantity {
    pub nanos: i64,
}

/// Ten to the power `k`.
pub open spec fn pow10(k: nat) -> nat
    decreases k,
{
    if k == 0 {
        1
    } else {
        10 * pow10((k - 1) as nat)
    }
}

/// Whether a literal starts with a sign.
pub open spec fn has_sign(text: Seq<u8>) -> bool {
    text.len() > 0 && (text[0] == MINUS || text[0] == PLUS)
}

/// A literal without its sign.
pub open spec fn unsigned_part(text: Seq<u8>) -> Seq<u8> {
    if has_sign(text) {
        text.subrange(1, text.len() as int)
    } else {
        text
    }
}

/// The place of the first point at or after `i`, or the length where there is
/// none.
pub open spec fn point_index(body: Seq<u8>, i: int) -> int
    decreases body.len() - i,
{
    if i < 0 || i >= body.len() || body[i] == POINT {
        i
    } else {
        point_index(body, i + 1)
    }
}

/// What stands before the point.
pub open spec fn whole_digits(body: Seq<u8>) -> Seq<u8> {
    body.subrange(0, point_index(body, 0))
}

/// What stands after the point; nothing where there is no point.
pub open spec fn fraction_digits(body: Seq<u8>) -> Seq<u8> {
    let p = point_index(body, 0);
    if 0 <= p < body.len() {
        body.subrange(p + 1, body.len() as int)
    } else {
        Seq::empty()
    }
}

/// A run of bytes followed by `n` zeros.
pub open spec fn pad_zeros(t: Seq<u8>, n: nat) -> Seq<u8> {
    t + Seq::new(n, |i: int| ZERO)
}

/// Whether an unsigned literal fits the grammar of a quantity.
pub open spec fn is_quantity_body(body: Seq<u8>) -> bool {
    let frac = fraction_digits(body);
    &&& is_decimal(whole_digits(body))
    &&& (point_index(body, 0) == body.len() || (1 <= frac.len() <= 6 && all_digits(frac)))
}

/// How many millionths an unsigned literal writes.
pub open spec fn body_value(body: Seq<u8>) -> nat {
    let frac = fraction_digits(body);
    decimal_value(whole_digits(body)) * 1000000 + decimal_value(
        pad_zeros(frac, (6 - frac.len()) as nat),
    )
}

/// How many millionths a literal writes, where it fits the grammar.
pub open spec fn quantity_value(text: Seq<u8>) -> Option<int> {
    let body = unsigned_part(text);
    if is_quantity_body(body) {
        if has_sign(text) && text[0] == MINUS {
            Some(-(body_value(body) as int))
        } else {
            Some(body_value(body) as int)
        }
    } else {
        None
    }
}

/// The quantity that a literal writes, where it fits the grammar and 64 bits.
pub open spec fn decode_quantity_spec(text: Seq<u8>) -> Option<Quantity> {
    match quantity_value(text) {
        Some(v) => if i64::MIN <= v <= i64::MAX {
            Some(Quantity { nanos: v as i64 })
        } else {
            None
        },
        None => None,
    }
}

/// The last `width` digits of a number, with zeros in front where it has
/// fewer.
pub open spec fn padded(n: nat, width: nat) -> Seq<u8>
    decreases width,
{
    if width == 0 {
        Seq::empty()
    } else {
        padded(n / 10, (width - 1) as nat).push(digit_byte(n % 10))
    }
}

/// The six digits that write a number below a million.
pub open spec fn six_digits(f: nat) -> Seq<u8> {
    padded(f, 6)
}

/// A run of digits without the zeros at its end.
pub open spec fn strip_zeros(t: Seq<u8>) -> Seq<u8>
    decreases t.len(),
{
    if t.len() > 0 && t.last() == ZERO {
        strip_zeros(t.drop_last())
    } else {
        t
    }
}

/// The literal of a number of millionths.
pub open spec fn quantity_text(v: int) -> Seq<u8> {
    let mag = (if v < 0 {
        -v
    } else {
        v
    }) as nat;
    let sign = if v < 0 {
        seq![MINUS]
    } else {
        Seq::empty()
    };
    let fraction = if mag % 1000000 == 0 {
        Seq::empty()
    } else {
        seq![POINT] + strip_zeros(six_digits(mag % 1000000))
    };
    sign + decimal_text(mag / 1000000) + fraction
}

/// Zeros at the end multiply by ten each.
pub proof fn lemma_pad_zeros_value(t: Seq<u8>, n: nat)
    ensures
        decimal_value(pad_zeros(t, n)) == decimal_value(t) * pow10(n),
    decreases n,
{
    let a = decimal_value(t);
    if n == 0 {
        assert(pad_zeros(t, n) =~= t);
        assert(a * 1 == a) by (nonlinear_arith);
    } else {
        lemma_pad_zeros_value(t, (n - 1) as nat);
        let p = pad_zeros(t, n);
        assert(p.drop_last() =~= pad_zeros(t, (n - 1) as nat));
        assert(p.last() == ZERO);
        let b = pow10((n - 1) as nat);
        assert(decimal_value(p) == a * b * 10);
        assert(pow10(n) == 10 * b);
        assert(a * b * 10 == a * (10 * b)) by (nonlinear_arith);
    }
}

/// A run of `k` digits writes a number below ten to the `k`.
pub proof fn lemma_digits_bound(t: Seq<u8>)
    requires
        all_digits(t),
    ensures
        decimal_value(t) < pow10(t.len()),
    decreases t.len(),
{
    if t.len() > 0 {
        assert(all_digits(t.drop_last()));
        lemma_digits_bound(t.drop_last());
        assert(is_digit(t[t.len() - 1]));
    }
}

/// The first point is at `k` where no byte from `i` up to `k` is a point and
/// the body ends at `k` or holds a point there.
pub proof fn lemma_point_index(body: Seq<u8>, i: int, k: int)
    requires
        0 <= i <= k <= body.len(),
        forall|j: int| i <= j < k ==> #[trigger] body[j] != POINT,
        k == body.len() || body[k] == POINT,
    ensures
        point_index(body, i) == k,
    decreases k - i,
{
    if i < k {
        lemma_point_index(body, i + 1, k);
    }
}

/// The first point lies within the body, at or after the place from which
/// it is sought, and no byte before it is a point.
pub proof fn lemma_point_index_place(body: Seq<u8>, i: int)
    requires
        0 <= i <= body.len(),
    ensures
        i <= point_index(body, i) <= body.len(),
        forall|k: int| i <= k < point_index(body, i) ==> #[trigger] body[k] != POINT,
        point_index(body, i) < body.len() ==> body[point_index(body, i)] == POINT,
    decreases body.len() - i,
{
    if i < body.len() && body[i] != POINT {
        lemma_point_index_place(body, i + 1);
    }
}

/// The digits of a number that fits their width write that number.
pub proof fn lemma_padded(n: nat, width: nat)
    requires
        n < pow10(width),
    ensures
        padded(n, width).len() == width,
        all_digits(padded(n, width)),
        decimal_value(padded(n, width)) == n,
    decreases width,
{
    if width > 0 {
        lemma_padded(n / 10, (width - 1) as nat);
        let p = padded(n, width);
        assert(p.drop_last() =~= padded(n / 10, (width - 1) as nat));
        assert(is_digit(p.last()));
        assert forall|i: int| 0 <= i < p.len() implies is_digit(#[trigger] p[i]) by {
            if i < p.len() - 1 {
                assert(p[i] == p.drop_last()[i]);
            }
        }
    }
}

/// The six digits of a number below a million write that number.
pub proof fn lemma_six_digits(f: nat)
    requires
        f < 1000000,
    ensures
        six_digits(f).len() == 6,
        all_digits(six_digits(f)),
        decimal_value(six_digits(f)) == f,
{
    assert(pow10(6) == 1000000) by {
        reveal_with_fuel(pow10, 7);
    }
    lemma_padded(f, 6);
}

/// Stripping the zeros at the end of a run of digits leaves digits, takes
/// away nothing but zeros, and leaves something unless the run wrote zero.
pub proof fn lemma_strip_zeros(t: Seq<u8>)
    requires
        all_digits(t),
    ensures
        all_digits(strip_zeros(t)),
        strip_zeros(t).len() <= t.len(),
        pad_zeros(strip_zeros(t), (t.len() - strip_zeros(t).len()) as nat) == t,
        strip_zeros(t).len() == 0 ==> decimal_value(t) == 0,
    decreases t.len(),
{
    if t.len() > 0 && t.last() == ZERO {
        let shorter = t.drop_last();
        assert(all_digits(shorter));
        lemma_strip_zeros(shorter);
        let s = strip_zeros(t);
        assert(pad_zeros(s, (t.len() - s.len()) as nat) =~= pad_zeros(
            s,
            (shorter.len() - s.len()) as nat,
        ).push(ZERO));
        assert(t =~= shorter.push(ZERO));
    } else {
        assert(pad_zeros(t, 0) =~= t);
    }
}

/// The literal of a quantity reads back as that quantity.
pub proof fn lemma_quantity_round_trip(q: Quantity)
    ensures
        decode_quantity_spec(quantity_text(q.nanos as int)) == Some(q),
{
    let v = q.nanos as int;
    let mag = (if v < 0 {
        -v
    } else {
        v
    }) as nat;
    let whole = decimal_text(mag / 1000000);
    let f = mag % 1000000;
    let stripped = strip_zeros(six_digits(f));
    let fraction = if f == 0 {
        Seq::<u8>::empty()
    } else {
        seq![POINT] + stripped
    };
    let text = quantity_text(v);
    lemma_decimal_text(mag / 1000000);
    lemma_six_digits(f);
    lemma_strip_zeros(six_digits(f));
    assert(is_digit(whole[0]));
    let body = unsigned_part(text);
    assert(body =~= whole + fraction);
    assert forall|j: int| 0 <= j < whole.len() implies #[trigger] body[j] != POINT by {
        assert(is_digit(whole[j]));
    }
    lemma_point_index(body, 0, whole.len() as int);
    assert(whole_digits(body) =~= whole);
    if f == 0 {
        assert(fraction_digits(body) =~= Seq::<u8>::empty());
        lemma_pad_zeros_value(Seq::<u8>::empty(), 6);
        assert(decimal_value(Seq::<u8>::empty()) == 0);
        assert(0 * pow10(6) == 0);
    } else {
        assert(fraction_digits(body) =~= stripped);
    }
    assert(body_value(body) == mag);
}

/// Ten to the power of the number of digits that a fraction lacks to six.
fn fraction_scale(len: usize) -> (s: u64)
    requires
        1 <= len <= 6,
    ensures
        s == pow10((6 - len) as nat),
        s <= 100000,
{
    proof {
        reveal_with_fuel(pow10, 7);
    }
    if len == 1 {
        100000
    } else if len == 2 {
        10000
    } else if len == 3 {
        1000
    } else if len == 4 {
        100
    } else if len == 5 {
        10
    } else {
        1
    }
}

/// Reads the literal of a quantity.
///
/// Gives the quantity exactly where the text is an optional sign, a numeral,
/// and optionally a point with one to six digits, and the value fits 64 bits.
pub fn decode_quantity(text: &[u8]) -> (r: Option<Quantity>)
    ensures
        r == decode_quantity_spec(text@),
{
    let n: usize = text.len();
    let signed: bool = n > 0 && (text[0] == MINUS || text[0] == PLUS);
    let negative: bool = n > 0 && text[0] == MINUS;
    let start: usize = if signed {
        1
    } else {
        0
    };
    let body = slice_subrange(text, start, n);
    assert(body@ =~= unsigned_part(text@));
    let mut p: usize = 0;
    while p < body.len() && body[p] != POINT
        invariant
            p <= body@.len(),
            point_index(body@, 0) == point_index(body@, p as int),
        decreases body@.len() - p,
    {
        p += 1;
    }
    let ghost frac = fraction_digits(body@);
    let ghost padded = pad_zeros(frac, (6 - frac.len()) as nat);
    let whole: u64 = match parse_decimal(slice_subrange(body, 0, p)) {
        Some(w) => w,
        None => {
            return None;
        },
    };
    let scaled: u64 = if p == body.len() {
        proof {
            lemma_pad_zeros_value(frac, 6);
            assert(frac.len() == 0);
            assert(decimal_value(frac) * pow10(6) == 0) by (nonlinear_arith)
                requires
                    decimal_value(frac) == 0,
            ;
        }
        0
    } else {
        let digits = slice_subrange(body, p + 1, body.len());
        if digits.len() == 0 || digits.len() > 6 {
            return None;
        }
        proof {
            if all_digits(frac) {
                lemma_digits_bound(frac);
                reveal_with_fuel(pow10, 7);
            }
        }
        let f: u64 = match parse_decimal(digits) {
            Some(f) => f,
            None => {
                return None;
            },
        };
        let scale: u64 = fraction_scale(digits.len());
        proof {
            lemma_digits_bound(frac);
            reveal_with_fuel(pow10, 7);
            lemma_pad_zeros_value(frac, (6 - frac.len()) as nat);
            assert(f * scale <= 1000000 * 100000) by (nonlinear_arith)
                requires
                    f <= 1000000,
                    scale <= 100000,
            ;
        }
        f * scale
    };
    assert(scaled == decimal_value(padded));
    if whole > (u64::MAX - scaled) / SCALE {
        return None;
    }
    let mag: u64 = whole * SCALE + scaled;
    assert(mag == body_value(body@));
    if negative {
        if mag > 9223372036854775808 {
            None
        } else if mag == 9223372036854775808 {
            Some(Quantity { nanos: i64::MIN })
        } else {
            Some(Quantity { nanos: -(mag as i64) })
        }
    } else {
        if mag > 9223372036854775807 {
            None
        } else {
            Some(Quantity { nanos: mag as i64 })
        }
    }
}

/// Appends the last `width` digits of a number, with zeros in front where
/// it has fewer.
fn write_padded(out: &mut Vec<u8>, n: u64, width: usize)
    ensures
        final(out)@ == old(out)@ + padded(n as nat, width as nat),
    decreases width,
{
    if width > 0 {
        write_padded(out, n / 10, width - 1);
        out.push(0x30 + (n % 10) as u8);
    }
    assert(out@ =~= old(out)@ + padded(n as nat, width as nat));
}

/// Appends the literal of a quantity.
pub fn write_quantity(out: &mut Vec<u8>, q: Quantity)
    ensures
        final(out)@ == old(out)@ + quantity_text(q.nanos as int),
{
    let mag: u64 = if q.nanos >= 0 {
        q.nanos as u64
    } else {
        (-(q.nanos + 1)) as u64 + 1
    };
    if q.nanos < 0 {
        out.push(MINUS);
    }
    write_decimal(out, mag / SCALE);
    let f: u64 = mag % SCALE;
    if f != 0 {
        out.push(POINT);
        let mut six: Vec<u8> = Vec::new();
        write_padded(&mut six, f, 6);
        assert(six@ =~= six_digits(f as nat));
        proof {
            lemma_six_digits(f as nat);
        }
        let mut keep: usize = 6;
        assert(six@.subrange(0, 6) =~= six@);
        while keep > 0 && six[keep - 1] == ZERO
            invariant
                keep <= 6,
                six@.len() == 6,
                strip_zeros(six@) == strip_zeros(six@.subrange(0, keep as int)),
            decreases keep,
        {
            assert(six@.subrange(0, keep as int).drop_last() =~= six@.subrange(0, keep - 1));
            keep -= 1;
        }
        append_bytes(out, slice_subrange(six.as_slice(), 0, keep));
    }
    assert(out@ =~= old(out)@ + quantity_text(q.nanos as int));
}

/// The literal of a quantity.
pub fn encode_quantity(q: Quantity) -> (text: Vec<u8>)
    ensures
        text@ == quantity_text(q.nanos as int),
{
    let mut out: Vec<u8> = Vec::new();
    write_quantity(&mut out, q);
    assert(Seq::<u8>::empty() + quantity_text(q.nanos as int) =~= quantity_text(q.nanos as int));
    out
}

impl Quantity {
    /// A whole number of millimetres. `None` where it does not fit.
    pub fn from_millimetres(mm: i64) -> (q: Option<Quantity>)
        ensures
            q is Some <==> i64::MIN <= mm * 1000000 <= i64::MAX,
            q matches Some(x) ==> x.nanos == mm * 1000000,
    {
        match mm.checked_mul(1000000) {
            Some(n) => Some(Quantity { nanos: n }),
            None => None,
        }
    }

    /// Whether this length is shorter than `other`.
    pub fn shorter_than(&self, other: &Quantity) -> (r: bool)
        ensures
            r == (self.nanos < other.nanos),
    {
        self.nanos < other.nanos
    }
}

} // verus!
