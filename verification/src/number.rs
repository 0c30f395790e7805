//! The lexical shape of a number: an optional sign, digits with at most one
//! decimal point among them, and optionally an exponent.
//!
//! This is a rule on the text of a bare atom alone. What a number means is
//! for the scalar that reads it to say; a quantity accepts only some of them.

use vstd::prelude::*;
use vstd::slice::slice_subrange;
use crate::decimal::{all_digits, is_decimal, is_digit};
use crate::quantity::{
    decode_quantity_spec, fraction_digits, point_index, unsigned_part, whole_digits, MINUS, PLUS,
    POINT,
};

verus! {

pub const LOWER_E: u8 = 0x65;

pub const UPPER_E: u8 = 0x45;

/// The letter that starts an exponent.
pub open spec fn is_exponent_mark(b: u8) -> bool {
    b == LOWER_E || b == UPPER_E
}

/// The place of the first exponent mark at or after `i`, or the length where
/// there is none.
pub open spec fn exponent_index(body: Seq<u8>, i: int) -> int
    decreases body.len() - i,
{
    if i < 0 || i >= body.len() || is_exponent_mark(body[i]) {
        i
    } else {
        exponent_index(body, i + 1)
    }
}

/// Digits with at most one decimal point among them, and at least one digit.
pub open spec fn is_mantissa(m: Seq<u8>) -> bool {
    &&& all_digits(whole_digits(m))
    &&& all_digits(fraction_digits(m))
    &&& whole_digits(m).len() + fraction_digits(m).len() >= 1
}

/// A numeral with an optional sign.
pub open spec fn is_exponent(x: Seq<u8>) -> bool {
    is_decimal(unsigned_part(x))
}

/// Whether a text has the shape of a number.
pub open spec fn is_number(text: Seq<u8>) -> bool {
    let body = unsigned_part(text);
    let e = exponent_index(body, 0);
    &&& is_mantissa(body.subrange(0, e))
    &&& (e == body.len() || is_exponent(body.subrange(e + 1, body.len() as int)))
}

/// The first exponent mark lies within the body.
pub proof fn lemma_exponent_index(body: Seq<u8>, i: int)
    requires
        0 <= i <= body.len(),
    ensures
        i <= exponent_index(body, i) <= body.len(),
    decreases body.len() - i,
{
    if i < body.len() && !is_exponent_mark(body[i]) {
        lemma_exponent_index(body, i + 1);
    }
}

/// There is no exponent mark where every byte is a digit or a point.
proof fn lemma_no_exponent(body: Seq<u8>, i: int)
    requires
        0 <= i <= body.len(),
        forall|k: int| i <= k < body.len() ==> is_digit(#[trigger] body[k]) || body[k] == POINT,
    ensures
        exponent_index(body, i) == body.len(),
    decreases body.len() - i,
{
    if i < body.len() {
        assert(is_digit(body[i]) || body[i] == POINT);
        lemma_no_exponent(body, i + 1);
    }
}

/// Every literal that a quantity accepts has the shape of a number.
pub proof fn lemma_quantity_is_number(text: Seq<u8>)
    requires
        decode_quantity_spec(text) is Some,
    ensures
        is_number(text),
{
    let body = unsigned_part(text);
    let p = point_index(body, 0);
    crate::quantity::lemma_point_index_place(body, 0);
    let whole = whole_digits(body);
    let frac = fraction_digits(body);
    assert forall|k: int| 0 <= k < body.len() implies is_digit(#[trigger] body[k]) || body[k]
        == POINT by {
        if k < p {
            assert(whole[k] == body[k]);
            assert(is_digit(whole[k]));
        } else if k > p {
            assert(frac[k - p - 1] == body[k]);
            assert(is_digit(frac[k - p - 1]));
        }
    }
    lemma_no_exponent(body, 0);
    assert(body.subrange(0, body.len() as int) =~= body);
}

/// Whether every byte is a digit.
pub fn digits_only(text: &[u8]) -> (r: bool)
    ensures
        r == all_digits(text@),
{
    let mut i: usize = 0;
    while i < text.len()
        invariant
            i <= text@.len(),
            forall|k: int| 0 <= k < i ==> is_digit(#[trigger] text@[k]),
        decreases text@.len() - i,
    {
        if text[i] < 0x30 || text[i] > 0x39 {
            assert(!is_digit(text@[i as int]));
            return false;
        }
        i += 1;
    }
    true
}

/// A text without the sign that it may start with.
fn without_sign(text: &[u8]) -> (body: &[u8])
    ensures
        body@ == unsigned_part(text@),
{
    if text.len() > 0 && (text[0] == MINUS || text[0] == PLUS) {
        slice_subrange(text, 1, text.len())
    } else {
        text
    }
}

/// Whether a text is digits with at most one point among them, and at least
/// one digit.
fn mantissa(m: &[u8]) -> (r: bool)
    ensures
        r == is_mantissa(m@),
{
    let mut p: usize = 0;
    while p < m.len() && m[p] != POINT
        invariant
            p <= m@.len(),
            point_index(m@, 0) == point_index(m@, p as int),
        decreases m@.len() - p,
    {
        p += 1;
    }
    let whole = slice_subrange(m, 0, p);
    if !digits_only(whole) {
        return false;
    }
    if p == m.len() {
        return p >= 1;
    }
    let frac = slice_subrange(m, p + 1, m.len());
    digits_only(frac) && p + frac.len() >= 1
}

/// Whether a text has the shape of a number: an optional sign, digits with
/// at most one decimal point among them, and optionally an exponent mark
/// followed by a numeral with an optional sign.
pub fn looks_like_number(text: &[u8]) -> (r: bool)
    ensures
        r == is_number(text@),
{
    let body = without_sign(text);
    let mut e: usize = 0;
    while e < body.len() && body[e] != LOWER_E && body[e] != UPPER_E
        invariant
            e <= body@.len(),
            exponent_index(body@, 0) == exponent_index(body@, e as int),
        decreases body@.len() - e,
    {
        e += 1;
    }
    if !mantissa(slice_subrange(body, 0, e)) {
        return false;
    }
    if e == body.len() {
        return true;
    }
    let exponent = without_sign(slice_subrange(body, e + 1, body.len()));
    exponent.len() > 0 && digits_only(exponent)
}

} // verus!
