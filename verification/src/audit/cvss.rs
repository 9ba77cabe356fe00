//! CVSS base scores: how severe a score is.
//!
//! A score is held by the sixty-four bits of its IEEE 754 binary notation, beside the decimal
//! notation in which it is printed.

use super::Severity;
use crate::json::{json_content, normal, value_of_number, Json, JsonView, Number, NumberView};
use vstd::arithmetic::power2::{
    lemma_pow2_adds, lemma_pow2_pos, lemma_pow2_strictly_increases, pow2,
};
use vstd::prelude::*;

verus! {

/// A CVSS base score.
#[derive(Debug, Clone, PartialEq, Eq)]
pub struct Score {
    /// The bits of the binary notation.
    pub bits: u64,
    /// The decimal notation.
    pub notation: String,
}

/// What a [`Score`] holds.
#[verifier::ext_equal]
pub struct ScoreView {
    pub bits: u64,
    pub notation: Seq<char>,
}

impl DeepView for Score {
    type V = ScoreView;

    open spec fn deep_view(&self) -> ScoreView {
        ScoreView { bits: self.bits, notation: self.notation@ }
    }
}

/// The bits of what `serde_json::Value::as_f64` makes of a document, and the decimal notation
/// in which `serde_json::Number` prints that; nothing where it makes no finite number of it.
pub uninterp spec fn float_reading(json: JsonView) -> Option<(u64, Seq<char>)>;

/// Calls `serde_json::Value::as_f64`, and prints the outcome with `serde_json::Number`. Both
/// depend on the document alone.
#[verifier::external_body]
fn float_of(value: &serde_json::Value) -> (r: Option<(u64, String)>)
    ensures
        r.deep_view() == float_reading(json_content(*value)),
{
    let number = value.as_f64()?;
    Some((number.to_bits(), serde_json::Number::from_f64(number)?.to_string()))
}

/// The score that a number is.
pub open spec fn score_of_number(number: NumberView) -> Option<ScoreView> {
    match float_reading(normal(JsonView::Number(number))) {
        Some((bits, notation)) => Some(ScoreView { bits, notation }),
        None => None,
    }
}

/// The score that a document is, where it is a number.
pub open spec fn score_in(json: JsonView) -> Option<ScoreView> {
    match json {
        JsonView::Number(n) => score_of_number(n),
        _ => None,
    }
}

impl Score {
    /// The score that a document is, where it is a number.
    pub fn from_json(json: &Json) -> (r: Option<Score>)
        ensures
            r.deep_view() == score_in(json.deep_view()),
    {
        match json {
            Json::Number(n) => match float_of(&value_of_number(n)) {
                Some((bits, notation)) => Some(Score { bits, notation }),
                None => None,
            },
            _ => None,
        }
    }

    /// The same score again.
    pub fn copy(&self) -> (r: Score)
        ensures
            r.deep_view() == self.deep_view(),
    {
        Score { bits: self.bits, notation: self.notation.clone() }
    }
}

/// The exponent field of a binary notation.
pub open spec fn exponent(bits: u64) -> nat {
    ((bits as nat) / 0x10_0000_0000_0000) % 2048
}

/// The fraction field of a binary notation.
pub open spec fn fraction(bits: u64) -> nat {
    (bits as nat) % 0x10_0000_0000_0000
}

/// Whether the sign bit is set.
pub open spec fn is_negative(bits: u64) -> bool {
    bits >= 0x8000_0000_0000_0000
}

/// Whether the notation is of no number.
pub open spec fn is_nan(bits: u64) -> bool {
    exponent(bits) == 2047 && fraction(bits) != 0
}

/// The magnitude of a number, in units of the smallest one, which is two to the power of
/// minus one thousand and seventy-four. Infinity counts as what would come next.
pub open spec fn magnitude(bits: u64) -> nat {
    if exponent(bits) == 0 {
        fraction(bits)
    } else {
        (0x10_0000_0000_0000 + fraction(bits)) * pow2((exponent(bits) - 1) as nat)
    }
}

/// The number `n` in units of the smallest one.
pub open spec fn units(n: nat) -> nat {
    n * pow2(1074)
}

/// The severity of a score, by the ranges of CVSS version 3: none at zero and below, low
/// below four, moderate below seven, high below nine, and critical from there on. What is no
/// number is in no range and counts as critical.
pub open spec fn cvss_severity(bits: u64) -> Option<Severity> {
    if is_nan(bits) {
        Some(Severity::Critical)
    } else if is_negative(bits) || magnitude(bits) == 0 {
        None
    } else if magnitude(bits) < units(4) {
        Some(Severity::Low)
    } else if magnitude(bits) < units(7) {
        Some(Severity::Moderate)
    } else if magnitude(bits) < units(9) {
        Some(Severity::High)
    } else {
        Some(Severity::Critical)
    }
}

/// The order of the magnitudes is the order of the notations.
proof fn lemma_magnitude_grows(a: u64, b: u64)
    requires
        a < b < 0x8000_0000_0000_0000,
    ensures
        magnitude(a) < magnitude(b),
{
    let one: nat = 0x10_0000_0000_0000;
    let (ea, fa) = (exponent(a), fraction(a));
    let (eb, fb) = (exponent(b), fraction(b));
    assert(a == ea * one + fa && fa < one) by {
        assert((a as nat) / one < 2048);
    }
    assert(b == eb * one + fb && fb < one) by {
        assert((b as nat) / one < 2048);
    }
    assert(ea <= eb);
    if ea == eb {
        assert(fa < fb);
        if ea > 0 {
            let p = pow2((ea - 1) as nat);
            lemma_pow2_pos((ea - 1) as nat);
            assert((one + fa) * p < (one + fb) * p) by (nonlinear_arith)
                requires
                    fa < fb,
                    p > 0,
            ;
        }
    } else {
        let p = pow2((eb - 1) as nat);
        lemma_pow2_pos((eb - 1) as nat);
        assert(magnitude(b) >= one * p) by (nonlinear_arith)
            requires
                magnitude(b) == (one + fb) * p,
        ;
        if ea == 0 {
            assert(one * p >= one) by (nonlinear_arith)
                requires
                    p >= 1,
            ;
        } else {
            let q = pow2((ea - 1) as nat);
            lemma_pow2_pos((ea - 1) as nat);
            lemma_pow2_adds(1, (ea - 1) as nat);
            assert(pow2(1) == 2) by {
                vstd::arithmetic::power2::lemma2_to64();
            }
            assert(pow2(ea) == 2 * q);
            if ea < eb - 1 {
                lemma_pow2_strictly_increases(ea, (eb - 1) as nat);
            }
            assert(p >= 2 * q);
            assert((one + fa) * q < one * p) by (nonlinear_arith)
                requires
                    fa < one,
                    q > 0,
                    p >= 2 * q,
            ;
        }
    }
}

/// The magnitudes of the bounds between the ranges.
proof fn lemma_bounds()
    ensures
        magnitude(0) == 0,
        magnitude(0x4010_0000_0000_0000) == units(4),
        magnitude(0x401c_0000_0000_0000) == units(7),
        magnitude(0x4022_0000_0000_0000) == units(9),
{
    lemma_pow2_adds(50, 1024);
    lemma_pow2_adds(49, 1025);
    vstd::arithmetic::power2::lemma2_to64_rest();
    assert(pow2(50) == 0x4_0000_0000_0000);
    assert(pow2(49) == 0x2_0000_0000_0000);
    let a = pow2(1024);
    let b = pow2(1025);
    assert(magnitude(0x4010_0000_0000_0000) == 0x10_0000_0000_0000 * a);
    assert(magnitude(0x401c_0000_0000_0000) == 0x1c_0000_0000_0000 * a);
    assert(magnitude(0x4022_0000_0000_0000) == 0x12_0000_0000_0000 * b);
    assert(pow2(1074) == 0x4_0000_0000_0000 * a);
    assert(pow2(1074) == 0x2_0000_0000_0000 * b);
}

/// The severity of the score with these bits.
pub fn severity_from_cvss(bits: u64) -> (r: Option<Severity>)
    ensures
        r == cvss_severity(bits),
{
    let exponent_field: u64 = (bits / 0x10_0000_0000_0000) % 2048;
    let fraction_field: u64 = bits % 0x10_0000_0000_0000;
    if exponent_field == 2047 && fraction_field != 0 {
        return Some(Severity::Critical);
    }
    if bits >= 0x8000_0000_0000_0000 {
        return None;
    }
    proof {
        lemma_bounds();
        if bits > 0 {
            lemma_magnitude_grows(0, bits);
        }
        if bits < 0x4010_0000_0000_0000 {
            lemma_magnitude_grows(bits, 0x4010_0000_0000_0000);
        }
        if bits > 0x4010_0000_0000_0000 {
            lemma_magnitude_grows(0x4010_0000_0000_0000, bits);
        }
        if bits < 0x401c_0000_0000_0000 {
            lemma_magnitude_grows(bits, 0x401c_0000_0000_0000);
        }
        if bits > 0x401c_0000_0000_0000 {
            lemma_magnitude_grows(0x401c_0000_0000_0000, bits);
        }
        if bits < 0x4022_0000_0000_0000 {
            lemma_magnitude_grows(bits, 0x4022_0000_0000_0000);
        }
        if bits > 0x4022_0000_0000_0000 {
            lemma_magnitude_grows(0x4022_0000_0000_0000, bits);
        }
    }
    if bits == 0 {
        None
    } else if bits < 0x4010_0000_0000_0000 {
        Some(Severity::Low)
    } else if bits < 0x401c_0000_0000_0000 {
        Some(Severity::Moderate)
    } else if bits < 0x4022_0000_0000_0000 {
        Some(Severity::High)
    } else {
        Some(Severity::Critical)
    }
}

} // verus!
