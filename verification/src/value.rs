//! Brightness expressions: the grammar over strings and the clamped
//! evaluation against a `(current, max)` pair.
use vstd::prelude::*;

use crate::error::Error;
use crate::text::{
    digits_val, is_signed_digits, is_u32_digits, parse_signed, parse_u32, signed_val,
};

verus! {

/// A parsed brightness expression.
#[derive(Clone, Copy, Debug, PartialEq, Eq, Structural)]
pub enum BrightnessValue {
    /// A raw hardware value, e.g. `50`.
    Absolute(u32),
    /// A percentage of the maximum, e.g. `50%`.
    Percent(u32),
    /// An offset from the current value, e.g. `+5` or `-5`.
    Relative(i32),
    /// An offset of a percentage of the maximum, e.g. `+10%` or `-10%`.
    RelativePercent(i32),
}

/// The brightness-expression grammar, first match wins:
/// a `%` suffix makes a percentage, relative when the rest is signed;
/// otherwise a sign makes a relative value; otherwise the text is an
/// absolute value. `None` when the numeral itself does not parse.
pub open spec fn parse_spec(s: Seq<char>) -> Option<BrightnessValue> {
    if s.len() > 0 && s.last() == '%' {
        let body = s.drop_last();
        if body.len() > 0 && (body[0] == '+' || body[0] == '-') {
            if is_signed_digits(body) {
                Some(BrightnessValue::RelativePercent(signed_val(body) as i32))
            } else {
                None
            }
        } else {
            if is_u32_digits(body) {
                Some(BrightnessValue::Percent(digits_val(body) as u32))
            } else {
                None
            }
        }
    } else if s.len() > 0 && (s[0] == '+' || s[0] == '-') {
        if is_signed_digits(s) {
            Some(BrightnessValue::Relative(signed_val(s) as i32))
        } else {
            None
        }
    } else {
        if is_u32_digits(s) {
            Some(BrightnessValue::Absolute(digits_val(s) as u32))
        } else {
            None
        }
    }
}

/// Saturating clamp of a computed target into the closed range
/// `[0, max]`.
pub open spec fn clamp(t: int, max: int) -> int {
    if t < 0 {
        0
    } else if t > max {
        max
    } else {
        t
    }
}

/// What evaluating an expression against `(current, max)` yields:
/// the computed target, clamped. Percentages round down.
pub open spec fn target_spec(v: BrightnessValue, current: u32, max: u32) -> int {
    match v {
        BrightnessValue::Absolute(a) => clamp(a as int, max as int),
        BrightnessValue::Percent(p) => clamp((p as int * max as int) / 100, max as int),
        BrightnessValue::Relative(d) => clamp(current as int + d as int, max as int),
        BrightnessValue::RelativePercent(d) => clamp(
            current as int + (d as int * max as int) / 100,
            max as int,
        ),
    }
}

/// What toggling yields: off when any brightness is set, full
/// brightness when none is.
pub open spec fn toggle_spec(current: u32, max: u32) -> u32 {
    if current == 0 {
        max
    } else {
        0
    }
}

/// The toggle target for a device currently at `current` out of `max`.
pub fn toggle(current: u32, max: u32) -> (r: u32)
    ensures
        r == toggle_spec(current, max),
        r <= max,
{
    if current == 0 {
        max
    } else {
        0
    }
}

/// Every evaluated target lies in the closed range `[0, max]`.
pub proof fn lemma_target_in_range(v: BrightnessValue, current: u32, max: u32)
    ensures
        0 <= target_spec(v, current, max) <= max,
{
}

/// A full percentage always yields `max`; a zero percentage always
/// yields `0`.
pub proof fn lemma_percent_endpoints(current: u32, max: u32)
    ensures
        target_spec(BrightnessValue::Percent(100), current, max) == max,
        target_spec(BrightnessValue::Percent(0), current, max) == 0,
{
    assert((100 * max as int) / 100 == max as int) by (nonlinear_arith);
    assert((0 * max as int) / 100 == 0) by (nonlinear_arith);
}

/// Toggling at full brightness turns the device off; toggling again
/// restores full brightness.
pub proof fn lemma_toggle_full_round_trip(max: u32)
    requires
        max > 0,
    ensures
        toggle_spec(max, max) == 0,
        toggle_spec(toggle_spec(max, max), max) == max,
{
}

impl BrightnessValue {
    /// Parses a brightness expression, per the grammar of `parse_spec`;
    /// text that is no expression is surfaced as invalid.
    pub fn parse(s: &str) -> (r: Result<BrightnessValue, Error>)
        ensures
            match parse_spec(s@) {
                Some(v) => r matches Ok(b) && b == v,
                None => r matches Err(e) && (e matches Error::InvalidValue(t) && t@ == s@),
            },
    {
        let n = s.unicode_len();
        if n > 0 && s.get_char(n - 1) == '%' {
            let body = s.substring_char(0, n - 1);
            proof {
                assert(body@ =~= s@.drop_last());
            }
            let bn = body.unicode_len();
            if bn > 0 && (body.get_char(0) == '+' || body.get_char(0) == '-') {
                match parse_signed(body) {
                    Ok(v) => Ok(BrightnessValue::RelativePercent(v)),
                    Err(_) => Err(Error::InvalidValue(s.to_owned())),
                }
            } else {
                match parse_u32(body) {
                    Ok(v) => Ok(BrightnessValue::Percent(v)),
                    Err(_) => Err(Error::InvalidValue(s.to_owned())),
                }
            }
        } else if n > 0 && (s.get_char(0) == '+' || s.get_char(0) == '-') {
            match parse_signed(s) {
                Ok(v) => Ok(BrightnessValue::Relative(v)),
                Err(_) => Err(Error::InvalidValue(s.to_owned())),
            }
        } else {
            match parse_u32(s) {
                Ok(v) => Ok(BrightnessValue::Absolute(v)),
                Err(_) => Err(Error::InvalidValue(s.to_owned())),
            }
        }
    }

    /// Evaluates the expression against the device's current and
    /// maximum brightness; the result is saturated into `[0, max]`.
    /// Saturation is deliberate on both ends: an offset that drives
    /// the target below zero yields `0` rather than an error, and one
    /// that drives it above the maximum yields `max`.
    pub fn calculate(&self, current: u32, max: u32) -> (r: u32)
        ensures
            r == target_spec(*self, current, max),
            r <= max,
    {
        match self {
            BrightnessValue::Absolute(a) => {
                if *a > max {
                    max
                } else {
                    *a
                }
            },
            BrightnessValue::Percent(p) => {
                proof {
                    assert((*p as u64) * (max as u64) <= u64::MAX) by (nonlinear_arith)
                        requires
                            *p <= u32::MAX,
                            max <= u32::MAX,
                    ;
                }
                let scaled: u64 = (*p as u64) * (max as u64) / 100;
                if scaled > max as u64 {
                    max
                } else {
                    scaled as u32
                }
            },
            BrightnessValue::Relative(d) => {
                let t: i64 = current as i64 + *d as i64;
                if t < 0 {
                    0
                } else if t > max as i64 {
                    max
                } else {
                    t as u32
                }
            },
            BrightnessValue::RelativePercent(d) => {
                let neg = *d < 0;
                let mag: u64 = if neg {
                    (-(*d as i64)) as u64
                } else {
                    *d as u64
                };
                proof {
                    assert(mag * (max as u64) <= 2147483648u64 * 0xFFFF_FFFFu64)
                        by (nonlinear_arith)
                        requires
                            mag <= 2147483648u64,
                            max <= 0xFFFF_FFFFu64,
                    ;
                }
                let prod: u64 = mag * (max as u64);
                let q: u64 = prod / 100;
                let rem: u64 = prod % 100;
                let ghost delta: int = (*d as int * max as int) / 100;
                proof {
                    assert(prod == mag * (max as u64));
                    if neg {
                        assert(*d as int * max as int == -(prod as int)) by (nonlinear_arith)
                            requires
                                mag == -(*d as int),
                                prod == (mag as int) * (max as int),
                        ;
                        if rem > 0 {
                            vstd::arithmetic::div_mod::lemma_fundamental_div_mod_converse(
                                -(prod as int),
                                100,
                                -(q as int) - 1,
                                100 - rem as int,
                            );
                        } else {
                            vstd::arithmetic::div_mod::lemma_fundamental_div_mod_converse(
                                -(prod as int),
                                100,
                                -(q as int),
                                0,
                            );
                        }
                    } else {
                        assert(*d as int * max as int == prod as int) by (nonlinear_arith)
                            requires
                                mag == *d as int,
                                prod == (mag as int) * (max as int),
                        ;
                    }
                }
                let t: i64 = if neg {
                    current as i64 - (q as i64) - (if rem > 0 { 1i64 } else { 0i64 })
                } else {
                    current as i64 + (q as i64)
                };
                proof {
                    assert(t == current as int + delta);
                }
                if t < 0 {
                    0
                } else if t > max as i64 {
                    max
                } else {
                    t as u32
                }
            },
        }
    }
}

} // verus!
