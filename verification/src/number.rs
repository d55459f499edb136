//! JSON numbers and the double-precision arithmetic they are combined with.
//!
//! A [`Number`] is an unsigned integer, a negative integer or a double. A
//! double is held as its IEEE-754 bit pattern, so that everything this crate
//! decides about a number (is it zero, is it finite, are two numbers equal) is
//! integer logic. The five arithmetic operations on doubles are not computed
//! here: every function that needs them takes the caller's floating-point
//! unit, a function from an operation and two bit patterns to the bit pattern
//! of the result, and its contract speaks of what that unit returns.

use vstd::prelude::*;

verus! {

/// A JSON number.
#[derive(Clone, Copy, Debug)]
pub enum Number {
    /// An integer that is zero or more.
    PosInt(u64),
    /// An integer below zero.
    NegInt(i64),
    /// A finite double, as its IEEE-754 bit pattern.
    Float(u64),
}

/// The binary operations of double-precision arithmetic.
#[derive(Clone, Copy, Debug, PartialEq, Eq, Structural)]
pub enum Arithmetic {
    Add,
    Subtract,
    Multiply,
    Divide,
    Remainder,
}

/// The bits of a double without its sign, which is the highest bit.
pub open spec fn magnitude(bits: u64) -> u64 {
    if bits >= 0x8000_0000_0000_0000 {
        (bits - 0x8000_0000_0000_0000) as u64
    } else {
        bits
    }
}

/// The bits of a double without its sign.
pub fn magnitude_of(bits: u64) -> (r: u64)
    ensures
        r == magnitude(bits),
{
    if bits >= 0x8000_0000_0000_0000 {
        bits - 0x8000_0000_0000_0000
    } else {
        bits
    }
}

/// Whether the bit pattern is `+0.0` or `-0.0`.
pub open spec fn is_zero_bits(bits: u64) -> bool {
    magnitude(bits) == 0
}

/// Whether the bit pattern is a double other than an infinity or a NaN.
pub open spec fn is_finite_bits(bits: u64) -> bool {
    magnitude(bits) < 0x7ff0_0000_0000_0000
}

/// Whether the bit pattern is a NaN.
pub open spec fn is_nan_bits(bits: u64) -> bool {
    magnitude(bits) > 0x7ff0_0000_0000_0000
}

/// IEEE-754 equality of two doubles given as bit patterns: a NaN equals
/// nothing, the two zeros equal each other, and any other double equals only
/// itself.
pub open spec fn double_eq(a: u64, b: u64) -> bool {
    &&& !is_nan_bits(a)
    &&& !is_nan_bits(b)
    &&& (a == b || (is_zero_bits(a) && is_zero_bits(b)))
}

/// Whether the bit pattern is `+0.0` or `-0.0`.
pub fn bits_are_zero(bits: u64) -> (r: bool)
    ensures
        r == is_zero_bits(bits),
{
    magnitude_of(bits) == 0
}

/// Whether the bit pattern is a double other than an infinity or a NaN.
pub fn bits_are_finite(bits: u64) -> (r: bool)
    ensures
        r == is_finite_bits(bits),
{
    magnitude_of(bits) < 0x7ff0_0000_0000_0000
}

/// Whether two doubles are equal, as [`double_eq`] says.
pub fn bits_are_equal(a: u64, b: u64) -> (r: bool)
    ensures
        r == double_eq(a, b),
{
    let ma: u64 = magnitude_of(a);
    let mb: u64 = magnitude_of(b);
    ma <= 0x7ff0_0000_0000_0000 && mb <= 0x7ff0_0000_0000_0000 && (a == b || (ma == 0 && mb == 0))
}

/// The bit pattern of the double that `serde_json::Number::as_f64` gives for
/// the integer `i`.
pub uninterp spec fn double_of_int(i: int) -> u64;

impl Number {
    /// The invariant of the three forms: a `NegInt` is below zero and a
    /// `Float` is finite.
    pub open spec fn wf(self) -> bool {
        match self {
            Number::PosInt(_) => true,
            Number::NegInt(i) => i < 0,
            Number::Float(bits) => is_finite_bits(bits),
        }
    }

    /// Whether the number is zero.
    pub open spec fn is_zero(self) -> bool {
        match self {
            Number::PosInt(u) => u == 0,
            Number::NegInt(i) => i == 0,
            Number::Float(bits) => is_zero_bits(bits),
        }
    }

    /// Equality of JSON numbers: two numbers of the same form that hold the
    /// same integer or equal doubles. An integer never equals a double.
    pub open spec fn same(self, other: Number) -> bool {
        match (self, other) {
            (Number::PosInt(a), Number::PosInt(b)) => a == b,
            (Number::NegInt(a), Number::NegInt(b)) => a == b,
            (Number::Float(a), Number::Float(b)) => double_eq(a, b),
            _ => false,
        }
    }

    /// The number as a double, by its bit pattern.
    pub open spec fn double(self) -> u64 {
        match self {
            Number::PosInt(u) => double_of_int(u as int),
            Number::NegInt(i) => double_of_int(i as int),
            Number::Float(bits) => bits,
        }
    }

    /// The number that a double stands for: none for an infinity or a NaN.
    pub open spec fn of_double(bits: u64) -> Option<Number> {
        if is_finite_bits(bits) {
            Some(Number::Float(bits))
        } else {
            None
        }
    }

    /// Whether the number is zero.
    pub fn zero(&self) -> (r: bool)
        ensures
            r == self.is_zero(),
    {
        match self {
            Number::PosInt(u) => *u == 0,
            Number::NegInt(i) => *i == 0,
            Number::Float(bits) => bits_are_zero(*bits),
        }
    }

    /// Whether two numbers are equal, as [`Number::same`] says.
    pub fn equals(&self, other: &Number) -> (r: bool)
        ensures
            r == self.same(*other),
    {
        match (self, other) {
            (Number::PosInt(a), Number::PosInt(b)) => *a == *b,
            (Number::NegInt(a), Number::NegInt(b)) => *a == *b,
            (Number::Float(a), Number::Float(b)) => bits_are_equal(*a, *b),
            _ => false,
        }
    }

    /// The integer, where the number is one that is zero or more.
    pub fn as_u64(&self) -> (r: Option<u64>)
        ensures
            r == (match *self {
                Number::PosInt(u) => Some(u),
                _ => None::<u64>,
            }),
    {
        match self {
            Number::PosInt(u) => Some(*u),
            _ => None,
        }
    }

    /// The number that a double stands for: none for an infinity or a NaN.
    pub fn from_double(bits: u64) -> (r: Option<Number>)
        ensures
            r == Number::of_double(bits),
            r matches Some(n) ==> n.wf(),
    {
        if bits_are_finite(bits) {
            Some(Number::Float(bits))
        } else {
            None
        }
    }

    /// The number as a double, by its bit pattern.
    pub fn as_double(&self) -> (r: u64)
        ensures
            r == self.double(),
            self.wf() ==> is_finite_bits(r),
    {
        match self {
            Number::Float(bits) => *bits,
            _ => integer_as_double(self),
        }
    }
}

impl PartialEq for Number {
    fn eq(&self, other: &Number) -> (r: bool) {
        self.equals(other)
    }
}

impl vstd::std_specs::cmp::PartialEqSpecImpl for Number {
    open spec fn obeys_eq_spec() -> bool {
        true
    }

    open spec fn eq_spec(&self, other: &Number) -> bool {
        self.same(*other)
    }
}

/// `serde_json::Number::as_f64` on an integer: the integer as a double. A
/// `Float` is handed back as it is. Believed, not proved: that the double
/// depends on the integer alone, and that it is finite, as the double of
/// every 64-bit integer is.
#[verifier::external_body]
fn integer_as_double(n: &Number) -> (bits: u64)
    ensures
        bits == (match *n {
            Number::PosInt(u) => double_of_int(u as int),
            Number::NegInt(i) => double_of_int(i as int),
            Number::Float(b) => b,
        }),
        !(n is Float) ==> is_finite_bits(bits),
{
    match n {
        Number::PosInt(u) => serde_json::Number::from(*u).as_f64().unwrap_or_default().to_bits(),
        Number::NegInt(i) => serde_json::Number::from(*i).as_f64().unwrap_or_default().to_bits(),
        Number::Float(bits) => *bits,
    }
}

/// What this crate asks of a floating-point unit: that it can be called on
/// every operation and pair of bit patterns, and that it is a function of
/// them.
pub open spec fn fpu_ok<F: Fn(Arithmetic, u64, u64) -> u64>(fpu: F) -> bool {
    &&& forall|op: Arithmetic, a: u64, b: u64| #[trigger] fpu.requires((op, a, b))
    &&& forall|op: Arithmetic, a: u64, b: u64, r1: u64, r2: u64|
        #[trigger] fpu.ensures((op, a, b), r1) && #[trigger] fpu.ensures((op, a, b), r2) ==> r1
            == r2
}

/// The function that a floating-point unit computes.
pub open spec fn fpu_model<F: Fn(Arithmetic, u64, u64) -> u64>(fpu: F) -> spec_fn(
    Arithmetic,
    u64,
    u64,
) -> u64 {
    |op: Arithmetic, a: u64, b: u64| choose|r: u64| fpu.ensures((op, a, b), r)
}

/// One operation of the floating-point unit.
pub fn compute<F: Fn(Arithmetic, u64, u64) -> u64>(fpu: &F, op: Arithmetic, a: u64, b: u64) -> (r:
    u64)
    requires
        fpu_ok(*fpu),
    ensures
        r == fpu_model(*fpu)(op, a, b),
{
    fpu(op, a, b)
}

} // verus!
