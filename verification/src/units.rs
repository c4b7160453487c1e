//! Physical quantities, and values tagged with one.
use crate::scalar::{whole, Scalar};
use vstd::prelude::*;

verus! {

/// What a value measures. Two quantities that share a unit still do not interchange.
#[derive(Debug, Clone, Copy, PartialEq, Eq, Structural)]
pub enum Quantity {
    Temperature,
    Rpm,
    Duty,
    Load,
    Voltage,
    Current,
    Power,
    Boolean,
    Ratio,
}

impl Quantity {
    /// Whether values of this quantity are percentages, and so bounded.
    pub open spec fn percentage(self) -> bool {
        self is Duty || self is Load
    }

    /// A number brought into the range of this quantity.
    pub open spec fn clamped(self, v: Scalar) -> Scalar {
        if self.percentage() {
            v.confined(whole(0), whole(100))
        } else {
            v
        }
    }

    /// Brings a number into the range of a quantity. A NaN stays a NaN.
    pub fn clamp(self, v: Scalar) -> (r: Scalar)
        ensures
            r == self.clamped(v),
    {
        match self {
            Quantity::Duty | Quantity::Load => v.clamp(Scalar::whole(0), Scalar::whole(100)),
            _ => v,
        }
    }

    /// The quantity's name, as messages show it.
    pub open spec fn named(self) -> Seq<char> {
        match self {
            Quantity::Temperature => "temperature"@,
            Quantity::Rpm => "rpm"@,
            Quantity::Duty => "duty"@,
            Quantity::Load => "load"@,
            Quantity::Voltage => "voltage"@,
            Quantity::Current => "current"@,
            Quantity::Power => "power"@,
            Quantity::Boolean => "boolean"@,
            Quantity::Ratio => "ratio"@,
        }
    }

    /// The quantity's name, as messages show it.
    pub fn name(self) -> (r: &'static str)
        ensures
            r@ == self.named(),
    {
        match self {
            Quantity::Temperature => "temperature",
            Quantity::Rpm => "rpm",
            Quantity::Duty => "duty",
            Quantity::Load => "load",
            Quantity::Voltage => "voltage",
            Quantity::Current => "current",
            Quantity::Power => "power",
            Quantity::Boolean => "boolean",
            Quantity::Ratio => "ratio",
        }
    }
}

/// A number and what it measures.
#[derive(Debug, Clone, Copy, PartialEq)]
pub struct Value {
    pub quantity: Quantity,
    pub scalar: Scalar,
}

impl Value {
    /// Whether this is a finite number.
    pub open spec fn trustworthy(self) -> bool {
        self.scalar.finite()
    }

    /// A value as it was measured.
    pub fn raw(quantity: Quantity, scalar: Scalar) -> (r: Value)
        ensures
            r == (Value { quantity, scalar }),
    {
        Value { quantity, scalar }
    }

    /// A value brought into the range of its quantity.
    pub fn new(quantity: Quantity, scalar: Scalar) -> (r: Value)
        ensures
            r == (Value { quantity, scalar: quantity.clamped(scalar) }),
    {
        Value { quantity, scalar: quantity.clamp(scalar) }
    }

    /// Whether this may be acted on: a NaN or an infinity stands for a broken reading.
    pub fn is_trustworthy(self) -> (r: bool)
        ensures
            r == self.trustworthy(),
    {
        self.scalar.is_finite()
    }
}

} // verus!
