//! The price of a coin, a double of either sign.
use crate::double::{at_most, fixed_text, product, saturated, Binary, Double, HIGH, LOW};
use vstd::prelude::*;
use vstd::string::*;

verus! {

/// What a price is.
pub ghost enum PriceValue {
    NotANumber,
    Infinite { negative: bool },
    Finite { negative: bool, magnitude: Binary },
}

impl PriceValue {
    /// The price in decimal with the given number of decimal places.
    pub open spec fn text(self, places: nat) -> Seq<char> {
        match self {
            PriceValue::NotANumber => "NaN"@,
            PriceValue::Infinite { negative } => if negative {
                "-inf"@
            } else {
                "inf"@
            },
            PriceValue::Finite { negative, magnitude } => if negative {
                "-"@ + fixed_text(magnitude, places)
            } else {
                fixed_text(magnitude, places)
            },
        }
    }

    /// The price is a number, and so is the other, and it is at most the other. The
    /// two zeros are equal.
    pub open spec fn not_above(self, other: PriceValue) -> bool {
        match (self, other) {
            (PriceValue::NotANumber, _) => false,
            (_, PriceValue::NotANumber) => false,
            (PriceValue::Infinite { negative: true }, _) => true,
            (_, PriceValue::Infinite { negative: false }) => true,
            (PriceValue::Infinite { .. }, _) => false,
            (_, PriceValue::Infinite { .. }) => false,
            (
                PriceValue::Finite { negative: p, magnitude: a },
                PriceValue::Finite { negative: q, magnitude: b },
            ) => if p && q {
                at_most(b, a)
            } else if p {
                true
            } else if q {
                a.m == 0 && b.m == 0
            } else {
                at_most(a, b)
            },
        }
    }
}

/// A price, held as the 64 bits of an IEEE 754 double: one sign bit, eleven bits of
/// exponent and 52 bits of fraction.
#[derive(Debug, Clone, Copy, PartialEq, Eq, Structural)]
pub struct Price {
    pub bits: u64,
}

impl View for Price {
    type V = PriceValue;

    open spec fn view(&self) -> PriceValue {
        let negative = self.bits as nat / 0x8000_0000_0000_0000 == 1;
        let exponent = self.bits as nat / (LOW as nat) % 2048;
        let fraction = self.bits as nat % (LOW as nat);
        if exponent == 2047 {
            if fraction == 0 {
                PriceValue::Infinite { negative }
            } else {
                PriceValue::NotANumber
            }
        } else if exponent == 0 {
            PriceValue::Finite { negative, magnitude: Binary { m: fraction, e: -1074 } }
        } else {
            PriceValue::Finite {
                negative,
                magnitude: Binary { m: fraction + LOW as nat, e: exponent - 1075 },
            }
        }
    }
}

impl Price {
    fn is_negative(&self) -> (negative: bool)
        ensures
            negative == (self.bits as nat / 0x8000_0000_0000_0000 == 1),
    {
        self.bits / 0x8000_0000_0000_0000 == 1
    }

    /// The magnitude of a finite price.
    fn magnitude(&self) -> (r: Option<Double>)
        ensures
            r is Some <==> self@ is Finite,
            r matches Some(d) ==> d@ == self@->magnitude && d.wf() && d.significand < HIGH
                && -1074 <= d.exponent <= 971,
    {
        let exponent: u64 = self.bits / LOW % 2048;
        let fraction: u64 = self.bits % LOW;
        if exponent == 2047 {
            None
        } else if exponent == 0 {
            Some(Double { significand: fraction, exponent: -1074 })
        } else {
            Some(Double { significand: fraction + LOW, exponent: exponent as i32 - 1075 })
        }
    }

    /// The price in decimal with the given number of decimal places.
    pub fn to_fixed(&self, places: u32) -> (text: String)
        requires
            places <= 4,
        ensures
            text@ == self@.text(places as nat),
    {
        match self.magnitude() {
            Some(magnitude) => {
                let text = magnitude.to_fixed(places);
                if self.is_negative() {
                    "-".to_owned().concat(text.as_str())
                } else {
                    text
                }
            },
            None => {
                if self.bits % LOW != 0 {
                    "NaN".to_owned()
                } else if self.is_negative() {
                    "-inf".to_owned()
                } else {
                    "inf".to_owned()
                }
            },
        }
    }

    /// The price of `amount` coins in whole dollars.
    pub fn dollars_for(&self, amount: &Double) -> (dollars: u64)
        requires
            amount.wf(),
            -400 <= amount.exponent <= 400,
        ensures
            dollars == (match self@ {
                PriceValue::NotANumber => 0,
                PriceValue::Infinite { negative } => if negative || amount.significand == 0 {
                    0
                } else {
                    u64::MAX as nat
                },
                PriceValue::Finite { negative, magnitude } => if negative {
                    0
                } else {
                    saturated(product(amount@, magnitude))
                },
            }),
    {
        match self.magnitude() {
            Some(magnitude) => if self.is_negative() {
                0
            } else {
                amount.times(&magnitude).to_integer()
            },
            None => if self.bits % LOW != 0 || self.is_negative() || amount.significand
                == 0 {
                0
            } else {
                u64::MAX
            },
        }
    }
}

} // verus!
