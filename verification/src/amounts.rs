//! Texts of block times, coin amounts and shares of the supply.
//!
//! Amounts are counted in atomic units and shown in whole coins. Each text is what
//! double-precision arithmetic gives, rounded to the decimal places shown.
use crate::chain::ChainInfo;
use crate::decimal::{decimal, format_with_commas, grouped};
use crate::double::{
    fixed_text, lemma_integer_part_exact, product, quotient, saturated, whole, Binary, Double, HIGH,
};
use crate::price::{Price, PriceValue};
use crate::rounding::half_even;
use vstd::prelude::*;
use vstd::string::*;

verus! {

/// The atomic units of one coin.
pub const COIN_VALUE: u64 = 100_000_000;

/// An amount of atomic units in coins.
pub open spec fn coins(atomic_units: nat) -> Binary {
    quotient(whole(atomic_units), whole(COIN_VALUE as nat))
}

/// The circulating supply in percent of the maximum supply.
pub open spec fn mined_percent(circulating: nat, maximum: nat) -> Binary {
    product(quotient(whole(circulating), whole(maximum)), whole(100))
}

/// The value of `circulating` atomic units at the given price, in whole dollars.
/// What is negative or not a number counts as nothing.
pub open spec fn capitalization(circulating: nat, price: PriceValue) -> nat {
    match price {
        PriceValue::NotANumber => 0,
        PriceValue::Infinite { negative } => if negative || circulating == 0 {
            0
        } else {
            u64::MAX as nat
        },
        PriceValue::Finite { negative, magnitude } => if negative {
            0
        } else {
            saturated(product(coins(circulating), magnitude))
        },
    }
}

/// The text of a block time.
pub open spec fn seconds_text(milliseconds: nat) -> Seq<char> {
    fixed_text(quotient(whole(milliseconds), whole(1_000)), 0) + "s avg"@
}

/// The text of a block reward.
pub open spec fn block_reward_text(atomic_units: nat) -> Seq<char> {
    fixed_text(coins(atomic_units), 4) + " XEL"@
}

/// The text of the maximum supply.
pub open spec fn max_supply_text(atomic_units: nat) -> Seq<char> {
    fixed_text(quotient(coins(atomic_units), whole(1_000_000)), 1) + "M XEL"@
}

/// The text of the circulating supply.
pub open spec fn circulating_supply_text(atomic_units: nat) -> Seq<char> {
    fixed_text(coins(atomic_units), 0) + " XEL"@
}

/// The text of the share of the maximum supply that circulates.
pub open spec fn mined_text(circulating: nat, maximum: nat) -> Seq<char> {
    fixed_text(mined_percent(circulating, maximum), 2) + "%"@
}

/// The text of a price.
pub open spec fn price_text(price: PriceValue) -> Seq<char> {
    "$"@ + price.text(4)
}

/// The text of a market capitalisation.
pub open spec fn market_cap_text(circulating: nat, price: PriceValue) -> Seq<char> {
    "$"@ + grouped(decimal(capitalization(circulating, price)))
}

/// An amount of atomic units in coins.
fn to_coins(atomic_units: u64) -> (r: Double)
    ensures
        r@ == coins(atomic_units as nat),
        atomic_units > 0 <==> r.significand > 0,
        r.significand <= HIGH,
        -400 <= r.exponent <= 400,
{
    Double::from_integer(atomic_units).divided_by(&Double::from_integer(COIN_VALUE))
}

/// A block time in whole seconds, as in `15s avg`.
pub fn format_seconds(milliseconds: u64) -> (text: String)
    ensures
        text@ == seconds_text(milliseconds as nat),
        milliseconds < HIGH ==> text@ == decimal(half_even(milliseconds as nat, 1_000)) + "s avg"@,
{
    proof {
        if milliseconds < HIGH {
            lemma_integer_part_exact(milliseconds as nat, 1_000);
        }
    }
    Double::from_integer(milliseconds).divided_by(&Double::from_integer(1_000)).to_fixed(0).concat(
        "s avg",
    )
}

/// A block reward in coins with four decimal places.
pub fn format_block_reward(atomic_units: u64) -> (text: String)
    ensures
        text@ == block_reward_text(atomic_units as nat),
{
    to_coins(atomic_units).to_fixed(4).concat(" XEL")
}

/// A supply in millions of coins with one decimal place.
pub fn format_max_supply(atomic_units: u64) -> (text: String)
    ensures
        text@ == max_supply_text(atomic_units as nat),
{
    to_coins(atomic_units).divided_by(&Double::from_integer(1_000_000)).to_fixed(1).concat("M XEL")
}

/// A supply in whole coins.
pub fn format_circulating_supply(atomic_units: u64) -> (text: String)
    ensures
        text@ == circulating_supply_text(atomic_units as nat),
        atomic_units < HIGH ==> text@ == decimal(half_even(atomic_units as nat, COIN_VALUE as nat))
            + " XEL"@,
{
    proof {
        if atomic_units < HIGH {
            lemma_integer_part_exact(atomic_units as nat, COIN_VALUE as nat);
        }
    }
    to_coins(atomic_units).to_fixed(0).concat(" XEL")
}

/// The share of the maximum supply that circulates, in percent with two decimal
/// places. There is none where the maximum is zero.
pub fn coins_mined_percentage(info: &ChainInfo) -> (text: Option<String>)
    ensures
        text is None <==> info.maximum_supply == 0,
        text matches Some(t) ==> t@ == mined_text(
            info.circulating_supply as nat,
            info.maximum_supply as nat,
        ),
{
    if info.maximum_supply == 0 {
        return None;
    }
    let share = Double::from_integer(info.circulating_supply).divided_by(
        &Double::from_integer(info.maximum_supply),
    );
    Some(share.times(&Double::from_integer(100)).to_fixed(2).concat("%"))
}

/// A price in dollars with four decimal places.
pub fn format_price(price: Price) -> (text: String)
    ensures
        text@ == price_text(price@),
{
    "$".to_owned().concat(price.to_fixed(4).as_str())
}

/// The market capitalisation in whole dollars, as in `$1,234,567`. There is none
/// without a price.
pub fn market_cap(info: &ChainInfo, price: Option<Price>) -> (text: Option<String>)
    ensures
        text is None <==> price is None,
        text matches Some(t) ==> t@ == market_cap_text(info.circulating_supply as nat, price->0@),
{
    let circulating_supply = to_coins(info.circulating_supply);
    match price {
        None => None,
        Some(price) => {
            let dollars: u64 = price.dollars_for(&circulating_supply);
            Some("$".to_owned().concat(format_with_commas(dollars).as_str()))
        },
    }
}

} // verus!
