//! The figures that are shown, and the channel name of each.
use crate::amounts::{
    block_reward_text, capitalization, circulating_supply_text, coins, coins_mined_percentage,
    format_block_reward, format_circulating_supply, format_max_supply, format_price,
    format_seconds, market_cap, market_cap_text, max_supply_text, mined_percent, mined_text,
    price_text, seconds_text,
};
use crate::chain::XelisStatsSnapshot;
use crate::decimal::{decimal, grouped, lemma_decimal_digits, padded, pow10};
use crate::double::{fixed_point, fixed_text, quotient, whole, Binary};
use crate::names::{
    can_shorten, channel_name, channel_name_text, is_nameable, labelled, NAME_LIMIT,
};
use crate::price::{Price, PriceValue};
use vstd::prelude::*;
use vstd::string::*;
use vstd::utf8::{
    encode_utf8, encode_utf8_valid_utf8, is_ascii_chars, is_ascii_chars_encode_utf8,
    is_char_boundary_iff_not_is_continuation_byte,
};

verus! {

/// The labels of the stats channels, in the order in which they are updated.
pub open spec fn labels() -> Seq<Seq<char>> {
    seq![
        "Network:"@,
        "Block Time:"@,
        "Block Reward:"@,
        "Max Supply:"@,
        "Circ Supply:"@,
        "Net Hash:"@,
        "Coins Mined:"@,
        "Price:"@,
        "Mcap:"@,
    ]
}

/// A report of the daemon and a price, each where it could be had.
#[derive(Debug)]
pub struct StatsSnapshot {
    pub xelis: Option<XelisStatsSnapshot>,
    pub price: Option<Price>,
}

impl StatsSnapshot {
    /// The value shown under each label; `N/A` where it could not be had.
    pub open spec fn values(self) -> Seq<Seq<char>> {
        let price = match self.price {
            Some(price) => price_text(price@),
            None => "N/A"@,
        };
        match self.xelis {
            Some(xelis) => {
                let info = xelis.info;
                seq![
                    info.network@,
                    seconds_text(info.average_block_time as nat),
                    block_reward_text(info.block_reward as nat),
                    max_supply_text(info.maximum_supply as nat),
                    circulating_supply_text(info.circulating_supply as nat),
                    xelis.difficulty.hashrate_formatted@,
                    if info.maximum_supply == 0 {
                        "N/A"@
                    } else {
                        mined_text(info.circulating_supply as nat, info.maximum_supply as nat)
                    },
                    price,
                    match self.price {
                        Some(price) => market_cap_text(info.circulating_supply as nat, price@),
                        None => "N/A"@,
                    },
                ]
            },
            None => seq![
                "N/A"@,
                "N/A"@,
                "N/A"@,
                "N/A"@,
                "N/A"@,
                "N/A"@,
                "N/A"@,
                price,
                "N/A"@,
            ],
        }
    }

    /// The name of the network and the hash rate can be cut to a channel name.
    pub open spec fn nameable(self) -> bool {
        self.xelis matches Some(xelis) ==> xelis_nameable(xelis)
    }

    /// The label and the channel name of each figure.
    pub open spec fn names(self) -> Seq<(Seq<char>, Seq<char>)> {
        Seq::new(9, |i: int| (labels()[i], channel_name_text(labels()[i], self.values()[i])))
    }

    /// The label and the channel name of each figure.
    pub fn channel_names(&self) -> (names: Vec<(&'static str, String)>)
        requires
            self.nameable(),
        ensures
            rows(names@) == self.names(),
    {
        let ghost values = self.values();
        proof {
            lemma_values_nameable(*self);
            assert(can_shorten(labelled("Network:"@, values[0])));
            assert(can_shorten(labelled("Block Time:"@, values[1])));
            assert(can_shorten(labelled("Block Reward:"@, values[2])));
            assert(can_shorten(labelled("Max Supply:"@, values[3])));
            assert(can_shorten(labelled("Circ Supply:"@, values[4])));
            assert(can_shorten(labelled("Net Hash:"@, values[5])));
            assert(can_shorten(labelled("Coins Mined:"@, values[6])));
            assert(can_shorten(labelled("Price:"@, values[7])));
            assert(can_shorten(labelled("Mcap:"@, values[8])));
        }
        let price = match self.price {
            Some(price) => format_price(price),
            None => not_available(),
        };
        let mut names: Vec<(&'static str, String)> = Vec::new();
        match &self.xelis {
            Some(xelis) => {
                let info = &xelis.info;
                let mined = match coins_mined_percentage(info) {
                    Some(text) => text,
                    None => not_available(),
                };
                let cap = match market_cap(info, self.price) {
                    Some(text) => text,
                    None => not_available(),
                };
                assert(values[6] == mined@ && values[8] == cap@);
                names.push(named("Network:", info.network.clone()));
                names.push(named("Block Time:", format_seconds(info.average_block_time)));
                names.push(named("Block Reward:", format_block_reward(info.block_reward)));
                names.push(named("Max Supply:", format_max_supply(info.maximum_supply)));
                names.push(
                    named("Circ Supply:", format_circulating_supply(info.circulating_supply)),
                );
                names.push(named("Net Hash:", xelis.difficulty.hashrate_formatted.clone()));
                names.push(named("Coins Mined:", mined));
                names.push(named("Price:", price));
                names.push(named("Mcap:", cap));
            },
            None => {
                names.push(named("Network:", not_available()));
                names.push(named("Block Time:", not_available()));
                names.push(named("Block Reward:", not_available()));
                names.push(named("Max Supply:", not_available()));
                names.push(named("Circ Supply:", not_available()));
                names.push(named("Net Hash:", not_available()));
                names.push(named("Coins Mined:", not_available()));
                names.push(named("Price:", price));
                names.push(named("Mcap:", not_available()));
            },
        }
        names
    }
}

/// The name of the network and the hash rate can be cut to a channel name.
pub open spec fn xelis_nameable(xelis: XelisStatsSnapshot) -> bool {
    &&& can_shorten(labelled("Network:"@, xelis.info.network@))
    &&& can_shorten(labelled("Net Hash:"@, xelis.difficulty.hashrate_formatted@))
}

/// Labels with their texts.
pub open spec fn rows(names: Seq<(&'static str, String)>) -> Seq<(Seq<char>, Seq<char>)> {
    Seq::new(names.len(), |i: int| (names[i].0@, names[i].1@))
}

/// Whether the name of the network and the hash rate can be cut to a channel name.
pub fn is_xelis_nameable(xelis: &XelisStatsSnapshot) -> (r: bool)
    ensures
        r == xelis_nameable(*xelis),
{
    is_nameable("Network:", xelis.info.network.as_str()) && is_nameable(
        "Net Hash:",
        xelis.difficulty.hashrate_formatted.as_str(),
    )
}

fn not_available() -> (text: String)
    ensures
        text@ == "N/A"@,
{
    "N/A".to_owned()
}

/// A label with the channel name of its value.
fn named(label: &'static str, value: String) -> (row: (&'static str, String))
    requires
        can_shorten(labelled(label@, value@)),
    ensures
        row.0@ == label@,
        row.1@ == channel_name_text(label@, value@),
{
    (label, channel_name(label, value))
}

/// A name of ASCII characters can be cut anywhere.
pub proof fn lemma_ascii_can_shorten(label: Seq<char>, value: Seq<char>)
    requires
        is_ascii_chars(label),
        is_ascii_chars(value),
    ensures
        can_shorten(labelled(label, value)),
{
    let name = labelled(label, value);
    reveal_strlit(" ");
    assert(is_ascii_chars(name));
    is_ascii_chars_encode_utf8(name);
    encode_utf8_valid_utf8(name);
    let bytes = encode_utf8(name);
    if bytes.len() > NAME_LIMIT {
        assert(name[NAME_LIMIT as int] as u8 == bytes[NAME_LIMIT as int]);
        assert('\0' <= name[NAME_LIMIT as int] <= '\u{7f}');
        is_char_boundary_iff_not_is_continuation_byte(bytes, NAME_LIMIT as int);
    }
}

proof fn lemma_padded_ascii(n: nat, width: nat)
    ensures
        is_ascii_chars(padded(n, width)),
    decreases width,
{
    if width > 0 {
        lemma_padded_ascii(n / 10, (width - 1) as nat);
    }
}

proof fn lemma_fixed_ascii(a: Binary, places: nat)
    ensures
        is_ascii_chars(fixed_text(a, places)),
{
    let n = fixed_point(a, places);
    lemma_decimal_digits(n);
    lemma_decimal_digits(n / pow10(places));
    lemma_padded_ascii(n, places);
}

proof fn lemma_grouped_ascii(digits: Seq<char>)
    requires
        is_ascii_chars(digits),
    ensures
        is_ascii_chars(grouped(digits)),
    decreases digits.len(),
{
    if digits.len() > 3 {
        lemma_grouped_ascii(digits.take(digits.len() - 3));
    }
}

proof fn lemma_price_ascii(price: PriceValue)
    ensures
        is_ascii_chars(price_text(price)),
{
    reveal_strlit("$");
    reveal_strlit("NaN");
    reveal_strlit("inf");
    reveal_strlit("-inf");
    reveal_strlit("-");
    if let PriceValue::Finite { negative, magnitude } = price {
        lemma_fixed_ascii(magnitude, 4);
    }
}

/// Every figure can be cut to a channel name under its label.
pub proof fn lemma_values_nameable(snapshot: StatsSnapshot)
    requires
        snapshot.nameable(),
    ensures
        forall|i: int|
            0 <= i < 9 ==> can_shorten(labelled(labels()[i], #[trigger] snapshot.values()[i])),
{
    lemma_labels_ascii();
    assert forall|i: int| 0 <= i < 9 implies can_shorten(
        labelled(labels()[i], #[trigger] snapshot.values()[i]),
    ) by {
        reveal_strlit("N/A");
        reveal_strlit("s avg");
        reveal_strlit(" XEL");
        reveal_strlit("M XEL");
        reveal_strlit("%");
        reveal_strlit("$");
        if let Some(price) = snapshot.price {
            lemma_price_ascii(price@);
        }
        if let Some(xelis) = snapshot.xelis {
            let info = xelis.info;
            let circulating = info.circulating_supply as nat;
            lemma_fixed_ascii(quotient(whole(info.average_block_time as nat), whole(1_000)), 0);
            lemma_fixed_ascii(coins(info.block_reward as nat), 4);
            lemma_fixed_ascii(
                quotient(coins(info.maximum_supply as nat), whole(1_000_000)),
                1,
            );
            lemma_fixed_ascii(coins(circulating), 0);
            lemma_fixed_ascii(mined_percent(circulating, info.maximum_supply as nat), 2);
            if let Some(price) = snapshot.price {
                let cap = capitalization(circulating, price@);
                lemma_decimal_digits(cap);
                lemma_grouped_ascii(decimal(cap));
            }
        }
        if i != 0 && i != 5 || snapshot.xelis is None {
            assert(is_ascii_chars(snapshot.values()[i]));
            lemma_ascii_can_shorten(labels()[i], snapshot.values()[i]);
        }
    }
}

/// The labels are short ASCII texts.
pub proof fn lemma_labels_ascii()
    ensures
        forall|i: int|
            0 <= i < 9 ==> is_ascii_chars(#[trigger] labels()[i]) && labels()[i].len() <= 20,
{
    reveal_strlit("Network:");
    reveal_strlit("Block Time:");
    reveal_strlit("Block Reward:");
    reveal_strlit("Max Supply:");
    reveal_strlit("Circ Supply:");
    reveal_strlit("Net Hash:");
    reveal_strlit("Coins Mined:");
    reveal_strlit("Price:");
    reveal_strlit("Mcap:");
}

} // verus!
