//! What holds of the library as a whole.
use crate::amounts::{
    capitalization, coins, market_cap_text, mined_percent, mined_text, COIN_VALUE,
};
use crate::category::{
    category_step, nonzero, wanted_category, CategoryError, CategoryStep,
};
use crate::channels::{
    channel_step, first, has_id, lemma_first, needs_edit, shows, titled, ChannelKind, ChannelStep,
    ChannelView,
};
use crate::decimal::{decimal, digit_char, grouped, lemma_decimal_digits, padded, pow10};
use crate::double::{
    at_most, fixed_point, law_fixed_point_monotone, law_nearest, law_nearest_monotone,
    law_product_commutes, law_product_monotone, law_quotient_monotone, law_saturated_monotone,
    lemma_self_ratio, lemma_whole_fixed_point, product, quotient, saturated, whole, Binary,
};
use crate::names::{can_shorten, channel_name_text, labelled, NAME_LIMIT};
use crate::price::PriceValue;
use crate::rounding::{half_up, pow2_down, scaled_den, scaled_num};
use crate::snapshot::{labels, lemma_labels_ascii, lemma_values_nameable, StatsSnapshot};
use crate::state::{entries_map, labels_distinct, lemma_entries_map, StateView};
use crate::updater::{ActionView, EventView, PhaseView, RoundView, Setup, StepView, UpdaterView};
use vstd::prelude::*;
use vstd::utf8::{
    decode_utf8_encode_utf8, decode_utf8_split, encode_utf8, encode_utf8_decode_utf8,
    encode_utf8_valid_utf8, is_ascii_chars, is_ascii_chars_encode_utf8, valid_utf8_split,
};

verus! {

// Numbers in decimal.

/// Different numbers have different decimal texts.
pub proof fn law_decimal_injective(m: nat, n: nat)
    requires
        decimal(m) == decimal(n),
    ensures
        m == n,
    decreases m,
{
    lemma_decimal_digits(m / 10);
    lemma_decimal_digits(n / 10);
    assert(decimal(m).last() == digit_char(m % 10));
    assert(decimal(n).last() == digit_char(n % 10));
    assert(digit_char(m % 10) as nat == 48 + m % 10);
    assert(digit_char(n % 10) as nat == 48 + n % 10);
    if m >= 10 && n >= 10 {
        assert(decimal(m).drop_last() == decimal(m / 10));
        assert(decimal(n).drop_last() == decimal(n / 10));
        law_decimal_injective(m / 10, n / 10);
    }
}

/// A text with its commas left out.
pub open spec fn without_commas(text: Seq<char>) -> Seq<char>
    decreases text.len(),
{
    if text.len() == 0 {
        text
    } else if text.last() == ',' {
        without_commas(text.drop_last())
    } else {
        without_commas(text.drop_last()).push(text.last())
    }
}

proof fn lemma_without_commas_concat(a: Seq<char>, b: Seq<char>)
    requires
        forall|i: int| 0 <= i < b.len() ==> #[trigger] b[i] != ',',
    ensures
        without_commas(a + b) == without_commas(a) + b,
    decreases b.len(),
{
    if b.len() == 0 {
        assert(a + b == a);
        assert(without_commas(a) + b == without_commas(a));
    } else {
        let both = a + b;
        assert(both.drop_last() == a + b.drop_last());
        assert(both.last() == b.last());
        assert forall|i: int| 0 <= i < b.drop_last().len() implies #[trigger] b.drop_last()[i]
            != ',' by {
            assert(b[i] != ',');
        }
        lemma_without_commas_concat(a, b.drop_last());
        assert(b[b.len() - 1] != ',');
        assert((without_commas(a) + b.drop_last()).push(b.last()) == without_commas(a) + b);
    }
}

proof fn lemma_grouped_keeps_digits(digits: Seq<char>)
    requires
        forall|i: int| 0 <= i < digits.len() ==> #[trigger] digits[i] != ',',
    ensures
        without_commas(grouped(digits)) == digits,
    decreases digits.len(),
{
    if digits.len() <= 3 {
        lemma_without_commas_concat(seq![], digits);
        assert(Seq::<char>::empty() + digits == digits);
        assert(without_commas(Seq::<char>::empty()) + digits == digits);
    } else {
        let front = digits.take(digits.len() - 3);
        let back = digits.skip(digits.len() - 3);
        lemma_grouped_keeps_digits(front);
        lemma_without_commas_concat(grouped(front).push(','), back);
        assert(grouped(front).push(',').drop_last() == grouped(front));
        assert(front + back == digits);
    }
}

/// Grouping a number's digits adds commas and nothing else.
pub proof fn law_commas_keep_digits(n: nat)
    ensures
        without_commas(grouped(decimal(n))) == decimal(n),
{
    lemma_decimal_digits(n);
    assert forall|i: int| 0 <= i < decimal(n).len() implies #[trigger] decimal(n)[i] != ',' by {
        assert('0' <= decimal(n)[i] <= '9');
    }
    lemma_grouped_keeps_digits(decimal(n));
}

/// Different numbers have different texts with commas.
pub proof fn law_commas_injective(m: nat, n: nat)
    requires
        grouped(decimal(m)) == grouped(decimal(n)),
    ensures
        m == n,
{
    law_commas_keep_digits(m);
    law_commas_keep_digits(n);
    law_decimal_injective(m, n);
}

// Market capitalisation.

/// The number that a text shows behind its first character, commas left out.
pub open spec fn shown_amount(text: Seq<char>) -> nat {
    choose|n: nat| decimal(n) == without_commas(text.skip(1))
}

/// The text of a market capitalisation shows the market capitalisation.
pub proof fn law_market_cap_shown(circulating: nat, price: PriceValue)
    ensures
        shown_amount(market_cap_text(circulating, price)) == capitalization(circulating, price),
{
    let n = capitalization(circulating, price);
    let text = market_cap_text(circulating, price);
    reveal_strlit("$");
    assert(text.skip(1) == grouped(decimal(n)));
    law_commas_keep_digits(n);
    law_decimal_injective(shown_amount(text), n);
}

/// Of the same circulating supply a higher price gives no lower market capitalisation,
/// and none that is shown as lower.
pub proof fn law_market_cap_monotone(circulating: nat, p: PriceValue, q: PriceValue)
    requires
        p.not_above(q),
    ensures
        capitalization(circulating, p) <= capitalization(circulating, q),
        shown_amount(market_cap_text(circulating, p)) <= shown_amount(
            market_cap_text(circulating, q),
        ),
{
    law_market_cap_shown(circulating, p);
    law_market_cap_shown(circulating, q);
    let amount = coins(circulating);
    match (p, q) {
        (
            PriceValue::Finite { negative: false, magnitude: a },
            PriceValue::Finite { negative, magnitude: b },
        ) => {
            if negative {
                lemma_nothing_is_worth_nothing(amount, a);
            } else {
                law_product_monotone(amount, a, b);
                law_saturated_monotone(product(amount, a), product(amount, b));
            }
        },
        (
            PriceValue::Finite { negative: false, magnitude: a },
            PriceValue::Infinite { negative: false },
        ) => {
            if circulating == 0 {
                lemma_no_coins();
                lemma_nothing_is_worth_nothing(amount, a);
            }
        },
        _ => {},
    }
}

/// At the same price a greater circulating supply gives no lower market capitalisation.
pub proof fn law_market_cap_grows_with_supply(c: nat, d: nat, price: PriceValue)
    requires
        c <= d,
    ensures
        capitalization(c, price) <= capitalization(d, price),
        shown_amount(market_cap_text(c, price)) <= shown_amount(market_cap_text(d, price)),
{
    law_market_cap_shown(c, price);
    law_market_cap_shown(d, price);
    if let PriceValue::Finite { magnitude, .. } = price {
        law_coins_monotone(c, d);
        law_product_monotone(magnitude, coins(c), coins(d));
        law_product_commutes(magnitude, coins(c));
        law_product_commutes(magnitude, coins(d));
        law_saturated_monotone(product(coins(c), magnitude), product(coins(d), magnitude));
    }
}

/// No atomic units are no coins.
proof fn lemma_no_coins()
    ensures
        coins(0).m == 0,
{
    let k = whole(COIN_VALUE as nat).e - whole(0).e;
    assert(scaled_num(0, k) == 0) by (nonlinear_arith)
        requires
            scaled_num(0, k) == 0 * pow2_down(k),
    ;
}

/// A product with nothing is nothing.
proof fn lemma_nothing_is_worth_nothing(amount: Binary, price: Binary)
    requires
        amount.m == 0 || price.m == 0,
    ensures
        saturated(product(amount, price)) == 0,
{
    let k = -amount.e - price.e;
    let n = scaled_num(amount.m * price.m, k);
    assert(n == 0) by (nonlinear_arith)
        requires
            n == (amount.m * price.m) * pow2_down(k),
            amount.m == 0 || price.m == 0,
    ;
    assert(product(amount, price) == (Binary { m: 0, e: 0 }));
    assert(scaled_num(0, 0) == 0 && scaled_den(1, 0) == 1) by {
        assert(0 * pow2_down(0) == 0) by (nonlinear_arith);
    }
    let (x, y) = (scaled_num(0, 0), scaled_den(1, 0));
    assert((2 * x + y) / (2 * y) == 0) by (nonlinear_arith)
        requires
            x == 0,
            y == 1,
    ;
    assert(half_up(x, y) == 0);
}

// Amounts.

/// More atomic units are no fewer coins.
pub proof fn law_coins_monotone(m: nat, n: nat)
    requires
        m <= n,
    ensures
        at_most(coins(m), coins(n)),
{
    lemma_ratio_monotone(m, n, COIN_VALUE as nat);
}

/// A greater integer gives no smaller quotient.
proof fn lemma_ratio_monotone(m: nat, n: nat, d: nat)
    requires
        m <= n,
        d > 0,
    ensures
        at_most(quotient(whole(m), whole(d)), quotient(whole(n), whole(d))),
{
    law_nearest_monotone(m, 1, n, 1);
    law_nearest(d, 1);
    law_quotient_monotone(whole(m), whole(n), whole(d));
}

/// A longer block time, a greater reward and a greater supply are not shown as smaller
/// ones.
pub proof fn law_shown_amounts_monotone(m: nat, n: nat, places: nat)
    requires
        m <= n,
    ensures
        fixed_point(quotient(whole(m), whole(1_000)), places) <= fixed_point(
            quotient(whole(n), whole(1_000)),
            places,
        ),
        fixed_point(coins(m), places) <= fixed_point(coins(n), places),
        fixed_point(quotient(coins(m), whole(1_000_000)), places) <= fixed_point(
            quotient(coins(n), whole(1_000_000)),
            places,
        ),
{
    lemma_ratio_monotone(m, n, 1_000);
    law_fixed_point_monotone(
        quotient(whole(m), whole(1_000)),
        quotient(whole(n), whole(1_000)),
        places,
    );
    law_coins_monotone(m, n);
    law_fixed_point_monotone(coins(m), coins(n), places);
    law_nearest(1_000_000, 1);
    law_quotient_monotone(coins(m), coins(n), whole(1_000_000));
    law_fixed_point_monotone(
        quotient(coins(m), whole(1_000_000)),
        quotient(coins(n), whole(1_000_000)),
        places,
    );
}

/// A circulating supply within the maximum is shown as a hundred percent at most, one
/// that is the maximum as exactly that, and a greater one as no smaller share.
pub proof fn law_mined_share(circulating: nat, more: nat, maximum: nat)
    requires
        circulating <= more <= maximum,
        maximum > 0,
    ensures
        fixed_point(mined_percent(circulating, maximum), 2) <= fixed_point(
            mined_percent(more, maximum),
            2,
        ) <= 10_000,
        mined_text(maximum, maximum) == "100.00%"@,
{
    lemma_mined_monotone(circulating, more, maximum);
    lemma_mined_monotone(more, maximum, maximum);
    law_nearest(maximum, 1);
    lemma_self_ratio(whole(maximum), 100);
    lemma_whole_fixed_point(100, 2);
    lemma_hundred();
    assert(fixed_point(mined_percent(maximum, maximum), 2) == 10_000);
    reveal_strlit("100.00%");
    reveal_strlit("%");
    let text = seq!['1', '0', '0'].push('.') + seq!['0', '0'];
    assert(mined_text(maximum, maximum) == text + "%"@);
    assert(text + "%"@ =~= "100.00%"@);
}

/// A hundred, with two decimal places.
proof fn lemma_hundred()
    ensures
        pow10(2) == 100,
        decimal(10_000nat / pow10(2)) == seq!['1', '0', '0'],
        padded(10_000, 2) == seq!['0', '0'],
{
    assert(pow10(0) == 1);
    assert(pow10(1) == 10);
    assert(pow10(2) == 100);
    assert(digit_char(0) == '0' && digit_char(1) == '1');
    assert(decimal(1) == seq!['1']);
    assert(decimal(10) == seq!['1'].push('0'));
    assert(decimal(100) == seq!['1'].push('0').push('0'));
    assert(seq!['1'].push('0').push('0') =~= seq!['1', '0', '0']);
    assert(padded(100, 0) == Seq::<char>::empty());
    assert(padded(1_000, 1) == Seq::<char>::empty().push('0'));
    assert(padded(10_000, 2) == Seq::<char>::empty().push('0').push('0'));
    assert(Seq::<char>::empty().push('0').push('0') =~= seq!['0', '0']);
}

proof fn lemma_mined_monotone(circulating: nat, more: nat, maximum: nat)
    requires
        circulating <= more,
        maximum > 0,
    ensures
        fixed_point(mined_percent(circulating, maximum), 2) <= fixed_point(
            mined_percent(more, maximum),
            2,
        ),
{
    let (a, b) = (
        quotient(whole(circulating), whole(maximum)),
        quotient(whole(more), whole(maximum)),
    );
    lemma_ratio_monotone(circulating, more, maximum);
    law_product_monotone(whole(100), a, b);
    law_product_commutes(whole(100), a);
    law_product_commutes(whole(100), b);
    law_fixed_point_monotone(product(a, whole(100)), product(b, whole(100)), 2);
}

// Channel names.

/// A channel name is the start of the label and value that it was made of, and is
/// within the limit.
pub proof fn law_name_is_a_start(label: Seq<char>, value: Seq<char>)
    requires
        can_shorten(labelled(label, value)),
    ensures
        channel_name_text(label, value).is_prefix_of(labelled(label, value)),
        encode_utf8(channel_name_text(label, value)).len() <= NAME_LIMIT,
{
    let full = labelled(label, value);
    let bytes = encode_utf8(full);
    if bytes.len() > NAME_LIMIT {
        encode_utf8_valid_utf8(full);
        encode_utf8_decode_utf8(full);
        decode_utf8_split(bytes, NAME_LIMIT as int);
        valid_utf8_split(bytes, NAME_LIMIT as int);
        decode_utf8_encode_utf8(bytes.subrange(0, NAME_LIMIT as int));
    }
}

/// A channel name starts with its label, where that is an ASCII text within the limit.
pub proof fn law_name_starts_with_label(label: Seq<char>, value: Seq<char>)
    requires
        can_shorten(labelled(label, value)),
        is_ascii_chars(label),
        label.len() <= NAME_LIMIT,
    ensures
        label.is_prefix_of(channel_name_text(label, value)),
{
    let full = labelled(label, value);
    let name = channel_name_text(label, value);
    let bytes = encode_utf8(full);
    law_name_is_a_start(label, value);
    if bytes.len() > NAME_LIMIT {
        if name.len() < label.len() {
            assert forall|i: int| 0 <= i < name.len() implies '\0' <= #[trigger] name[i]
                <= '\u{7f}' by {
                assert(name[i] == label[i]);
            }
            is_ascii_chars_encode_utf8(name);
            encode_utf8_valid_utf8(full);
            valid_utf8_split(bytes, NAME_LIMIT as int);
            decode_utf8_encode_utf8(bytes.subrange(0, NAME_LIMIT as int));
        }
    }
    assert forall|i: int| 0 <= i < label.len() implies label[i] == #[trigger] name[i] by {
        assert(name[i] == full[i]);
    }
    assert(label =~= name.subrange(0, label.len() as int));
}

/// No label is the start of another.
pub proof fn law_labels_apart(i: int, j: int)
    requires
        0 <= i < 9,
        0 <= j < 9,
        i != j,
    ensures
        !labels()[i].is_prefix_of(labels()[j]),
{
    reveal_strlit("Network:");
    reveal_strlit("Block Time:");
    reveal_strlit("Block Reward:");
    reveal_strlit("Max Supply:");
    reveal_strlit("Circ Supply:");
    reveal_strlit("Net Hash:");
    reveal_strlit("Coins Mined:");
    reveal_strlit("Price:");
    reveal_strlit("Mcap:");
    let (a, b) = (labels()[i], labels()[j]);
    if a.is_prefix_of(b) {
        assert(a.len() <= b.len());
        assert forall|k: int| 0 <= k < a.len() implies a[k] == #[trigger] b[k] by {
            assert(b.subrange(0, a.len() as int)[k] == b[k]);
        }
        assert(a[0] == b[0] && a[1] == b[1] && a[2] == b[2] && a[3] == b[3] && a[4] == b[4]);
        if a.len() > 6 {
            assert(a[6] == b[6]);
        }
    }
}

/// Of the labels, only its own is the start of a channel name.
pub proof fn law_names_tell_labels_apart(i: int, j: int, value: Seq<char>)
    requires
        0 <= i < 9,
        0 <= j < 9,
        can_shorten(labelled(labels()[i], value)),
    ensures
        labels()[j].is_prefix_of(channel_name_text(labels()[i], value)) <==> i == j,
{
    lemma_labels_ascii();
    let name = channel_name_text(labels()[i], value);
    let (a, b) = (labels()[i], labels()[j]);
    law_name_starts_with_label(a, value);
    if i != j && b.is_prefix_of(name) {
        if a.len() <= b.len() {
            assert(a =~= b.subrange(0, a.len() as int)) by {
                assert forall|k: int| 0 <= k < a.len() implies a[k] == #[trigger] b[k] by {
                    assert(name.subrange(0, a.len() as int)[k] == name[k]);
                    assert(name.subrange(0, b.len() as int)[k] == name[k]);
                }
            }
            law_labels_apart(i, j);
        } else {
            assert(b =~= a.subrange(0, b.len() as int)) by {
                assert forall|k: int| 0 <= k < b.len() implies b[k] == #[trigger] a[k] by {
                    assert(name.subrange(0, a.len() as int)[k] == name[k]);
                    assert(name.subrange(0, b.len() as int)[k] == name[k]);
                }
            }
            law_labels_apart(j, i);
        }
    }
}

/// There are nine names, each within the limit and starting with its own label alone.
pub proof fn law_channel_names(snapshot: StatsSnapshot, i: int, j: int)
    requires
        snapshot.nameable(),
        0 <= i < 9,
        0 <= j < 9,
    ensures
        snapshot.names().len() == 9,
        snapshot.names()[i].0 == labels()[i],
        encode_utf8(snapshot.names()[i].1).len() <= NAME_LIMIT,
        labels()[j].is_prefix_of(snapshot.names()[i].1) <==> i == j,
{
    lemma_values_nameable(snapshot);
    let value = snapshot.values()[i];
    assert(can_shorten(labelled(labels()[i], value)));
    law_name_is_a_start(labels()[i], value);
    law_names_tell_labels_apart(i, j, value);
}

/// Without a report of the daemon every figure but the price is shown as `N/A`, and
/// without a price so are the price and the market capitalisation.
pub proof fn law_missing_figures(snapshot: StatsSnapshot, i: int)
    requires
        0 <= i < 9,
    ensures
        snapshot.xelis is None && i != 7 ==> snapshot.values()[i] == "N/A"@,
        snapshot.price is None && i >= 7 ==> snapshot.values()[i] == "N/A"@,
{
}

// Finding channels.

/// A voice channel of the category that was named for a label is found by that label,
/// whatever else the guild has; and what is found starts with the label.
pub proof fn law_named_channel_is_found(
    channels: Seq<ChannelView>,
    category_id: u64,
    i: int,
    value: Seq<char>,
    channel: ChannelView,
)
    requires
        0 <= i < 9,
        can_shorten(labelled(labels()[i], value)),
        channels.contains(channel),
        channel.kind == ChannelKind::Voice,
        channel.parent_id == Some(category_id),
        channel.name == channel_name_text(labels()[i], value),
    ensures
        first(channels, shows(category_id, labels()[i])) is Some,
        labels()[i].is_prefix_of(first(channels, shows(category_id, labels()[i]))->0.name),
{
    let pick = shows(category_id, labels()[i]);
    law_names_tell_labels_apart(i, i, value);
    lemma_first(channels, pick);
    let k = choose|k: int| 0 <= k < channels.len() && channels[k] == channel;
    assert(pick(channels[k]));
}

/// The order of the list decides only between several channels that are picked: in
/// another order something is found just as well, and the same where only one channel
/// is picked.
pub proof fn law_order_of_channels(
    channels: Seq<ChannelView>,
    reordered: Seq<ChannelView>,
    pick: spec_fn(ChannelView) -> bool,
)
    requires
        channels.to_multiset() == reordered.to_multiset(),
    ensures
        first(channels, pick) is None <==> first(reordered, pick) is None,
        (forall|a: ChannelView, b: ChannelView| #[trigger]
            channels.contains(a) && #[trigger] channels.contains(b) && pick(a) && pick(b) ==> a
                == b) ==> first(channels, pick) == first(reordered, pick),
{
    channels.to_multiset_ensures();
    reordered.to_multiset_ensures();
    lemma_first(channels, pick);
    lemma_first(reordered, pick);
    assert forall|c: ChannelView| channels.contains(c) <==> #[trigger] reordered.contains(c) by {
        assert(channels.contains(c) <==> channels.to_multiset().count(c) > 0);
        assert(reordered.contains(c) <==> reordered.to_multiset().count(c) > 0);
    }
    if let Some(c) = first(channels, pick) {
        assert(reordered.contains(c));
        let k = choose|k: int| 0 <= k < reordered.len() && reordered[k] == c;
        assert(pick(reordered[k]));
    }
    if let Some(c) = first(reordered, pick) {
        assert(channels.contains(c));
        let k = choose|k: int| 0 <= k < channels.len() && channels[k] == c;
        assert(pick(channels[k]));
    }
}

// Recorded ids.

/// A recorded channel is what is read back for its label, and no other label is
/// affected. Zero is read back as no id.
pub proof fn law_recorded_channel(state: StateView, label: Seq<char>, id: u64, other: Seq<char>)
    ensures
        state.with_channel(label, id).channel_id(label) == nonzero(Some(id)),
        other != label ==> state.with_channel(label, id).channel_id(other) == state.channel_id(
            other,
        ),
        state.with_channel(label, id).category_id == state.category_id,
        state.with_category(id).channel_id(other) == state.channel_id(other),
{
}

/// The order in which recorded ids are listed does not matter.
pub proof fn law_order_of_entries(entries: Seq<(String, u64)>, reordered: Seq<(String, u64)>)
    requires
        labels_distinct(entries),
        labels_distinct(reordered),
        entries.to_multiset() == reordered.to_multiset(),
    ensures
        entries_map(entries) == entries_map(reordered),
{
    entries.to_multiset_ensures();
    reordered.to_multiset_ensures();
    lemma_entries_subset(entries, reordered);
    lemma_entries_subset(reordered, entries);
    assert(entries_map(entries) =~= entries_map(reordered));
}

proof fn lemma_entries_subset(a: Seq<(String, u64)>, b: Seq<(String, u64)>)
    requires
        labels_distinct(a),
        labels_distinct(b),
        a.to_multiset() == b.to_multiset(),
    ensures
        forall|label: Seq<char>| #[trigger]
            entries_map(a).contains_key(label) ==> entries_map(b).contains_key(label)
                && entries_map(b)[label] == entries_map(a)[label],
{
    a.to_multiset_ensures();
    b.to_multiset_ensures();
    lemma_entries_map(a);
    lemma_entries_map(b);
    assert forall|label: Seq<char>| #[trigger]
        entries_map(a).contains_key(label) implies entries_map(b).contains_key(label)
        && entries_map(b)[label] == entries_map(a)[label] by {
        let i = choose|i: int| 0 <= i < a.len() && #[trigger] a[i].0@ == label;
        assert(a.contains(a[i]));
        assert(b.to_multiset().count(a[i]) > 0);
        let j = choose|j: int| 0 <= j < b.len() && b[j] == a[i];
        assert(b[j].0@ == label);
    }
}

// The category.

/// A configured category is used or refused; no recorded one and no other one takes
/// its place.
pub proof fn law_configured_category_decides(
    configured: Option<u64>,
    title: Seq<char>,
    channels: Seq<ChannelView>,
    recorded: Option<u64>,
    other: Option<u64>,
)
    requires
        nonzero(configured) is Some,
    ensures
        category_step(configured, title, channels, recorded) == category_step(
            configured,
            title,
            channels,
            other,
        ),
        ({
            let id = configured->0;
            match category_step(configured, title, channels, recorded) {
                Ok(CategoryStep::Keep { id: used }) => used == id,
                Ok(CategoryStep::Rename { id: used }) => used == id,
                Ok(CategoryStep::Create) => false,
                Err(CategoryError::NotACategory { id: refused }) => refused == id,
                Err(CategoryError::NotFound { id: refused }) => refused == id,
            }
        }),
{
}

/// A category that is kept or renamed is a category of the guild, and a kept one has
/// the title.
pub proof fn law_used_category_exists(
    configured: Option<u64>,
    title: Seq<char>,
    channels: Seq<ChannelView>,
    recorded: Option<u64>,
)
    ensures
        category_step(configured, title, channels, recorded) matches Ok(
            CategoryStep::Keep { id },
        ) ==> exists|c: ChannelView| #[trigger]
            channels.contains(c) && c.id == id && c.kind == ChannelKind::Category && c.name
                == title,
        category_step(configured, title, channels, recorded) matches Ok(
            CategoryStep::Rename { id },
        ) ==> exists|c: ChannelView| #[trigger]
            channels.contains(c) && c.id == id && c.kind == ChannelKind::Category && c.name
                != title,
{
    lemma_first(channels, titled(title));
    if let Some(id) = wanted_category(configured, recorded) {
        lemma_first(channels, has_id(id));
    }
}

/// Once the category that was settled on is in the guild under its title, it is kept
/// and nothing has to be written for it.
pub proof fn law_settled_category_is_kept(
    configured: Option<u64>,
    title: Seq<char>,
    channels: Seq<ChannelView>,
    state: StateView,
    id: u64,
)
    requires
        id != 0,
        nonzero(configured) is None || configured == Some(id),
        first(channels, has_id(id)) matches Some(c) && c.kind == ChannelKind::Category && c.name
            == title,
    ensures
        category_step(configured, title, channels, state.with_category(id).category_id) == Ok::<
            CategoryStep,
            CategoryError,
        >(CategoryStep::Keep { id }),
        state.with_category(id).with_category(id) == state.with_category(id),
{
}

// The update loop.

/// The guild shows the name of a label: its recorded channel is there, has the name
/// and is in the category.
pub open spec fn up_to_date(state: StateView, round: RoundView, k: int) -> bool {
    let (label, name) = round.names[k];
    match state.channel_id(label) {
        Some(id) => match first(round.channels, has_id(id)) {
            Some(channel) => !needs_edit(channel, round.category_id, name),
            None => false,
        },
        None => false,
    }
}

/// Where the guild shows every name already, nothing is edited or created, no id is
/// recorded or turns out to be gone, and nothing is written on that account.
pub proof fn law_nothing_to_do(setup: Setup, state: StateView, round: RoundView)
    requires
        forall|k: int| round.next <= k < round.names.len() ==> #[trigger] up_to_date(state, round, k),
    ensures
        !round.changed ==> setup.proceed(state, round) == setup.pause(state, None),
        round.changed ==> setup.proceed(state, round) == (StepView {
            updater: setup.at(state, PhaseView::Saving),
            action: ActionView::SaveState { path: setup.config.state_path, state },
            error: None,
            gone: seq![],
        }),
    decreases round.names.len() - round.next,
{
    if round.next < round.names.len() {
        assert(up_to_date(state, round, round.next as int));
        let after = round.advanced(false);
        assert forall|k: int| after.next <= k < after.names.len() implies #[trigger] up_to_date(
            state,
            after,
            k,
        ) by {
            assert(up_to_date(state, round, k));
        }
        law_nothing_to_do(setup, state, after);
    }
}

/// The first `count` labels have a recorded channel.
pub open spec fn recorded(state: StateView, count: nat) -> bool {
    forall|k: int| 0 <= k < count ==> state.channel_id(#[trigger] labels()[k]) is Some
}

/// No channel of the guild has the id zero.
pub open spec fn ids_nonzero(channels: Seq<ChannelView>) -> bool {
    forall|k: int| 0 <= k < channels.len() ==> (#[trigger] channels[k]).id != 0
}

/// The ids in an outcome are those of channels, which are not zero.
pub open spec fn event_ids_nonzero(event: EventView) -> bool {
    match event {
        EventView::Channels { channels } => ids_nonzero(channels),
        EventView::Created { id } => id != 0,
        _ => true,
    }
}

/// The category is recorded.
pub open spec fn category_recorded(state: StateView, category_id: u64) -> bool {
    category_id != 0 && state.category_id == Some(category_id)
}

/// A round has the nine labels, its category is recorded, and so are the channels of
/// the labels that are done.
pub open spec fn round_invariant(state: StateView, round: RoundView) -> bool {
    &&& ids_nonzero(round.channels)
    &&& category_recorded(state, round.category_id)
    &&& round.names.len() == 9
    &&& forall|k: int| 0 <= k < 9 ==> (#[trigger] round.names[k]).0 == labels()[k]
    &&& round.next <= 9
    &&& recorded(state, round.next)
}

/// What holds of the machine between any two steps.
pub open spec fn sound(updater: UpdaterView) -> bool {
    let state = updater.state;
    match updater.phase {
        PhaseView::RenamingCategory { channels, id } => ids_nonzero(channels) && id != 0,
        PhaseView::CreatingCategory { channels } => ids_nonzero(channels),
        PhaseView::FetchingDaemonStats { channels, category_id, .. } => {
            &&& ids_nonzero(channels)
            &&& category_recorded(state, category_id)
        },
        PhaseView::FetchingPrice { channels, category_id, .. } => {
            &&& ids_nonzero(channels)
            &&& category_recorded(state, category_id)
        },
        PhaseView::Editing { round, id, record } => {
            &&& round_invariant(state, round)
            &&& round.next < 9
            &&& id != 0
            &&& record || state.channel_id(labels()[round.next as int]) == Some(id)
        },
        PhaseView::Creating { round } => round_invariant(state, round) && round.next < 9,
        PhaseView::Saving => complete(state),
        _ => true,
    }
}

/// The category and the channel of every label are recorded.
pub open spec fn complete(state: StateView) -> bool {
    &&& nonzero(state.category_id) is Some
    &&& recorded(state, 9)
}

/// Recording the channel of the next label keeps what is known of a round.
proof fn lemma_round_invariant_advanced(state: StateView, round: RoundView, id: u64, record: bool)
    requires
        round_invariant(state, round),
        round.next < 9,
        id != 0,
        record || state.channel_id(labels()[round.next as int]) is Some,
    ensures
        round_invariant(
            if record {
                state.with_channel(labels()[round.next as int], id)
            } else {
                state
            },
            round.advanced(record),
        ),
{
    let after = if record {
        state.with_channel(labels()[round.next as int], id)
    } else {
        state
    };
    assert forall|k: int| 0 <= k < round.next + 1 implies after.channel_id(
        #[trigger] labels()[k],
    ) is Some by {
        if k < round.next {
            assert(state.channel_id(labels()[k]) is Some);
        }
    }
}

/// A round that goes on keeps the invariant and the category, and ends only when all
/// ids are recorded.
proof fn lemma_proceed_invariant(setup: Setup, state: StateView, round: RoundView)
    requires
        round_invariant(state, round),
    ensures
        sound(setup.proceed(state, round).updater),
        setup.proceed(state, round).updater.state.category_id == Some(round.category_id),
        setup.proceed(state, round).updater.phase is Sleeping ==> complete(
            setup.proceed(state, round).updater.state,
        ),
    decreases 9 - round.next,
{
    if round.next < 9 {
        let (label, name) = round.names[round.next as int];
        assert(round.names[round.next as int].0 == labels()[round.next as int]);
        if let Some(id) = state.channel_id(label) {
            lemma_first(round.channels, has_id(id));
        }
        lemma_first(round.channels, shows(round.category_id, label));
        match channel_step(round.channels, round.category_id, state, label, name) {
            ChannelStep::Keep { id, record } => {
                lemma_round_invariant_advanced(state, round, id, record);
                let kept = if record {
                    state.with_channel(label, id)
                } else {
                    state
                };
                lemma_proceed_invariant(setup, kept, round.advanced(record));
            },
            _ => {},
        }
    }
}

/// The category of a step is not zero.
pub proof fn lemma_category_nonzero(
    configured: Option<u64>,
    title: Seq<char>,
    channels: Seq<ChannelView>,
    recorded_id: Option<u64>,
)
    requires
        ids_nonzero(channels),
    ensures
        category_step(configured, title, channels, recorded_id) matches Ok(
            CategoryStep::Keep { id },
        ) ==> id != 0,
        category_step(configured, title, channels, recorded_id) matches Ok(
            CategoryStep::Rename { id },
        ) ==> id != 0,
{
    lemma_first(channels, titled(title));
}

/// The recorded ids and the round with which a step goes on, where it goes on with one:
/// the figures are fetched, or the next label is done.
pub open spec fn resumed(updater: UpdaterView, event: EventView) -> Option<(StateView, RoundView)> {
    let state = updater.state;
    match (updater.phase, event) {
        (PhaseView::FetchingPrice { channels, category_id, changed, xelis }, _) => {
            let price = match event {
                EventView::PriceFetched { price } => Some(price),
                _ => None,
            };
            let names = (StatsSnapshot { xelis, price }).names();
            Some((state, RoundView { channels, category_id, changed, names, next: 0 }))
        },
        (PhaseView::Editing { round, id, record }, EventView::Done) => Some(
            (
                if record {
                    state.with_channel(round.names[round.next as int].0, id)
                } else {
                    state
                },
                round.advanced(record),
            ),
        ),
        (PhaseView::Creating { round }, EventView::Created { id }) => Some(
            (
                state.with_channel(round.names[round.next as int].0, id),
                round.advanced(true),
            ),
        ),
        _ => None,
    }
}

/// A step that goes on with a round goes on as the round does, and what is known of the
/// round holds.
pub proof fn lemma_resumed(updater: UpdaterView, event: EventView)
    ensures
        resumed(updater, event) matches Some((state, round)) ==> updater.step(event)
            == updater.setup.proceed(state, round),
        resumed(updater, event) matches Some((state, round)) ==> (sound(updater)
            && event_ids_nonzero(event) ==> round_invariant(state, round)),
{
    if sound(updater) && event_ids_nonzero(event) {
        match (updater.phase, event) {
            (PhaseView::Editing { round, id, record }, EventView::Done) => {
                assert(round.names[round.next as int].0 == labels()[round.next as int]);
                lemma_round_invariant_advanced(updater.state, round, id, record);
            },
            (PhaseView::Creating { round }, EventView::Created { id }) => {
                assert(round.names[round.next as int].0 == labels()[round.next as int]);
                lemma_round_invariant_advanced(updater.state, round, id, true);
            },
            _ => {},
        }
    }
}

/// The machine starts in a state in which the invariant holds, and keeps it, whatever
/// the outcomes of its actions are.
pub proof fn law_invariant(setup: Setup, updater: UpdaterView, event: EventView)
    requires
        sound(updater),
        event_ids_nonzero(event),
    ensures
        sound(setup.at(StateView::nothing(), PhaseView::Loading)),
        sound(updater.step(event).updater),
{
    lemma_resumed(updater, event);
    match resumed(updater, event) {
        Some((state, round)) => {
            lemma_proceed_invariant(updater.setup, state, round);
        },
        None => {
            if let EventView::Channels { channels } = event {
                let config = updater.setup.config;
                lemma_category_nonzero(
                    config.category_id,
                    config.category_title@,
                    channels,
                    updater.state.category_id,
                );
            }
        },
    }
}

/// When ids are to be written, the category and the channel of every label are among
/// them, and they are the ids that the machine has recorded. All of them are recorded
/// too when an update ends after its last label with nothing to write, and when they
/// were to be written, whether that succeeded or not. In a round the recorded category
/// is the one in use.
pub proof fn law_written_ids_are_complete(updater: UpdaterView, event: EventView)
    requires
        sound(updater),
        event_ids_nonzero(event),
    ensures
        updater.step(event).action matches ActionView::SaveState { state, .. } ==> complete(state)
            && state == updater.step(event).updater.state,
        resumed(updater, event) matches Some((state, round)) ==> updater.step(
            event,
        ).updater.state.category_id == Some(round.category_id),
        resumed(updater, event) is Some && updater.step(event).action is Sleep ==> complete(
            updater.step(event).updater.state,
        ),
        updater.phase is Saving ==> complete(updater.step(event).updater.state),
{
    law_invariant(updater.setup, updater, event);
    lemma_action_matches_phase(updater, event);
    law_actions_are_as_configured(updater, event);
    lemma_resumed(updater, event);
    if let Some((state, round)) = resumed(updater, event) {
        lemma_proceed_invariant(updater.setup, state, round);
    }
}

/// The entry of a label, where there is one.
pub open spec fn entry(state: StateView, label: Seq<char>) -> Option<u64> {
    if state.channels.contains_key(label) {
        Some(state.channels[label])
    } else {
        None
    }
}

/// The entries of all labels but the stats labels are the same.
pub open spec fn same_elsewhere(a: StateView, b: StateView) -> bool {
    forall|label: Seq<char>| !labels().contains(label) ==> #[trigger] entry(a, label) == entry(b, label)
}

proof fn lemma_proceed_elsewhere(setup: Setup, state: StateView, round: RoundView)
    requires
        round_invariant(state, round),
    ensures
        same_elsewhere(state, setup.proceed(state, round).updater.state),
        !(setup.proceed(state, round).updater.phase is Loading),
    decreases 9 - round.next,
{
    if round.next < 9 {
        let (label, name) = round.names[round.next as int];
        assert(round.names[round.next as int].0 == labels()[round.next as int]);
        if let Some(id) = state.channel_id(label) {
            lemma_first(round.channels, has_id(id));
        }
        lemma_first(round.channels, shows(round.category_id, label));
        match channel_step(round.channels, round.category_id, state, label, name) {
            ChannelStep::Keep { id, record } => {
                lemma_round_invariant_advanced(state, round, id, record);
                let kept = if record {
                    state.with_channel(label, id)
                } else {
                    state
                };
                assert(same_elsewhere(state, kept));
                lemma_proceed_elsewhere(setup, kept, round.advanced(record));
                let end = setup.proceed(state, round).updater.state;
                assert forall|other: Seq<char>| !labels().contains(other) implies #[trigger] entry(
                    state,
                    other,
                ) == entry(end, other) by {
                    assert(entry(kept, other) == entry(end, other));
                }
            },
            _ => {},
        }
    }
}

/// The machine after a run of outcomes.
pub open spec fn run(updater: UpdaterView, events: Seq<EventView>) -> UpdaterView
    decreases events.len(),
{
    if events.len() == 0 {
        updater
    } else {
        run(updater, events.drop_last()).step(events.last()).updater
    }
}

/// Once the ids are read, the entries of labels that are not shown stay as they are,
/// whatever the outcomes of the actions are.
pub proof fn law_other_entries_stay(updater: UpdaterView, events: Seq<EventView>)
    requires
        sound(updater),
        !(updater.phase is Loading),
        forall|i: int| 0 <= i < events.len() ==> event_ids_nonzero(#[trigger] events[i]),
    ensures
        same_elsewhere(updater.state, run(updater, events).state),
        sound(run(updater, events)),
        !(run(updater, events).phase is Loading),
    decreases events.len(),
{
    if events.len() > 0 {
        let before = run(updater, events.drop_last());
        let event = events.last();
        assert forall|i: int| 0 <= i < events.drop_last().len() implies event_ids_nonzero(
            #[trigger] events.drop_last()[i],
        ) by {
            assert(event_ids_nonzero(events[i]));
        }
        assert(event_ids_nonzero(events[events.len() - 1]));
        law_other_entries_stay(updater, events.drop_last());
        law_invariant(updater.setup, before, event);
        lemma_resumed(before, event);
        let after = before.step(event).updater.state;
        if let Some((state, round)) = resumed(before, event) {
            lemma_proceed_elsewhere(before.setup, state, round);
            assert(same_elsewhere(before.state, state)) by {
                match before.phase {
                    PhaseView::Editing { round, .. } => {
                        assert(round.names[round.next as int].0 == labels()[round.next as int]);
                    },
                    PhaseView::Creating { round } => {
                        assert(round.names[round.next as int].0 == labels()[round.next as int]);
                    },
                    _ => {},
                }
            }
            assert forall|label: Seq<char>| !labels().contains(label) implies #[trigger] entry(
                before.state,
                label,
            ) == entry(after, label) by {
                assert(entry(state, label) == entry(after, label));
            }
        }
        assert forall|label: Seq<char>| !labels().contains(label) implies #[trigger] entry(
            updater.state,
            label,
        ) == entry(after, label) by {
            assert(entry(before.state, label) == entry(after, label));
        }
    }
}

/// The action that a step asks for is the one whose outcome the machine then waits for.
pub open spec fn awaits(step: StepView) -> bool {
    match (step.action, step.updater.phase) {
        (ActionView::LoadState { .. }, PhaseView::Loading) => true,
        (ActionView::ListChannels { .. }, PhaseView::Listing) => true,
        (ActionView::RenameCategory { id, .. }, PhaseView::RenamingCategory { id: i, .. }) => id
            == i,
        (ActionView::CreateCategory { .. }, PhaseView::CreatingCategory { .. }) => true,
        (ActionView::FetchDaemonStats, PhaseView::FetchingDaemonStats { .. }) => true,
        (ActionView::FetchPrice { .. }, PhaseView::FetchingPrice { .. }) => true,
        (ActionView::EditChannel { id, .. }, PhaseView::Editing { id: i, .. }) => id == i,
        (ActionView::CreateChannel { .. }, PhaseView::Creating { .. }) => true,
        (ActionView::SaveState { .. }, PhaseView::Saving) => true,
        (ActionView::Sleep { .. }, PhaseView::Sleeping) => true,
        _ => false,
    }
}

/// What a round asks for is needed. A channel is edited where the guild has it with
/// another name or outside the category. A channel is created where the guild has
/// neither the one that is recorded for the label nor one that shows the label in the
/// category.
pub open spec fn needed(step: StepView) -> bool {
    match (step.action, step.updater.phase) {
        (
            ActionView::EditChannel { id, name, category_id },
            PhaseView::Editing { round, .. },
        ) => {
            &&& category_id == round.category_id
            &&& round.next < round.names.len()
            &&& name == round.names[round.next as int].1
            &&& exists|c: ChannelView| #[trigger]
                round.channels.contains(c) && c.id == id && needs_edit(c, category_id, name)
        },
        (
            ActionView::CreateChannel { name, category_id, .. },
            PhaseView::Creating { round },
        ) => {
            let label = round.names[round.next as int].0;
            &&& category_id == round.category_id
            &&& round.next < round.names.len()
            &&& name == round.names[round.next as int].1
            &&& forall|c: ChannelView| #[trigger]
                round.channels.contains(c) ==> step.updater.state.channel_id(label) != Some(c.id)
                    && !(c.kind == ChannelKind::Voice && c.parent_id == Some(category_id)
                    && label.is_prefix_of(c.name))
        },
        _ => true,
    }
}

#[verifier::spinoff_prover]
proof fn lemma_proceed_awaits(setup: Setup, state: StateView, round: RoundView)
    ensures
        awaits(setup.proceed(state, round)),
        needed(setup.proceed(state, round)),
    decreases round.names.len() - round.next,
{
    if round.next < round.names.len() {
        let (label, name) = round.names[round.next as int];
        let pick = shows(round.category_id, label);
        if let Some(id) = state.channel_id(label) {
            lemma_first(round.channels, has_id(id));
        }
        lemma_first(round.channels, pick);
        match channel_step(round.channels, round.category_id, state, label, name) {
            ChannelStep::Keep { id, record } => {
                let kept = if record {
                    state.with_channel(label, id)
                } else {
                    state
                };
                lemma_proceed_awaits(setup, kept, round.advanced(record));
                assert(needed(setup.proceed(state, round)));
            },
            ChannelStep::Edit { id, record } => {
                let c = if record {
                    first(round.channels, pick)->0
                } else {
                    first(round.channels, has_id(state.channel_id(label)->0))->0
                };
                assert(round.channels.contains(c) && c.id == id);
                assert(needs_edit(c, round.category_id, name));
                let step = setup.proceed(state, round);
                assert(step.action == ActionView::EditChannel {
                    id,
                    name,
                    category_id: round.category_id,
                });
                assert(step.updater.phase == PhaseView::Editing { round, id, record });
                assert(exists|d: ChannelView| #[trigger]
                    round.channels.contains(d) && d.id == id && needs_edit(
                        d,
                        round.category_id,
                        name,
                    ));
                assert(needed(step));
            },
            ChannelStep::Create => {
                assert forall|c: ChannelView| #[trigger]
                    round.channels.contains(c) implies state.channel_id(label) != Some(c.id) && !(
                c.kind == ChannelKind::Voice && c.parent_id == Some(round.category_id)
                    && label.is_prefix_of(c.name)) by {
                    let k = choose|k: int|
                        0 <= k < round.channels.len() && round.channels[k] == c;
                    if let Some(id) = state.channel_id(label) {
                        let by_id = has_id(id);
                        assert(!by_id(round.channels[k]));
                    }
                    assert(!pick(round.channels[k]));
                }
                let step = setup.proceed(state, round);
                assert(step.updater.phase == PhaseView::Creating { round });
                assert(step.updater.state == state);
                assert(needed(setup.proceed(state, round)));
            },
        }
    }
}

proof fn lemma_action_matches_phase(updater: UpdaterView, event: EventView)
    ensures
        awaits(updater.step(event)),
        needed(updater.step(event)),
{
    lemma_resumed(updater, event);
    if let Some((state, round)) = resumed(updater, event) {
        lemma_proceed_awaits(updater.setup, state, round);
    }
}

/// After every step the machine waits for the outcome of the action it asked for.
pub proof fn law_waits_for_its_action(updater: UpdaterView, event: EventView)
    ensures
        awaits(updater.step(event)),
{
    lemma_action_matches_phase(updater, event);
}

/// A channel is edited or created only where that is needed.
pub proof fn law_actions_are_needed(updater: UpdaterView, event: EventView)
    ensures
        needed(updater.step(event)),
{
    lemma_action_matches_phase(updater, event);
}

/// Where the recorded category is in the guild under its title and every name is shown
/// already, an update lists the channels, fetches the figures, and changes nothing: no
/// channel is touched and no id is written.
pub proof fn law_quiet_update(
    updater: UpdaterView,
    channels: Seq<ChannelView>,
    category_id: u64,
    report: EventView,
    quote: EventView,
    snapshot: StatsSnapshot,
)
    requires
        updater.phase is Listing,
        category_recorded(updater.state, category_id),
        nonzero(updater.setup.config.category_id) is None || updater.setup.config.category_id
            == Some(category_id),
        first(channels, has_id(category_id)) matches Some(c) && c.kind == ChannelKind::Category
            && c.name == updater.setup.config.category_title@,
        snapshot.xelis == (match report {
            EventView::DaemonStats { xelis } => Some(xelis),
            _ => None,
        }),
        snapshot.price == (match quote {
            EventView::PriceFetched { price } => Some(price),
            _ => None,
        }),
        forall|k: int|
            0 <= k < 9 ==> #[trigger] up_to_date(
                updater.state,
                RoundView {
                    channels,
                    category_id,
                    changed: false,
                    names: snapshot.names(),
                    next: 0,
                },
                k,
            ),
    ensures
        ({
            let one = updater.step(EventView::Channels { channels });
            let two = one.updater.step(report);
            let three = two.updater.step(quote);
            &&& one.action is FetchDaemonStats
            &&& two.action is FetchPrice
            &&& three == updater.setup.pause(updater.state, None)
        }),
{
    let state = updater.state;
    law_settled_category_is_kept(
        updater.setup.config.category_id,
        updater.setup.config.category_title@,
        channels,
        state,
        category_id,
    );
    assert(state.with_category(category_id) == state);
    let round = RoundView {
        channels,
        category_id,
        changed: false,
        names: snapshot.names(),
        next: 0,
    };
    law_nothing_to_do(updater.setup, state, round);
}

/// A failed action on the guild, or a failed write, ends the update: the recorded ids
/// stay as they are and the machine waits.
pub proof fn law_failure_ends_update(updater: UpdaterView)
    requires
        !(updater.phase is Loading),
        !(updater.phase is FetchingDaemonStats),
        !(updater.phase is FetchingPrice),
        !(updater.phase is Sleeping),
    ensures
        updater.step(EventView::Failed) == updater.setup.pause(updater.state, None),
{
}

/// Ids that cannot be read, or that were never written, count as none, and the first
/// update starts.
pub proof fn law_unreadable_ids_count_as_none(updater: UpdaterView)
    requires
        updater.phase is Loading,
    ensures
        updater.step(EventView::Failed) == updater.setup.list(StateView::nothing()),
        updater.step(EventView::Loaded { state: None }) == updater.setup.list(
            StateView::nothing(),
        ),
{
}

/// The action of a step is on the configured guild, with the configured title, endpoint,
/// file and interval, and what is to be written is what the machine has recorded.
pub open spec fn as_configured(step: StepView) -> bool {
    let setup = step.updater.setup;
    let config = setup.config;
    match step.action {
        ActionView::LoadState { path } => path == config.state_path,
        ActionView::ListChannels { guild_id } => guild_id == setup.guild_id,
        ActionView::RenameCategory { title, .. } => title == config.category_title@,
        ActionView::CreateCategory { guild_id, title } => {
            &&& guild_id == setup.guild_id
            &&& title == config.category_title@
        },
        ActionView::FetchPrice { url } => url == config.price_url@,
        ActionView::CreateChannel { guild_id, .. } => guild_id == setup.guild_id,
        ActionView::SaveState { path, state } => {
            &&& path == config.state_path
            &&& state == step.updater.state
        },
        ActionView::Sleep { interval } => interval
            == config.refresh_interval.spec_at_least_a_second(),
        _ => true,
    }
}

/// Every action is as configured, and the settings never change.
pub proof fn law_actions_are_as_configured(updater: UpdaterView, event: EventView)
    ensures
        as_configured(updater.step(event)),
        updater.step(event).updater.setup == updater.setup,
{
    lemma_resumed(updater, event);
    if let Some((state, round)) = resumed(updater, event) {
        lemma_round_as_configured(updater.setup, state, round);
    }
}

/// When the machine waits, it waits for the configured interval, or for a second where
/// that is shorter.
pub proof fn law_waits_a_second(updater: UpdaterView, event: EventView)
    ensures
        updater.step(event).action matches ActionView::Sleep { interval } ==> interval
            == updater.setup.config.refresh_interval.spec_at_least_a_second() && interval.total()
            >= 1_000_000_000,
{
    law_actions_are_as_configured(updater, event);
}

/// An update starts only at first, when the ids were read, and after a wait: between two
/// updates the machine waits.
pub proof fn law_waits_between_updates(updater: UpdaterView, event: EventView)
    ensures
        updater.step(event).action is ListChannels <==> updater.phase is Loading
            || updater.phase is Sleeping,
        updater.step(event).updater.phase is Sleeping <==> updater.step(event).action is Sleep,
        !(updater.step(event).updater.phase is Loading),
{
    lemma_action_matches_phase(updater, event);
    lemma_resumed(updater, event);
    if let Some((state, round)) = resumed(updater, event) {
        lemma_round_as_configured(updater.setup, state, round);
    }
}

proof fn lemma_round_as_configured(setup: Setup, state: StateView, round: RoundView)
    ensures
        as_configured(setup.proceed(state, round)),
        setup.proceed(state, round).updater.setup == setup,
        !(setup.proceed(state, round).action is LoadState),
        !(setup.proceed(state, round).action is ListChannels),
    decreases round.names.len() - round.next,
{
    if round.next < round.names.len() {
        let (label, name) = round.names[round.next as int];
        match channel_step(round.channels, round.category_id, state, label, name) {
            ChannelStep::Keep { id, record } => {
                let kept = if record {
                    state.with_channel(label, id)
                } else {
                    state
                };
                lemma_round_as_configured(setup, kept, round.advanced(record));
            },
            _ => {},
        }
    }
}

} // verus!
