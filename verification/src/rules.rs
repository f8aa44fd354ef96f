//! The rules by which names, channels, the category, prices and intervals are chosen, in
//! terms of what they are chosen from.
use crate::amounts::{
    block_reward_text, circulating_supply_text, market_cap_text, max_supply_text, mined_text,
    price_text, seconds_text,
};
use crate::category::{category_step, gone_category, CategoryError, CategoryStep};
use crate::chain::XelisStatsSnapshot;
use crate::channels::{
    channel_step, first, gone_channel, has_id, listed, needs_edit, shows, titled, viewed,
    ChannelKind, ChannelStep, ChannelView, GuildChannel,
};
use crate::config::Interval;
use crate::decimal::decimal;
use crate::names::{can_shorten, channel_name_text, labelled};
use crate::price::Price;
use crate::quote::{
    lookup_view, node_view, price_view, quote_view, quoted, quoted_in, JsonNode, NodeView, Quote,
    QuoteError, QuoteErrorView, QuoteView,
};
use crate::readings::{is_plain, law_decimal_read_back, number};
use crate::snapshot::{rows, xelis_nameable, StatsSnapshot};
use crate::state::{entries_map, labels_distinct, StateView};
use crate::updater::{told, Gone, GoneView};
use vstd::prelude::*;
use vstd::utf8::{
    decode_utf8_encode_utf8, encode_utf8, encode_utf8_valid_utf8, is_char_boundary,
    valid_utf8_split,
};

verus! {

// Channel names.

/// The bytes of a label, a space and a value.
pub open spec fn name_bytes(label: Seq<char>, value: Seq<char>) -> Seq<u8> {
    encode_utf8(label + seq![' '] + value)
}

/// A channel name is the label, a space and the value, whole where that is a hundred bytes
/// at most, else its first hundred bytes.
pub proof fn law_name_is_the_first_hundred_bytes(label: Seq<char>, value: Seq<char>)
    requires
        name_bytes(label, value).len() <= 100 || is_char_boundary(name_bytes(label, value), 100),
    ensures
        can_shorten(labelled(label, value)),
        name_bytes(label, value).len() <= 100 ==> channel_name_text(label, value) == label + seq![
            ' ',
        ] + value,
        name_bytes(label, value).len() > 100 ==> encode_utf8(channel_name_text(label, value))
            == name_bytes(label, value).take(100),
{
    lemma_labelled(label, value);
    let bytes = name_bytes(label, value);
    if bytes.len() > 100 {
        encode_utf8_valid_utf8(label + seq![' '] + value);
        valid_utf8_split(bytes, 100);
        decode_utf8_encode_utf8(bytes.subrange(0, 100));
        assert(bytes.subrange(0, 100) =~= bytes.take(100));
    }
}

/// A name cannot be made only where a character lies across the hundredth byte.
pub proof fn law_names_that_cannot_be_cut(label: Seq<char>, value: Seq<char>)
    ensures
        !can_shorten(labelled(label, value)) <==> name_bytes(label, value).len() > 100
            && !is_char_boundary(name_bytes(label, value), 100),
{
    lemma_labelled(label, value);
}

proof fn lemma_labelled(label: Seq<char>, value: Seq<char>)
    ensures
        labelled(label, value) == label + seq![' '] + value,
{
    reveal_strlit(" ");
    assert(" "@ =~= seq![' ']);
}

/// A report can be shown unless the network's name or the hash rate has a character across
/// the hundredth byte of its channel name.
pub proof fn law_reports_that_can_be_shown(xelis: XelisStatsSnapshot, price: Option<Price>)
    ensures
        xelis_nameable(xelis) <==> {
            let network = name_bytes("Network:"@, xelis.info.network@);
            let rate = name_bytes("Net Hash:"@, xelis.difficulty.hashrate_formatted@);
            &&& network.len() <= 100 || is_char_boundary(network, 100)
            &&& rate.len() <= 100 || is_char_boundary(rate, 100)
        },
        (StatsSnapshot { xelis: Some(xelis), price }).nameable() <==> xelis_nameable(xelis),
        (StatsSnapshot { xelis: None, price }).nameable(),
{
    law_names_that_cannot_be_cut("Network:"@, xelis.info.network@);
    law_names_that_cannot_be_cut("Net Hash:"@, xelis.difficulty.hashrate_formatted@);
}

// The rows.

/// A row is a label and the channel name of the value under it.
pub open spec fn is_row(row: (Seq<char>, Seq<char>), label: Seq<char>, value: Seq<char>) -> bool {
    row.0 == label && row.1 == channel_name_text(label, value)
}

/// With a report each row shows the report's own figure, and so does the price's row. The
/// share that is mined is not available where the maximum supply is zero; the market
/// capitalisation is not available without a price.
pub proof fn law_rows_show_the_report(xelis: XelisStatsSnapshot, price: Option<Price>)
    ensures
        ({
            let names = (StatsSnapshot { xelis: Some(xelis), price }).names();
            let info = xelis.info;
            &&& names.len() == 9
            &&& is_row(names[0], "Network:"@, info.network@)
            &&& is_row(names[1], "Block Time:"@, seconds_text(info.average_block_time as nat))
            &&& is_row(names[2], "Block Reward:"@, block_reward_text(info.block_reward as nat))
            &&& is_row(names[3], "Max Supply:"@, max_supply_text(info.maximum_supply as nat))
            &&& is_row(
                names[4],
                "Circ Supply:"@,
                circulating_supply_text(info.circulating_supply as nat),
            )
            &&& is_row(names[5], "Net Hash:"@, xelis.difficulty.hashrate_formatted@)
            &&& info.maximum_supply == 0 ==> is_row(names[6], "Coins Mined:"@, "N/A"@)
            &&& info.maximum_supply != 0 ==> is_row(
                names[6],
                "Coins Mined:"@,
                mined_text(info.circulating_supply as nat, info.maximum_supply as nat),
            )
            &&& price is None ==> is_row(names[7], "Price:"@, "N/A"@) && is_row(
                names[8],
                "Mcap:"@,
                "N/A"@,
            )
            &&& price matches Some(p) ==> is_row(names[7], "Price:"@, price_text(p@)) && is_row(
                names[8],
                "Mcap:"@,
                market_cap_text(info.circulating_supply as nat, p@),
            )
        }),
{
    let names = (StatsSnapshot { xelis: Some(xelis), price }).names();
    assert(names[6].0 == "Coins Mined:"@ && names[7].0 == "Price:"@ && names[8].0 == "Mcap:"@);
}

/// Without a report only the price is available, where there is one.
pub proof fn law_rows_without_a_report(price: Option<Price>)
    ensures
        ({
            let names = (StatsSnapshot { xelis: None, price }).names();
            &&& names.len() == 9
            &&& is_row(names[0], "Network:"@, "N/A"@)
            &&& is_row(names[1], "Block Time:"@, "N/A"@)
            &&& is_row(names[2], "Block Reward:"@, "N/A"@)
            &&& is_row(names[3], "Max Supply:"@, "N/A"@)
            &&& is_row(names[4], "Circ Supply:"@, "N/A"@)
            &&& is_row(names[5], "Net Hash:"@, "N/A"@)
            &&& is_row(names[6], "Coins Mined:"@, "N/A"@)
            &&& price is None ==> is_row(names[7], "Price:"@, "N/A"@)
            &&& price matches Some(p) ==> is_row(names[7], "Price:"@, price_text(p@))
            &&& is_row(names[8], "Mcap:"@, "N/A"@)
        }),
{
    let names = (StatsSnapshot { xelis: None, price }).names();
    assert(names[6].0 == "Coins Mined:"@ && names[7].0 == "Price:"@ && names[8].0 == "Mcap:"@);
}

/// Two reports with different hash rates, or different networks, that fit into a channel
/// name are told apart by the rows.
pub proof fn law_rows_tell_reports_apart(
    a: XelisStatsSnapshot,
    b: XelisStatsSnapshot,
    p: Option<Price>,
    q: Option<Price>,
)
    requires
        name_bytes("Network:"@, a.info.network@).len() <= 100,
        name_bytes("Network:"@, b.info.network@).len() <= 100,
        name_bytes("Net Hash:"@, a.difficulty.hashrate_formatted@).len() <= 100,
        name_bytes("Net Hash:"@, b.difficulty.hashrate_formatted@).len() <= 100,
        (StatsSnapshot { xelis: Some(a), price: p }).names() == (StatsSnapshot {
            xelis: Some(b),
            price: q,
        }).names(),
    ensures
        a.info.network@ == b.info.network@,
        a.difficulty.hashrate_formatted@ == b.difficulty.hashrate_formatted@,
{
    law_rows_show_the_report(a, p);
    law_rows_show_the_report(b, q);
    lemma_same_name("Network:"@, a.info.network@, b.info.network@);
    lemma_same_name(
        "Net Hash:"@,
        a.difficulty.hashrate_formatted@,
        b.difficulty.hashrate_formatted@,
    );
}

proof fn lemma_same_name(label: Seq<char>, v: Seq<char>, w: Seq<char>)
    requires
        name_bytes(label, v).len() <= 100,
        name_bytes(label, w).len() <= 100,
        channel_name_text(label, v) == channel_name_text(label, w),
    ensures
        v == w,
{
    law_name_is_the_first_hundred_bytes(label, v);
    law_name_is_the_first_hundred_bytes(label, w);
    let at = label.len() as int + 1;
    assert((label + seq![' '] + v).skip(at) =~= v);
    assert((label + seq![' '] + w).skip(at) =~= w);
}

/// A list of rows is taken row by row.
pub proof fn law_rows_one_by_one(names: Seq<(&'static str, String)>, i: int)
    requires
        0 <= i < names.len(),
    ensures
        rows(names).len() == names.len(),
        rows(names)[i].0 == names[i].0@,
        rows(names)[i].1 == names[i].1@,
{
}

// Channels.

/// A list of channels is taken channel by channel.
pub proof fn law_channels_one_by_one(channels: Seq<GuildChannel>, i: int)
    requires
        0 <= i < channels.len(),
    ensures
        listed(channels).len() == channels.len(),
        listed(channels)[i].id == channels[i].id,
        listed(channels)[i].kind == channels[i].kind,
        listed(channels)[i].name == channels[i].name@,
        listed(channels)[i].parent_id == channels[i].parent_id,
        viewed(Some(&channels[i])) == Some(listed(channels)[i]),
        viewed(None) is None,
{
}

proof fn lemma_first_position(channels: Seq<ChannelView>, pick: spec_fn(ChannelView) -> bool) -> (k:
    int)
    ensures
        match first(channels, pick) {
            Some(c) => 0 <= k < channels.len() && channels[k] == c && pick(channels[k]) && forall|
                j: int,
            |
                0 <= j < k ==> !pick(#[trigger] channels[j]),
            None => k == channels.len() && forall|j: int|
                0 <= j < channels.len() ==> !pick(#[trigger] channels[j]),
        },
    decreases channels.len(),
{
    if channels.len() == 0 {
        0
    } else if pick(channels[0]) {
        0
    } else {
        let rest = channels.skip(1);
        let k = lemma_first_position(rest, pick);
        assert forall|j: int| 0 <= j < k + 1 && j < channels.len() implies !pick(
            #[trigger] channels[j],
        ) by {
            if j > 0 {
                assert(!pick(rest[j - 1]));
            }
        }
        if first(rest, pick) is Some {
            assert(channels[k + 1] == rest[k]);
        }
        k + 1
    }
}

/// Position `k` is the first at which a channel has the id.
pub open spec fn has_id_first_at(channels: Seq<ChannelView>, id: u64, k: int) -> bool {
    &&& 0 <= k < channels.len()
    &&& channels[k].id == id
    &&& forall|j: int| 0 <= j < k ==> (#[trigger] channels[j]).id != id
}

/// No channel has the id.
pub open spec fn no_channel_has(channels: Seq<ChannelView>, id: u64) -> bool {
    forall|j: int| 0 <= j < channels.len() ==> (#[trigger] channels[j]).id != id
}

/// The channel shows the label in the category: it is a voice channel there, and its name
/// starts with the label.
pub open spec fn shows_label(c: ChannelView, category_id: u64, label: Seq<char>) -> bool {
    &&& c.kind == ChannelKind::Voice
    &&& c.parent_id == Some(category_id)
    &&& c.name.len() >= label.len()
    &&& forall|i: int| 0 <= i < label.len() ==> c.name[i] == #[trigger] label[i]
}

/// A channel is found by its id.
pub proof fn law_found_by_id(channels: Seq<ChannelView>, id: u64, k: int)
    ensures
        has_id_first_at(channels, id, k) ==> first(channels, has_id(id)) == Some(channels[k]),
        no_channel_has(channels, id) ==> first(channels, has_id(id)) is None,
        first(channels, has_id(id)) matches Some(c) ==> c.id == id && channels.contains(c),
{
    let pick = has_id(id);
    let p = lemma_first_position(channels, pick);
    if has_id_first_at(channels, id, k) {
        assert(pick(channels[k]));
        if p < k {
            assert(channels[p].id != id);
        }
    }
}

proof fn lemma_prefix(label: Seq<char>, name: Seq<char>)
    ensures
        label.is_prefix_of(name) <==> name.len() >= label.len() && forall|i: int|
            0 <= i < label.len() ==> name[i] == #[trigger] label[i],
{
    if label.is_prefix_of(name) {
        assert forall|i: int| 0 <= i < label.len() implies name[i] == #[trigger] label[i] by {
            assert(name.subrange(0, label.len() as int)[i] == name[i]);
        }
    } else if name.len() >= label.len() && forall|i: int|
        0 <= i < label.len() ==> name[i] == #[trigger] label[i] {
        assert(label =~= name.subrange(0, label.len() as int));
    }
}

/// A channel is found by its label: the first one that shows it in the category.
pub proof fn law_found_by_label(channels: Seq<ChannelView>, category_id: u64, label: Seq<char>, k: int)
    ensures
        0 <= k < channels.len() && shows_label(channels[k], category_id, label) && (forall|j: int|
            0 <= j < k ==> !shows_label(#[trigger] channels[j], category_id, label)) ==> first(
            channels,
            shows(category_id, label),
        ) == Some(channels[k]),
        (forall|j: int|
            0 <= j < channels.len() ==> !shows_label(#[trigger] channels[j], category_id, label))
            ==> first(channels, shows(category_id, label)) is None,
        first(channels, shows(category_id, label)) matches Some(c) ==> shows_label(
            c,
            category_id,
            label,
        ) && channels.contains(c),
{
    let pick = shows(category_id, label);
    let p = lemma_first_position(channels, pick);
    assert forall|c: ChannelView| #[trigger] pick(c) <==> shows_label(c, category_id, label) by {
        lemma_prefix(label, c.name);
    }
    if p < channels.len() {
        assert(pick(channels[p]));
        assert(shows_label(channels[p], category_id, label));
    }
    if 0 <= k < channels.len() && shows_label(channels[k], category_id, label) {
        assert(pick(channels[k]));
    }
}

/// A category is found by its title: the first category that has it.
pub proof fn law_found_by_title(channels: Seq<ChannelView>, title: Seq<char>, k: int)
    ensures
        0 <= k < channels.len() && channels[k].kind == ChannelKind::Category && channels[k].name
            == title && (forall|j: int|
            0 <= j < k ==> (#[trigger] channels[j]).kind != ChannelKind::Category
                || channels[j].name != title) ==> first(channels, titled(title)) == Some(
            channels[k],
        ),
        (forall|j: int|
            0 <= j < channels.len() ==> (#[trigger] channels[j]).kind != ChannelKind::Category
                || channels[j].name != title) ==> first(channels, titled(title)) is None,
{
    let pick = titled(title);
    let p = lemma_first_position(channels, pick);
    if p < channels.len() {
        assert(pick(channels[p]));
    }
    if 0 <= k < channels.len() && channels[k].kind == ChannelKind::Category && channels[k].name
        == title {
        assert(pick(channels[k]));
    }
}

/// A channel is left alone exactly where its whole name is the wanted one and it is in the
/// category; that is, where editing it would change nothing of it.
pub proof fn law_left_alone_where_nothing_differs(
    channel: ChannelView,
    category_id: u64,
    new_name: Seq<char>,
)
    ensures
        !needs_edit(channel, category_id, new_name) <==> channel.name == new_name
            && channel.parent_id == Some(category_id),
        !needs_edit(channel, category_id, new_name) <==> channel == (ChannelView {
            name: new_name,
            parent_id: Some(category_id),
            ..channel
        }),
{
}

/// A channel is left alone for one name at most.
pub proof fn law_left_alone_for_one_name(
    channel: ChannelView,
    c: u64,
    d: u64,
    name: Seq<char>,
    other: Seq<char>,
)
    requires
        !needs_edit(channel, c, name),
        !needs_edit(channel, d, other),
    ensures
        name == other,
        c == d,
{
}

/// What is done with a channel that is used: it is kept where its name and category are as
/// wanted, else edited.
pub open spec fn kept_or_edited(
    step: ChannelStep,
    channel: ChannelView,
    category_id: u64,
    new_name: Seq<char>,
    record: bool,
) -> bool {
    if channel.name == new_name && channel.parent_id == Some(category_id) {
        step == (ChannelStep::Keep { id: channel.id, record })
    } else {
        step == (ChannelStep::Edit { id: channel.id, record })
    }
}

/// The channel that is recorded for the label is used where the guild has it, and its id
/// needs no recording.
pub proof fn law_recorded_channel_is_used(
    channels: Seq<ChannelView>,
    category_id: u64,
    state: StateView,
    label: Seq<char>,
    new_name: Seq<char>,
    k: int,
)
    requires
        state.channels.contains_key(label),
        state.channels[label] != 0,
        has_id_first_at(channels, state.channels[label], k),
    ensures
        kept_or_edited(
            channel_step(channels, category_id, state, label, new_name),
            channels[k],
            category_id,
            new_name,
            false,
        ),
        gone_channel(channels, state, label) is None,
{
    law_found_by_id(channels, state.channels[label], k);
}

/// No channel of the guild is recorded for the label: there is no entry, or the entry is
/// zero, or the guild has no such channel.
pub open spec fn none_recorded(
    channels: Seq<ChannelView>,
    state: StateView,
    label: Seq<char>,
) -> bool {
    ||| !state.channels.contains_key(label)
    ||| state.channels[label] == 0
    ||| no_channel_has(channels, state.channels[label])
}

/// Where none is recorded, the first channel that shows the label in the category is used,
/// and its id is recorded.
pub proof fn law_labelled_channel_is_adopted(
    channels: Seq<ChannelView>,
    category_id: u64,
    state: StateView,
    label: Seq<char>,
    new_name: Seq<char>,
    k: int,
)
    requires
        none_recorded(channels, state, label),
        0 <= k < channels.len(),
        shows_label(channels[k], category_id, label),
        forall|j: int| 0 <= j < k ==> !shows_label(#[trigger] channels[j], category_id, label),
    ensures
        kept_or_edited(
            channel_step(channels, category_id, state, label, new_name),
            channels[k],
            category_id,
            new_name,
            true,
        ),
{
    if state.channels.contains_key(label) {
        law_found_by_id(channels, state.channels[label], 0);
    }
    law_found_by_label(channels, category_id, label, k);
}

/// Where none is recorded and none shows the label in the category, one is created.
pub proof fn law_missing_channel_is_created(
    channels: Seq<ChannelView>,
    category_id: u64,
    state: StateView,
    label: Seq<char>,
    new_name: Seq<char>,
)
    requires
        none_recorded(channels, state, label),
        forall|j: int|
            0 <= j < channels.len() ==> !shows_label(#[trigger] channels[j], category_id, label),
    ensures
        channel_step(channels, category_id, state, label, new_name) == ChannelStep::Create,
{
    if state.channels.contains_key(label) {
        law_found_by_id(channels, state.channels[label], 0);
    }
    law_found_by_label(channels, category_id, label, 0);
}

/// A recorded channel is told to be gone exactly where the guild has none with its id.
pub proof fn law_gone_channels(channels: Seq<ChannelView>, state: StateView, label: Seq<char>, id: u64)
    ensures
        gone_channel(channels, state, label) == Some(id) <==> state.channels.contains_key(label)
            && state.channels[label] == id && id != 0 && no_channel_has(channels, id),
{
    let p = lemma_first_position(channels, has_id(id));
    law_found_by_id(channels, id, p);
    if !no_channel_has(channels, id) {
        let j = choose|j: int| 0 <= j < channels.len() && (#[trigger] channels[j]).id == id;
        let pick = has_id(id);
        assert(pick(channels[j]));
    }
}

// The category.

/// What is done with the category that is wanted by its id and that the guild has.
pub open spec fn category_outcome(
    step: Result<CategoryStep, CategoryError>,
    channel: ChannelView,
    title: Seq<char>,
) -> bool {
    if channel.kind != ChannelKind::Category {
        step == Err::<CategoryStep, CategoryError>(CategoryError::NotACategory { id: channel.id })
    } else if channel.name != title {
        step == Ok::<CategoryStep, CategoryError>(CategoryStep::Rename { id: channel.id })
    } else {
        step == Ok::<CategoryStep, CategoryError>(CategoryStep::Keep { id: channel.id })
    }
}

/// There is no id: none is given, or zero is.
pub open spec fn no_id(id: Option<u64>) -> bool {
    id is None || id == Some(0u64)
}

/// A configured category that the guild has is used, whatever is recorded: it is kept under
/// its title, renamed under another, and refused where it is no category.
pub proof fn law_configured_category(
    configured: u64,
    title: Seq<char>,
    channels: Seq<ChannelView>,
    recorded: Option<u64>,
    k: int,
)
    requires
        configured != 0,
        has_id_first_at(channels, configured, k),
    ensures
        category_outcome(
            category_step(Some(configured), title, channels, recorded),
            channels[k],
            title,
        ),
{
    law_found_by_id(channels, configured, k);
}

/// A configured category that the guild does not have is refused.
pub proof fn law_configured_category_missing(
    configured: u64,
    title: Seq<char>,
    channels: Seq<ChannelView>,
    recorded: Option<u64>,
)
    requires
        configured != 0,
        no_channel_has(channels, configured),
    ensures
        category_step(Some(configured), title, channels, recorded) == Err::<
            CategoryStep,
            CategoryError,
        >(CategoryError::NotFound { id: configured }),
{
    law_found_by_id(channels, configured, 0);
}

/// With none configured, a recorded category that the guild has is used likewise.
pub proof fn law_recorded_category(
    configured: Option<u64>,
    title: Seq<char>,
    channels: Seq<ChannelView>,
    recorded: u64,
    k: int,
)
    requires
        no_id(configured),
        recorded != 0,
        has_id_first_at(channels, recorded, k),
    ensures
        category_outcome(
            category_step(configured, title, channels, Some(recorded)),
            channels[k],
            title,
        ),
        gone_category(configured, channels, Some(recorded)) is None,
{
    law_found_by_id(channels, recorded, k);
}

/// With none configured, and none recorded that the guild has, the first category that has
/// the title is kept, and one is created where there is none.
pub proof fn law_category_by_title(
    configured: Option<u64>,
    title: Seq<char>,
    channels: Seq<ChannelView>,
    recorded: Option<u64>,
    k: int,
)
    requires
        no_id(configured),
        no_id(recorded) || no_channel_has(channels, recorded->0),
    ensures
        0 <= k < channels.len() && channels[k].kind == ChannelKind::Category && channels[k].name
            == title && (forall|j: int|
            0 <= j < k ==> (#[trigger] channels[j]).kind != ChannelKind::Category
                || channels[j].name != title) ==> category_step(
            configured,
            title,
            channels,
            recorded,
        ) == Ok::<CategoryStep, CategoryError>(CategoryStep::Keep { id: channels[k].id }),
        (forall|j: int|
            0 <= j < channels.len() ==> (#[trigger] channels[j]).kind != ChannelKind::Category
                || channels[j].name != title) ==> category_step(
            configured,
            title,
            channels,
            recorded,
        ) == Ok::<CategoryStep, CategoryError>(CategoryStep::Create),
{
    if !no_id(recorded) {
        law_found_by_id(channels, recorded->0, 0);
    }
    law_found_by_title(channels, title, k);
}

/// A recorded category is told to be gone exactly where none is configured and the guild
/// has no channel with its id.
pub proof fn law_gone_categories(
    configured: Option<u64>,
    channels: Seq<ChannelView>,
    recorded: Option<u64>,
    id: u64,
)
    ensures
        gone_category(configured, channels, recorded) == Some(id) <==> no_id(configured) && recorded
            == Some(id) && id != 0 && no_channel_has(channels, id),
{
    let p = lemma_first_position(channels, has_id(id));
    law_found_by_id(channels, id, p);
    if !no_channel_has(channels, id) {
        let j = choose|j: int| 0 <= j < channels.len() && (#[trigger] channels[j]).id == id;
        let pick = has_id(id);
        assert(pick(channels[j]));
    }
}

// Texts with an id in them. Each law gives the text of the id.

/// A refused category is named by its id.
pub proof fn law_refusals_in_words(id: u64) -> (digits: Seq<char>)
    ensures
        is_plain(digits),
        number(digits) == id,
        (CategoryError::NotACategory { id }).text() == "Stats category id "@ + digits
            + " is not a Discord category"@,
        (CategoryError::NotFound { id }).text() == "Configured stats category id "@ + digits
            + " was not found"@,
{
    law_decimal_read_back(id as nat);
    decimal(id as nat)
}

/// What is gone is named by its id, and a channel by its label too.
pub proof fn law_gone_in_words(id: u64, label: Seq<char>) -> (digits: Seq<char>)
    ensures
        is_plain(digits),
        number(digits) == id,
        (GoneView::Category { id }).text() == "Stored XELIS stats category "@ + digits
            + " no longer exists; creating a new one"@,
        (GoneView::Channel { label, id }).text() == "Stored XELIS stats channel "@ + digits
            + " for "@ + label + " no longer exists"@,
{
    law_decimal_read_back(id as nat);
    decimal(id as nat)
}

/// A list of what is gone is taken item by item.
pub proof fn law_gone_one_by_one(gone: Seq<Gone>, i: int)
    requires
        0 <= i < gone.len(),
    ensures
        told(gone).len() == gone.len(),
        gone[i] matches Gone::Category { id } ==> told(gone)[i] == (GoneView::Category { id }),
        gone[i] matches Gone::Channel { label, id } ==> told(gone)[i] == (GoneView::Channel {
            label: label@,
            id,
        }),
{
}

// Recorded ids.

/// An id is read back exactly where it was recorded last under the label and is not zero;
/// recording changes the entry of the label alone.
pub proof fn law_recorded_ids(
    state: StateView,
    label: Seq<char>,
    other: Seq<char>,
    id: u64,
    read: u64,
)
    ensures
        state.channel_id(label) == Some(read) <==> state.channels.contains_key(label)
            && state.channels[label] == read && read != 0,
        state.with_channel(label, id).channels.contains_key(label),
        state.with_channel(label, id).channels[label] == id,
        state.with_channel(label, id).category_id == state.category_id,
        other != label ==> (state.with_channel(label, id).channels.contains_key(other)
            <==> state.channels.contains_key(other)) && (state.channels.contains_key(other)
            ==> state.with_channel(label, id).channels[other] == state.channels[other]),
        state.with_category(id).category_id == Some(id),
        state.with_category(id).channels == state.channels,
        StateView::nothing().category_id is None,
        !StateView::nothing().channels.contains_key(label),
{
}

/// Of the entries of a label the last one counts.
pub proof fn law_last_entry_counts(entries: Seq<(String, u64)>, label: Seq<char>, k: int)
    ensures
        0 <= k < entries.len() && entries[k].0@ == label && (forall|j: int|
            k < j < entries.len() ==> (#[trigger] entries[j]).0@ != label) ==> entries_map(
            entries,
        ).contains_key(label) && entries_map(entries)[label] == entries[k].1,
        (forall|j: int| 0 <= j < entries.len() ==> (#[trigger] entries[j]).0@ != label)
            ==> !entries_map(entries).contains_key(label),
    decreases entries.len(),
{
    if entries.len() > 0 {
        let front = entries.drop_last();
        law_last_entry_counts(front, label, k);
        assert forall|j: int| 0 <= j < front.len() implies #[trigger] front[j] == entries[j] by {}
        assert(entries.last() == entries[entries.len() - 1]);
    }
}

/// A list of ids in which each label is kept once has no label at two positions.
pub proof fn law_labels_kept_once(entries: Seq<(String, u64)>, i: int, j: int)
    requires
        0 <= i < entries.len(),
        0 <= j < entries.len(),
        labels_distinct(entries),
        entries[i].0@ == entries[j].0@,
    ensures
        i == j,
{
    if i < j {
        assert(entries[i].0@ != entries[j].0@);
    } else if j < i {
        assert(entries[j].0@ != entries[i].0@);
    }
}

// The price.

/// Every number that a double stands for is the price, bit by bit, and every string is the
/// price as a text. A price is missing exactly where nothing is found, or something that is
/// neither.
pub proof fn law_what_is_a_price(node: Option<NodeView>, bits: u64, text: Seq<char>)
    ensures
        quoted(Some(NodeView::Number { bits })) == Ok::<QuoteView, QuoteErrorView>(
            QuoteView::Known { price: Price { bits } },
        ),
        quoted(Some(NodeView::Text { text })) == Ok::<QuoteView, QuoteErrorView>(
            QuoteView::Text { text },
        ),
        quoted(node) == Err::<QuoteView, QuoteErrorView>(QuoteErrorView::NotRepresentable)
            <==> node == Some(NodeView::Unrepresentable),
        quoted(node) == Err::<QuoteView, QuoteErrorView>(QuoteErrorView::Missing) <==> node is None
            || node->0 is Null || node->0 is Bool || node->0 is Array || node->0 is Object,
        quoted_in(Ok(node)) == quoted(node),
        quoted_in(Err(text)) == Err::<QuoteView, QuoteErrorView>(
            QuoteErrorView::Malformed { reason: text },
        ),
{
}

/// Different prices are read as different ones.
pub proof fn law_prices_differ(a: NodeView, b: NodeView)
    requires
        quoted(Some(a)) is Ok,
        quoted(Some(a)) == quoted(Some(b)),
    ensures
        a == b,
{
}

/// A node is seen as what it is.
pub proof fn law_nodes_as_they_are(node: JsonNode)
    ensures
        node matches JsonNode::Number { bits } ==> node@ == (NodeView::Number { bits }),
        node matches JsonNode::Text { text } ==> node@ == (NodeView::Text { text: text@ }),
        node is Unrepresentable <==> node@ is Unrepresentable,
        node is Null <==> node@ is Null,
        node is Bool <==> node@ is Bool,
        node is Array <==> node@ is Array,
        node is Object <==> node@ is Object,
        node_view(Some(node)) == Some(node@),
        node_view(None) is None,
        lookup_view(Ok(Some(node))) == Ok::<Option<NodeView>, Seq<char>>(Some(node@)),
        lookup_view(Ok(None)) == Ok::<Option<NodeView>, Seq<char>>(None),
{
}

/// What was found, a quote, a price and an error are seen as what they are.
pub proof fn law_quotes_as_they_are(quote: Quote, error: QuoteError, reason: String, price: Price)
    ensures
        quote matches Quote::Known { price: p } ==> quote@ == (QuoteView::Known { price: p }),
        quote matches Quote::Text { text } ==> quote@ == (QuoteView::Text { text: text@ }),
        quote_view(Ok(quote)) == Ok::<QuoteView, QuoteErrorView>(quote@),
        quote_view(Err(error)) == Err::<QuoteView, QuoteErrorView>(error@),
        price_view(Ok(price)) == Ok::<Price, QuoteErrorView>(price),
        price_view(Err(error)) == Err::<Price, QuoteErrorView>(error@),
        lookup_view(Err(reason)) == Err::<Option<NodeView>, Seq<char>>(reason@),
        error matches QuoteError::Malformed { reason: r } ==> error@ == (QuoteErrorView::Malformed {
            reason: r@,
        }),
        error matches QuoteError::NotANumber { reason: r } ==> error@ == (
        QuoteErrorView::NotANumber { reason: r@ }),
        error is NotRepresentable <==> error@ is NotRepresentable,
        error is Missing <==> error@ is Missing,
{
}

/// What the errors say, and what caused them.
pub proof fn law_quote_errors_in_words(reason: Seq<char>)
    ensures
        (QuoteErrorView::Malformed { reason }).text() == "error decoding response body"@,
        (QuoteErrorView::Malformed { reason }).reason() == Some(reason),
        QuoteErrorView::NotRepresentable.text() == "price was not representable as f64"@,
        QuoteErrorView::NotRepresentable.reason() is None,
        (QuoteErrorView::NotANumber { reason }).text() == "price string was not a number"@,
        (QuoteErrorView::NotANumber { reason }).reason() == Some(reason),
        QuoteErrorView::Missing.text() == "price was missing from Coinpaprika response"@,
        QuoteErrorView::Missing.reason() is None,
{
}

// The interval.

/// An interval of a second or more is waited for unchanged, and a shorter one for exactly a
/// second: the wait is the longer of the two.
pub proof fn law_longer_of_interval_and_second(interval: Interval)
    ensures
        interval.total() == interval.secs * 1_000_000_000 + interval.nanos,
        interval.secs > 0 || interval.nanos >= 1_000_000_000
            ==> interval.spec_at_least_a_second() == interval,
        interval.secs == 0 && interval.nanos < 1_000_000_000 ==> interval.spec_at_least_a_second()
            == (Interval { secs: 1, nanos: 0 }),
        interval.spec_at_least_a_second().total() == if interval.total() >= 1_000_000_000 {
            interval.total()
        } else {
            1_000_000_000
        },
{
}

/// A longer interval is not waited for any shorter.
pub proof fn law_longer_intervals_are_longer_waits(a: Interval, b: Interval)
    requires
        a.secs * 1_000_000_000 + a.nanos <= b.secs * 1_000_000_000 + b.nanos,
    ensures
        a.spec_at_least_a_second().total() <= b.spec_at_least_a_second().total(),
        b.spec_at_least_a_second().total() <= b.secs * 1_000_000_000 + b.nanos
            || b.spec_at_least_a_second().total() == 1_000_000_000,
{
}

} // verus!
