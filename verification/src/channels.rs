//! The channels of a guild, and what is to be done with the channel of one label.
use crate::names::starts_with;
use crate::state::{ChannelState, StateView};
use vstd::prelude::*;

verus! {

/// The kinds of channel that are told apart.
#[derive(Debug, Clone, Copy, PartialEq, Eq, Structural)]
pub enum ChannelKind {
    Category,
    Voice,
    Other,
}

/// What a `GuildChannel` holds.
pub ghost struct ChannelView {
    pub id: u64,
    pub kind: ChannelKind,
    pub name: Seq<char>,
    pub parent_id: Option<u64>,
}

/// A channel of the guild.
#[derive(Debug)]
pub struct GuildChannel {
    pub id: u64,
    pub kind: ChannelKind,
    pub name: String,
    pub parent_id: Option<u64>,
}

impl View for GuildChannel {
    type V = ChannelView;

    open spec fn view(&self) -> ChannelView {
        ChannelView {
            id: self.id,
            kind: self.kind,
            name: self.name@,
            parent_id: self.parent_id,
        }
    }
}

/// The channels of a list.
pub open spec fn listed(channels: Seq<GuildChannel>) -> Seq<ChannelView> {
    Seq::new(channels.len(), |i: int| channels[i]@)
}

/// The first channel of the list that is picked.
pub open spec fn first(channels: Seq<ChannelView>, pick: spec_fn(ChannelView) -> bool) -> Option<
    ChannelView,
>
    decreases channels.len(),
{
    if channels.len() == 0 {
        None
    } else if pick(channels[0]) {
        Some(channels[0])
    } else {
        first(channels.skip(1), pick)
    }
}

/// Picks the channel with an id.
pub open spec fn has_id(id: u64) -> spec_fn(ChannelView) -> bool {
    |c: ChannelView| c.id == id
}

/// Picks the categories with a title.
pub open spec fn titled(title: Seq<char>) -> spec_fn(ChannelView) -> bool {
    |c: ChannelView| c.kind == ChannelKind::Category && c.name == title
}

/// Picks the voice channels of a category whose names start with a label.
pub open spec fn shows(category_id: u64, label: Seq<char>) -> spec_fn(ChannelView) -> bool {
    |c: ChannelView|
        c.kind == ChannelKind::Voice && c.parent_id == Some(category_id) && label.is_prefix_of(
            c.name,
        )
}

/// The channel, as its view.
pub open spec fn viewed(channel: Option<&GuildChannel>) -> Option<ChannelView> {
    match channel {
        Some(c) => Some(c@),
        None => None,
    }
}

/// The first picked channel is at the first position that is picked.
pub proof fn lemma_first_at(
    channels: Seq<ChannelView>,
    pick: spec_fn(ChannelView) -> bool,
    at: int,
)
    requires
        0 <= at < channels.len(),
        pick(channels[at]),
        forall|i: int| 0 <= i < at ==> !pick(#[trigger] channels[i]),
    ensures
        first(channels, pick) == Some(channels[at]),
    decreases at,
{
    if at > 0 {
        let rest = channels.skip(1);
        assert forall|i: int| 0 <= i < at - 1 implies !pick(#[trigger] rest[i]) by {
            assert(!pick(channels[i + 1]));
        }
        assert(!pick(channels[0]));
        lemma_first_at(rest, pick, at - 1);
    }
}

/// Nothing is found exactly where no channel is picked, and what is found is picked.
pub proof fn lemma_first(channels: Seq<ChannelView>, pick: spec_fn(ChannelView) -> bool)
    ensures
        first(channels, pick) is None <==> forall|i: int|
            0 <= i < channels.len() ==> !pick(#[trigger] channels[i]),
        first(channels, pick) matches Some(c) ==> pick(c) && channels.contains(c),
    decreases channels.len(),
{
    if channels.len() > 0 {
        let rest = channels.skip(1);
        lemma_first(rest, pick);
        assert forall|i: int| 0 <= i < rest.len() implies #[trigger] rest[i] == channels[i + 1] by {}
        if pick(channels[0]) {
            assert(channels.contains(channels[0]));
        } else {
            if first(rest, pick) is None {
                assert forall|i: int| 0 <= i < channels.len() implies !pick(
                    #[trigger] channels[i],
                ) by {
                    if i > 0 {
                        assert(!pick(rest[i - 1]));
                    }
                }
            } else {
                let c = first(rest, pick)->0;
                let i = choose|i: int| 0 <= i < rest.len() && rest[i] == c;
                assert(channels[i + 1] == c);
                assert(pick(channels[i + 1]));
            }
        }
    }
}

/// The channel with an id.
pub fn find_by_id<'a>(channels: &'a Vec<GuildChannel>, id: u64) -> (found: Option<&'a GuildChannel>)
    ensures
        viewed(found) == first(listed(channels@), has_id(id)),
{
    let ghost all = listed(channels@);
    let ghost pick = has_id(id);
    let mut i: usize = 0;
    while i < channels.len()
        invariant
            i <= channels.len(),
            all == listed(channels@),
            pick == has_id(id),
            forall|j: int| 0 <= j < i ==> !pick(#[trigger] all[j]),
        decreases channels.len() - i,
    {
        if channels[i].id == id {
            proof {
                lemma_first_at(all, pick, i as int);
            }
            return Some(&channels[i]);
        }
        i = i + 1;
    }
    proof {
        lemma_first(all, pick);
    }
    None
}

/// The first category with a title.
pub fn find_category<'a>(channels: &'a Vec<GuildChannel>, title: &String) -> (found: Option<
    &'a GuildChannel,
>)
    ensures
        viewed(found) == first(listed(channels@), titled(title@)),
{
    let ghost all = listed(channels@);
    let ghost pick = titled(title@);
    let mut i: usize = 0;
    while i < channels.len()
        invariant
            i <= channels.len(),
            all == listed(channels@),
            pick == titled(title@),
            forall|j: int| 0 <= j < i ==> !pick(#[trigger] all[j]),
        decreases channels.len() - i,
    {
        if channels[i].kind == ChannelKind::Category && channels[i].name.eq(title) {
            proof {
                lemma_first_at(all, pick, i as int);
            }
            return Some(&channels[i]);
        }
        i = i + 1;
    }
    proof {
        lemma_first(all, pick);
    }
    None
}

/// The first voice channel of the category whose name starts with the label.
pub fn find_existing_channel<'a>(
    channels: &'a Vec<GuildChannel>,
    category_id: u64,
    label: &str,
) -> (found: Option<&'a GuildChannel>)
    ensures
        viewed(found) == first(listed(channels@), shows(category_id, label@)),
{
    let ghost all = listed(channels@);
    let ghost pick = shows(category_id, label@);
    let mut i: usize = 0;
    while i < channels.len()
        invariant
            i <= channels.len(),
            all == listed(channels@),
            pick == shows(category_id, label@),
            forall|j: int| 0 <= j < i ==> !pick(#[trigger] all[j]),
        decreases channels.len() - i,
    {
        let channel = &channels[i];
        if channel.kind == ChannelKind::Voice && is_child_of(channel, category_id) && starts_with(
            channel.name.as_str(),
            label,
        ) {
            proof {
                lemma_first_at(all, pick, i as int);
            }
            return Some(channel);
        }
        i = i + 1;
    }
    proof {
        lemma_first(all, pick);
    }
    None
}

/// Whether the channel belongs to the category.
fn is_child_of(channel: &GuildChannel, category_id: u64) -> (r: bool)
    ensures
        r == (channel.parent_id == Some(category_id)),
{
    match channel.parent_id {
        Some(id) => id == category_id,
        None => false,
    }
}

/// A channel that has another name or is not in the category is to be edited.
pub open spec fn needs_edit(channel: ChannelView, category_id: u64, new_name: Seq<char>) -> bool {
    channel.name != new_name || channel.parent_id != Some(category_id)
}

/// Whether the channel is to be edited so that it has the name and is in the
/// category.
pub fn edit_channel_if_needed(channel: &GuildChannel, category_id: u64, new_name: &String) -> (r:
    bool)
    ensures
        r == needs_edit(channel@, category_id, new_name@),
        !r <==> channel.name@ == new_name@ && channel.parent_id == Some(category_id),
{
    !(channel.name.eq(new_name) && is_child_of(channel, category_id))
}

/// What is to be done with the channel of one label.
#[derive(Debug, Clone, Copy, PartialEq, Eq, Structural)]
pub enum ChannelStep {
    /// The channel is as it should be; its id is to be recorded where `record` holds.
    Keep { id: u64, record: bool },
    /// The channel is to be edited; its id is then to be recorded where `record`
    /// holds.
    Edit { id: u64, record: bool },
    /// A channel is to be created, and its id recorded.
    Create,
}

/// Editing a channel, or keeping it where it is as it should be.
pub open spec fn bring_up_to_date(
    channel: ChannelView,
    category_id: u64,
    new_name: Seq<char>,
    record: bool,
) -> ChannelStep {
    if needs_edit(channel, category_id, new_name) {
        ChannelStep::Edit { id: channel.id, record }
    } else {
        ChannelStep::Keep { id: channel.id, record }
    }
}

/// The channel that is recorded for the label is used where the guild still has it,
/// else one of the category that shows the label, else a new one.
pub open spec fn channel_step(
    channels: Seq<ChannelView>,
    category_id: u64,
    state: StateView,
    label: Seq<char>,
    new_name: Seq<char>,
) -> ChannelStep {
    let recorded = match state.channel_id(label) {
        Some(id) => first(channels, has_id(id)),
        None => None,
    };
    match recorded {
        Some(channel) => bring_up_to_date(channel, category_id, new_name, false),
        None => match first(channels, shows(category_id, label)) {
            Some(channel) => bring_up_to_date(channel, category_id, new_name, true),
            None => ChannelStep::Create,
        },
    }
}

/// The id that is recorded for the label, where the guild no longer has that channel.
pub open spec fn gone_channel(
    channels: Seq<ChannelView>,
    state: StateView,
    label: Seq<char>,
) -> Option<u64> {
    match state.channel_id(label) {
        Some(id) => if first(channels, has_id(id)) is None {
            Some(id)
        } else {
            None
        },
        None => None,
    }
}

/// The id that is recorded for the label, where the guild no longer has that channel.
pub fn find_gone_channel(channels: &Vec<GuildChannel>, state: &ChannelState, label: &str) -> (gone:
    Option<u64>)
    requires
        state.wf(),
    ensures
        gone == gone_channel(listed(channels@), state@, label@),
{
    match state.channel_id(label) {
        Some(id) => match find_by_id(channels, id) {
            Some(_) => None,
            None => Some(id),
        },
        None => None,
    }
}

/// What is to be done so that the guild shows `new_name` for the label.
pub fn update_or_create_channel(
    channels: &Vec<GuildChannel>,
    category_id: u64,
    state: &ChannelState,
    label: &str,
    new_name: &String,
) -> (step: ChannelStep)
    requires
        state.wf(),
    ensures
        step == channel_step(listed(channels@), category_id, state@, label@, new_name@),
{
    if let Some(channel_id) = state.channel_id(label) {
        if let Some(channel) = find_by_id(channels, channel_id) {
            return if edit_channel_if_needed(channel, category_id, new_name) {
                ChannelStep::Edit { id: channel.id, record: false }
            } else {
                ChannelStep::Keep { id: channel.id, record: false }
            };
        }
    }
    if let Some(channel) = find_existing_channel(channels, category_id, label) {
        return if edit_channel_if_needed(channel, category_id, new_name) {
            ChannelStep::Edit { id: channel.id, record: true }
        } else {
            ChannelStep::Keep { id: channel.id, record: true }
        };
    }
    ChannelStep::Create
}

} // verus!
