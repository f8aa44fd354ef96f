//! What a guild shows after an update in which every action succeeds.
use crate::category::{category_step, nonzero, CategoryError, CategoryStep};
use crate::channels::{
    channel_step, first, gone_channel, has_id, lemma_first, lemma_first_at, needs_edit, shows,
    titled, ChannelKind, ChannelStep, ChannelView,
};
use crate::laws::{
    ids_nonzero, law_configured_category_decides, law_labels_apart, law_nothing_to_do,
    law_quiet_update, lemma_category_nonzero, up_to_date,
};
use crate::snapshot::{labels, StatsSnapshot};
use crate::state::StateView;
use crate::updater::{
    ActionView, EventView, GoneView, PhaseView, RoundView, Setup, StepView, UpdaterView,
};
use vstd::prelude::*;

verus! {

/// The guild after a channel was given a name and put into a category.
pub open spec fn edited(
    guild: Seq<ChannelView>,
    id: u64,
    name: Seq<char>,
    category_id: u64,
) -> Seq<ChannelView> {
    Seq::new(
        guild.len(),
        |i: int|
            if guild[i].id == id {
                ChannelView { name, parent_id: Some(category_id), ..guild[i] }
            } else {
                guild[i]
            },
    )
}

/// The guild after a voice channel was created in a category.
pub open spec fn created(
    guild: Seq<ChannelView>,
    id: u64,
    name: Seq<char>,
    category_id: u64,
) -> Seq<ChannelView> {
    guild.push(
        ChannelView { id, kind: ChannelKind::Voice, name, parent_id: Some(category_id) },
    )
}

/// The guild after a channel was given a name.
pub open spec fn renamed(guild: Seq<ChannelView>, id: u64, name: Seq<char>) -> Seq<ChannelView> {
    Seq::new(
        guild.len(),
        |i: int|
            if guild[i].id == id {
                ChannelView { name, ..guild[i] }
            } else {
                guild[i]
            },
    )
}

/// How actions turn out when all of them succeed on the guild: a created channel gets
/// the id that `fresh` gives for the guild, and the figures are answered as given.
pub ghost struct World {
    pub fresh: spec_fn(Seq<ChannelView>) -> u64,
    pub report: EventView,
    pub quote: EventView,
}

/// The outcome of an action, and the guild after it.
pub open spec fn perform(action: ActionView, guild: Seq<ChannelView>, world: World) -> (
    EventView,
    Seq<ChannelView>,
) {
    let fresh = world.fresh;
    match action {
        ActionView::ListChannels { .. } => (EventView::Channels { channels: guild }, guild),
        ActionView::RenameCategory { id, title } => (EventView::Done, renamed(guild, id, title)),
        ActionView::CreateCategory { title, .. } => {
            let id = fresh(guild);
            (
                EventView::Created { id },
                guild.push(
                    ChannelView { id, kind: ChannelKind::Category, name: title, parent_id: None },
                ),
            )
        },
        ActionView::FetchDaemonStats => (world.report, guild),
        ActionView::FetchPrice { .. } => (world.quote, guild),
        ActionView::EditChannel { id, name, category_id } => (
            EventView::Done,
            edited(guild, id, name, category_id),
        ),
        ActionView::CreateChannel { name, category_id, .. } => {
            let id = fresh(guild);
            (EventView::Created { id }, created(guild, id, name, category_id))
        },
        _ => (EventView::Done, guild),
    }
}

/// The machine and the guild after at most `count` actions, up to where the machine
/// waits.
pub open spec fn drive(
    step: StepView,
    guild: Seq<ChannelView>,
    world: World,
    count: nat,
) -> (StepView, Seq<ChannelView>)
    decreases count,
{
    if count == 0 || step.action is Sleep {
        (step, guild)
    } else {
        let (event, after) = perform(step.action, guild, world);
        drive(step.updater.step(event), after, world, (count - 1) as nat)
    }
}

/// The update is over without an error, and the machine waits.
pub open spec fn rests(setup: Setup, step: StepView) -> bool {
    StepView { gone: seq![], ..step } == setup.pause(step.updater.state, None)
}

/// Ids that turned out to be gone change nothing of what follows.
proof fn lemma_drive_noting(
    step: StepView,
    gone: Option<GoneView>,
    guild: Seq<ChannelView>,
    world: World,
    count: nat,
)
    ensures
        ({
            let (end, after) = drive(step, guild, world, count);
            let (end2, after2) = drive(step.noting(gone), guild, world, count);
            &&& after2 == after
            &&& end2.updater == end.updater
            &&& end2.action == end.action
            &&& end2.error == end.error
        }),
{
}

/// In a guild of less than `limit` channels a created channel gets an id that is not
/// zero and that no other channel has.
pub open spec fn gives_fresh_ids(fresh: spec_fn(Seq<ChannelView>) -> u64, limit: nat) -> bool {
    forall|guild: Seq<ChannelView>|
        #![trigger fresh(guild)]
        guild.len() < limit ==> fresh(guild) != 0 && forall|i: int|
            0 <= i < guild.len() ==> (#[trigger] guild[i]).id != fresh(guild)
}

/// No two channels have the same id.
pub open spec fn ids_distinct(guild: Seq<ChannelView>) -> bool {
    forall|i: int, j: int|
        0 <= i < j < guild.len() ==> (#[trigger] guild[i]).id != (#[trigger] guild[j]).id
}

/// The channel of the guild that is used for a label, where there is one.
pub open spec fn target(state: StateView, round: RoundView, k: int) -> Option<u64> {
    let (label, name) = round.names[k];
    match channel_step(round.channels, round.category_id, state, label, name) {
        ChannelStep::Keep { id, .. } => Some(id),
        ChannelStep::Edit { id, .. } => Some(id),
        ChannelStep::Create => None,
    }
}

/// No channel is used for two labels.
pub open spec fn targets_distinct(state: StateView, round: RoundView) -> bool {
    forall|i: int, j: int|
        0 <= i < j < round.names.len() && target(state, round, i) is Some ==> #[trigger] target(
            state,
            round,
            i,
        ) != #[trigger] target(state, round, j)
}

/// No label uses the channel.
pub open spec fn unused(state: StateView, round: RoundView, id: u64) -> bool {
    forall|k: int|
        #![trigger round.names[k]]
        0 <= k < round.names.len() ==> target(state, round, k) != Some(id)
}

/// No label occurs twice.
pub open spec fn round_labels_distinct(round: RoundView) -> bool {
    forall|i: int, j: int|
        0 <= i < j < round.names.len() ==> (#[trigger] round.names[i]).0 != (
        #[trigger] round.names[j]).0
}

/// The channel of a label has its name and is in the category.
spec fn shown(state: StateView, round: RoundView, guild: Seq<ChannelView>, k: int) -> bool {
    let (label, name) = round.names[k];
    match state.channel_id(label) {
        Some(id) => match first(guild, has_id(id)) {
            Some(channel) => !needs_edit(channel, round.category_id, name),
            None => false,
        },
        None => false,
    }
}

/// The labels before the next one are shown, by channels that no later label uses; the
/// channels that later labels use are as they were.
spec fn halfway(
    start: StateView,
    state: StateView,
    round: RoundView,
    guild: Seq<ChannelView>,
) -> bool {
    &&& forall|k: int|
        #![trigger round.names[k]]
        0 <= k < round.next ==> shown(state, round, guild, k)
    &&& forall|k: int, j: int|
        #![trigger round.names[k], round.names[j]]
        0 <= k < round.next <= j < round.names.len() ==> target(start, round, j)
            != state.channel_id(round.names[k].0)
    &&& forall|j: int|
        #![trigger round.names[j]]
        round.next <= j < round.names.len() ==> state.channel_id(round.names[j].0)
            == start.channel_id(round.names[j].0)
    &&& forall|j: int|
        #![trigger round.names[j]]
        round.next <= j < round.names.len() ==> (target(start, round, j) matches Some(id)
            ==> first(guild, has_id(id)) == first(round.channels, has_id(id)) && first(
            guild,
            has_id(id),
        ) is Some)
}

proof fn lemma_first_edited(
    guild: Seq<ChannelView>,
    id: u64,
    name: Seq<char>,
    category_id: u64,
    other: u64,
)
    ensures
        other != id ==> first(edited(guild, id, name, category_id), has_id(other)) == first(
            guild,
            has_id(other),
        ),
        first(guild, has_id(id)) matches Some(c) ==> first(
            edited(guild, id, name, category_id),
            has_id(id),
        ) == Some(ChannelView { name, parent_id: Some(category_id), ..c }),
    decreases guild.len(),
{
    if guild.len() > 0 {
        lemma_first_edited(guild.skip(1), id, name, category_id, other);
        assert(edited(guild, id, name, category_id).skip(1) =~= edited(
            guild.skip(1),
            id,
            name,
            category_id,
        ));
    }
}

proof fn lemma_first_pushed(guild: Seq<ChannelView>, channel: ChannelView, other: u64)
    ensures
        first(guild, has_id(other)) is Some ==> first(guild.push(channel), has_id(other)) == first(
            guild,
            has_id(other),
        ),
        first(guild, has_id(other)) is None && channel.id == other ==> first(
            guild.push(channel),
            has_id(other),
        ) == Some(channel),
    decreases guild.len(),
{
    if guild.len() > 0 {
        lemma_first_pushed(guild.skip(1), channel, other);
        assert(guild.push(channel).skip(1) =~= guild.skip(1).push(channel));
    } else {
        assert(guild.push(channel)[0] == channel);
    }
}

/// With distinct ids a channel is found by its id.
proof fn lemma_found_by_id(guild: Seq<ChannelView>, channel: ChannelView)
    requires
        ids_distinct(guild),
        guild.contains(channel),
    ensures
        first(guild, has_id(channel.id)) == Some(channel),
{
    let pick = has_id(channel.id);
    let at = choose|at: int| 0 <= at < guild.len() && guild[at] == channel;
    assert forall|i: int| 0 <= i < at implies !pick(#[trigger] guild[i]) by {
        assert(guild[i].id != guild[at].id);
    }
    lemma_first_at(guild, pick, at);
}

/// What is known of the channel that is used for a label.
proof fn lemma_target(state: StateView, round: RoundView, k: int)
    requires
        0 <= k < round.names.len(),
        ids_distinct(round.channels),
    ensures
        ({
            let (label, name) = round.names[k];
            match channel_step(round.channels, round.category_id, state, label, name) {
                ChannelStep::Keep { id, record } => {
                    &&& first(round.channels, has_id(id)) matches Some(c) && c.id == id
                        && !needs_edit(c, round.category_id, name)
                    &&& record || state.channel_id(label) == Some(id)
                    &&& round.channels.contains(first(round.channels, has_id(id))->0)
                },
                ChannelStep::Edit { id, record } => {
                    &&& first(round.channels, has_id(id)) matches Some(c) && c.id == id
                    &&& record || state.channel_id(label) == Some(id)
                    &&& round.channels.contains(first(round.channels, has_id(id))->0)
                },
                ChannelStep::Create => true,
            }
        }),
{
    let (label, name) = round.names[k];
    if let Some(id) = state.channel_id(label) {
        lemma_first(round.channels, has_id(id));
    }
    lemma_first(round.channels, shows(round.category_id, label));
    if let Some(c) = first(round.channels, shows(round.category_id, label)) {
        lemma_found_by_id(round.channels, c);
    }
}

/// The next label's channel is recorded and shown: one label more is done.
proof fn lemma_halfway_next(
    start: StateView,
    state: StateView,
    round: RoundView,
    guild: Seq<ChannelView>,
    id: u64,
    record: bool,
    guild2: Seq<ChannelView>,
)
    requires
        round_labels_distinct(round),
        targets_distinct(start, round),
        halfway(start, state, round, guild),
        round.next < round.names.len(),
        id != 0,
        record || state.channel_id(round.names[round.next as int].0) == Some(id),
        first(guild2, has_id(id)) matches Some(c) && !needs_edit(
            c,
            round.category_id,
            round.names[round.next as int].1,
        ),
        forall|other: u64|
            other != id && first(guild, has_id(other)) is Some ==> first(
                guild2,
                #[trigger] has_id(other),
            ) == first(guild, has_id(other)),
        // No other label uses the channel.
        forall|k: int|
            #![trigger round.names[k]]
            0 <= k < round.next ==> state.channel_id(round.names[k].0) != Some(id),
        forall|j: int|
            #![trigger round.names[j]]
            round.next < j < round.names.len() ==> target(start, round, j) != Some(id),
    ensures
        halfway(
            start,
            if record {
                state.with_channel(round.names[round.next as int].0, id)
            } else {
                state
            },
            round.advanced(record),
            guild2,
        ),
{
    let n = round.next as int;
    let after = if record {
        state.with_channel(round.names[n].0, id)
    } else {
        state
    };
    let round2 = round.advanced(record);
    assert(after.channel_id(round.names[n].0) == Some(id));
    assert forall|k: int|
        #![trigger round.names[k]]
        0 <= k < round.names.len() && k != n implies after.channel_id(round.names[k].0)
        == state.channel_id(round.names[k].0) by {
        if k < n {
            assert(round.names[k].0 != round.names[n].0);
        } else {
            assert(round.names[n].0 != round.names[k].0);
        }
    }
    assert forall|j: int|
        #![trigger round.names[j]]
        0 <= j < round.names.len() implies target(start, round2, j) == target(start, round, j) by {}
    assert forall|k: int|
        #![trigger round2.names[k]]
        0 <= k < round2.next implies shown(after, round2, guild2, k) by {
        if k < n {
            assert(shown(state, round, guild, k));
            let other = state.channel_id(round.names[k].0)->0;
            assert(first(guild2, has_id(other)) == first(guild, has_id(other)));
        }
    }
    assert forall|k: int, j: int|
        #![trigger round2.names[k], round2.names[j]]
        0 <= k < round2.next <= j < round2.names.len() implies target(start, round2, j)
        != after.channel_id(round2.names[k].0) by {
        assert(target(start, round, j) == target(start, round2, j));
        if k < n {
            assert(target(start, round, j) != state.channel_id(round.names[k].0));
        }
    }
    assert forall|j: int|
        #![trigger round2.names[j]]
        round2.next <= j < round2.names.len() implies (target(start, round2, j) matches Some(other)
        ==> first(guild2, has_id(other)) == first(round2.channels, has_id(other)) && first(
        guild2,
        has_id(other),
    ) is Some) by {
        if let Some(other) = target(start, round2, j) {
            assert(target(start, round, j) == Some(other));
            assert(first(guild2, has_id(other)) == first(guild, has_id(other)));
        }
    }
}

/// A round whose actions all succeed shows every label in the end, and leaves every
/// channel that no label uses as it was.
proof fn lemma_round(
    setup: Setup,
    start: StateView,
    state: StateView,
    round: RoundView,
    guild: Seq<ChannelView>,
    world: World,
    count: nat,
    limit: nat,
)
    requires
        gives_fresh_ids(world.fresh, limit),
        guild.len() + round.names.len() - round.next <= limit,
        ids_distinct(round.channels),
        ids_nonzero(round.channels),
        round_labels_distinct(round),
        targets_distinct(start, round),
        round.next <= round.names.len() <= round.next + count,
        halfway(start, state, round, guild),
    ensures
        ({
            let (end, guild2) = drive(setup.proceed(state, round), guild, world, count + 1);
            &&& rests(setup, end)
            &&& end.updater.state.category_id == state.category_id
            &&& forall|k: int|
                #![trigger round.names[k]]
                0 <= k < round.names.len() ==> shown(end.updater.state, round, guild2, k)
            &&& forall|other: u64|
                first(guild, has_id(other)) is Some && unused(start, round, other) ==> first(
                    guild2,
                    #[trigger] has_id(other),
                ) == first(guild, has_id(other))
        }),
    decreases round.names.len() - round.next,
{
    let fresh = world.fresh;
    if round.next < round.names.len() {
        let n = round.next as int;
        let (label, name) = round.names[n];
        lemma_target(start, round, n);
        assert(state.channel_id(round.names[n].0) == start.channel_id(round.names[n].0));
        let chosen = channel_step(round.channels, round.category_id, state, label, name);
        assert(chosen == channel_step(round.channels, round.category_id, start, label, name));
        assert forall|j: int|
            #![trigger round.names[j]]
            n < j < round.names.len() && target(start, round, n) is Some implies target(
            start,
            round,
            j,
        ) != target(start, round, n) by {
            assert(target(start, round, n) != target(start, round, j));
        }
        match chosen {
            ChannelStep::Keep { id, record } => {
                lemma_halfway_next(start, state, round, guild, id, record, guild);
                let kept = if record {
                    state.with_channel(label, id)
                } else {
                    state
                };
                let round2 = round.advanced(record);
                lemma_same_targets(start, round, round2);
                lemma_round(setup, start, kept, round2, guild, world, count, limit);
                lemma_same_shown(start, round, round2);
                let gone = match gone_channel(round.channels, state, label) {
                    Some(gone_id) => Some(GoneView::Channel { label, id: gone_id }),
                    None => None,
                };
                assert(setup.proceed(state, round) == setup.proceed(kept, round2).noting(gone));
                lemma_drive_noting(setup.proceed(kept, round2), gone, guild, world, count + 1);
            },
            ChannelStep::Edit { id, record } => {
                let guild2 = edited(guild, id, name, round.category_id);
                assert forall|other: u64|
                    other != id && first(guild, has_id(other)) is Some implies first(
                    guild2,
                    #[trigger] has_id(other),
                ) == first(guild, has_id(other)) by {
                    lemma_first_edited(guild, id, name, round.category_id, other);
                }
                lemma_first_edited(guild, id, name, round.category_id, id);
                lemma_halfway_next(start, state, round, guild, id, record, guild2);
                let kept = if record {
                    state.with_channel(label, id)
                } else {
                    state
                };
                let round2 = round.advanced(record);
                lemma_same_targets(start, round, round2);
                lemma_round(setup, start, kept, round2, guild2, world, (count - 1) as nat, limit);
                lemma_same_shown(start, round, round2);
                assert(target(start, round, n) == Some(id));
                let step = setup.proceed(state, round);
                assert(step.updater.step(EventView::Done) == setup.proceed(kept, round2));
                assert(drive(step, guild, world, count + 1) == drive(
                    setup.proceed(kept, round2),
                    guild2,
                    world,
                    count,
                ));
            },
            ChannelStep::Create => {
                let id = fresh(guild);
                let channel = ChannelView {
                    id,
                    kind: ChannelKind::Voice,
                    name,
                    parent_id: Some(round.category_id),
                };
                let guild2 = created(guild, id, name, round.category_id);
                assert(first(guild, has_id(id)) is None) by {
                    lemma_first(guild, has_id(id));
                    let pick = has_id(id);
                    assert forall|i: int| 0 <= i < guild.len() implies !pick(
                        #[trigger] guild[i],
                    ) by {
                        assert(guild[i].id != fresh(guild));
                    }
                }
                assert forall|other: u64|
                    other != id && first(guild, has_id(other)) is Some implies first(
                    guild2,
                    #[trigger] has_id(other),
                ) == first(guild, has_id(other)) by {
                    lemma_first_pushed(guild, channel, other);
                }
                lemma_first_pushed(guild, channel, id);
                assert forall|k: int|
                    #![trigger round.names[k]]
                    0 <= k < round.next implies state.channel_id(round.names[k].0) != Some(id) by {
                    assert(shown(state, round, guild, k));
                }
                lemma_halfway_next(start, state, round, guild, id, true, guild2);
                let kept = state.with_channel(label, id);
                let round2 = round.advanced(true);
                lemma_same_targets(start, round, round2);
                lemma_round(setup, start, kept, round2, guild2, world, (count - 1) as nat, limit);
                lemma_same_shown(start, round, round2);
                let step = setup.proceed(state, round);
                assert(step.updater.step(EventView::Created { id }) == setup.proceed(kept, round2));
                assert(drive(step, guild, world, count + 1) == drive(
                    setup.proceed(kept, round2),
                    guild2,
                    world,
                    count,
                ));
            },
        }
    } else {
        let step = setup.proceed(state, round);
        reveal_with_fuel(drive, 3);
        if round.changed {
            assert(step.updater.step(EventView::Done) == setup.pause(state, None));
        }
        assert(drive(step, guild, world, count + 1) == (setup.pause(state, None), guild));
    }
}

proof fn lemma_same_targets(start: StateView, round: RoundView, round2: RoundView)
    requires
        round2.channels == round.channels,
        round2.category_id == round.category_id,
        round2.names == round.names,
        targets_distinct(start, round),
        round_labels_distinct(round),
    ensures
        targets_distinct(start, round2),
        round_labels_distinct(round2),
{
    assert forall|i: int, j: int|
        0 <= i < j < round2.names.len() && target(start, round2, i) is Some implies #[trigger] target(
        start,
        round2,
        i,
    ) != #[trigger] target(start, round2, j) by {
        assert(target(start, round, i) != target(start, round, j));
    }
}

proof fn lemma_same_shown(start: StateView, round: RoundView, round2: RoundView)
    requires
        round2.channels == round.channels,
        round2.category_id == round.category_id,
        round2.names == round.names,
    ensures
        forall|other: u64|
            #![trigger unused(start, round, other)]
            unused(start, round, other) ==> unused(start, round2, other),
        forall|state: StateView, guild: Seq<ChannelView>, k: int|
            #![trigger shown(state, round, guild, k)]
            #![trigger shown(state, round2, guild, k)]
            shown(state, round, guild, k) == shown(state, round2, guild, k),
{
    assert forall|other: u64|
        #![trigger unused(start, round, other)]
        unused(start, round, other) implies unused(start, round2, other) by {
        assert forall|k: int|
            #![trigger round2.names[k]]
            0 <= k < round2.names.len() implies target(start, round2, k) != Some(other) by {
            assert(round.names[k] == round2.names[k]);
            assert(target(start, round, k) != Some(other));
        }
    }
}

/// A round over the figures has no label twice.
pub proof fn law_labels_of_a_round(snapshot: StatsSnapshot, round: RoundView)
    requires
        round.names == snapshot.names(),
    ensures
        round_labels_distinct(round),
{
    assert forall|i: int, j: int| 0 <= i < j < round.names.len() implies (
    #[trigger] round.names[i]).0 != (#[trigger] round.names[j]).0 by {
        law_labels_apart(i, j);
        let label = labels()[i];
        assert(label.subrange(0, label.len() as int) == label);
    }
}

/// A round whose actions all succeed makes the guild show every name: in the end each
/// label has a recorded channel in the guild that has the name and is in the category,
/// and another round with the same names changes nothing. This needs that no channel is
/// used for two labels at once.
pub proof fn law_round_shows_every_name(
    setup: Setup,
    state: StateView,
    round: RoundView,
    world: World,
)
    requires
        gives_fresh_ids(world.fresh, round.channels.len() + round.names.len()),
        ids_distinct(round.channels),
        ids_nonzero(round.channels),
        round_labels_distinct(round),
        targets_distinct(state, round),
        round.next == 0,
    ensures
        ({
            let (end, guild) = drive(
                setup.proceed(state, round),
                round.channels,
                world,
                round.names.len() + 1,
            );
            let again = RoundView { channels: guild, changed: false, ..round };
            &&& rests(setup, end)
            &&& forall|k: int|
                0 <= k < round.names.len() ==> #[trigger] up_to_date(end.updater.state, again, k)
            &&& setup.proceed(end.updater.state, again) == setup.pause(end.updater.state, None)
        }),
{
    lemma_fresh_start(state, round, round.channels);
    lemma_round(
        setup,
        state,
        state,
        round,
        round.channels,
        world,
        round.names.len(),
        round.channels.len() + round.names.len(),
    );
    let (end, guild) = drive(
        setup.proceed(state, round),
        round.channels,
        world,
        round.names.len() + 1,
    );
    let again = RoundView { channels: guild, changed: false, ..round };
    assert forall|k: int| 0 <= k < round.names.len() implies #[trigger] up_to_date(
        end.updater.state,
        again,
        k,
    ) by {
        assert(round.names[k] == again.names[k]);
        assert(shown(end.updater.state, round, guild, k));
    }
    law_nothing_to_do(setup, end.updater.state, again);
}

/// Before its first label a round is as it should be, if the channels that labels use
/// are in the guild as they were listed.
proof fn lemma_fresh_start(state: StateView, round: RoundView, guild: Seq<ChannelView>)
    requires
        ids_distinct(round.channels),
        round.next == 0,
        forall|k: int|
            #![trigger round.names[k]]
            0 <= k < round.names.len() ==> (target(state, round, k) matches Some(id) ==> first(
                guild,
                has_id(id),
            ) == first(round.channels, has_id(id))),
    ensures
        halfway(state, state, round, guild),
{
    assert forall|j: int|
        #![trigger round.names[j]]
        0 <= j < round.names.len() implies (target(state, round, j) matches Some(id) ==> first(
        round.channels,
        has_id(id),
    ) is Some) by {
        lemma_target(state, round, j);
    }
}

proof fn lemma_first_renamed(guild: Seq<ChannelView>, id: u64, name: Seq<char>, other: u64)
    ensures
        other != id ==> first(renamed(guild, id, name), has_id(other)) == first(
            guild,
            has_id(other),
        ),
        first(guild, has_id(id)) matches Some(c) ==> first(
            renamed(guild, id, name),
            has_id(id),
        ) == Some(ChannelView { name, ..c }),
    decreases guild.len(),
{
    if guild.len() > 0 {
        lemma_first_renamed(guild.skip(1), id, name, other);
        assert(renamed(guild, id, name).skip(1) =~= renamed(guild.skip(1), id, name));
    }
}

/// What the category is brought about by in an update of this guild.
pub open spec fn category_choice(updater: UpdaterView, guild: Seq<ChannelView>) -> Result<
    CategoryStep,
    CategoryError,
> {
    category_step(
        updater.setup.config.category_id,
        updater.setup.config.category_title@,
        guild,
        updater.state.category_id,
    )
}

/// The category that the stats channels then are in.
pub open spec fn category_in_use(updater: UpdaterView, guild: Seq<ChannelView>, world: World) -> u64 {
    let fresh = world.fresh;
    match category_choice(updater, guild) {
        Ok(CategoryStep::Keep { id }) => id,
        Ok(CategoryStep::Rename { id }) => id,
        _ => fresh(guild),
    }
}

/// The figures that a world answers with.
pub open spec fn figures(world: World) -> StatsSnapshot {
    StatsSnapshot {
        xelis: match world.report {
            EventView::DaemonStats { xelis } => Some(xelis),
            _ => None,
        },
        price: match world.quote {
            EventView::PriceFetched { price } => Some(price),
            _ => None,
        },
    }
}

/// The round of an update of this guild.
pub open spec fn round_of(
    updater: UpdaterView,
    guild: Seq<ChannelView>,
    world: World,
    changed: bool,
) -> RoundView {
    RoundView {
        channels: guild,
        category_id: category_in_use(updater, guild, world),
        changed,
        names: figures(world).names(),
        next: 0,
    }
}

/// Fetching the figures takes two actions and leads to a round.
proof fn lemma_fetch(
    setup: Setup,
    state: StateView,
    channels: Seq<ChannelView>,
    category_id: u64,
    changed: bool,
    guild: Seq<ChannelView>,
    world: World,
    count: nat,
)
    ensures
        drive(
            setup.fetch(state, channels, category_id, changed),
            guild,
            world,
            count + 2,
        ) == drive(
            setup.proceed(
                state,
                RoundView {
                    channels,
                    category_id,
                    changed,
                    names: figures(world).names(),
                    next: 0,
                },
            ),
            guild,
            world,
            count,
        ),
{
    let one = setup.fetch(state, channels, category_id, changed);
    let two = one.updater.step(world.report);
    let three = two.updater.step(world.quote);
    let round = RoundView {
        channels,
        category_id,
        changed,
        names: figures(world).names(),
        next: 0,
    };
    assert(three == setup.proceed(state, round));
    assert(drive(one, guild, world, count + 2) == drive(two, guild, world, count + 1));
    assert(drive(two, guild, world, count + 1) == drive(three, guild, world, count));
}

/// Bringing the category about takes one action at most. It leads to fetching the
/// figures, with the category in the guild under its title and every other channel as
/// it was.
proof fn lemma_categorize(
    updater: UpdaterView,
    guild: Seq<ChannelView>,
    world: World,
    count: nat,
) -> (r: (Seq<ChannelView>, bool, nat))
    requires
        updater.phase is Listing,
        ids_distinct(guild),
        ids_nonzero(guild),
        gives_fresh_ids(world.fresh, guild.len() + 1),
        category_choice(updater, guild) is Ok,
    ensures
        ({
            let (guild2, changed, left) = r;
            let id = category_in_use(updater, guild, world);
            &&& count <= left <= count + 1
            &&& guild2.len() <= guild.len() + 1
            &&& id != 0
            &&& drive(
                updater.step(EventView::Channels { channels: guild }),
                guild,
                world,
                count + 1,
            ) == drive(
                updater.setup.fetch(updater.state.with_category(id), guild, id, changed),
                guild2,
                world,
                left,
            )
            &&& first(guild2, has_id(id)) matches Some(c) && c.kind == ChannelKind::Category
                && c.name == updater.setup.config.category_title@
            &&& forall|other: u64|
                other != id && first(guild, has_id(other)) is Some ==> first(
                    guild2,
                    #[trigger] has_id(other),
                ) == first(guild, has_id(other))
        }),
{
    let state = updater.state;
    let title = updater.setup.config.category_title@;
    let step = updater.step(EventView::Channels { channels: guild });
    let id = category_in_use(updater, guild, world);
    lemma_category_nonzero(updater.setup.config.category_id, title, guild, state.category_id);
    lemma_first(guild, titled(title));
    lemma_first(guild, has_id(id));
    match category_choice(updater, guild) {
        Ok(CategoryStep::Keep { id: used }) => {
            if let Some(c) = first(guild, titled(title)) {
                lemma_found_by_id(guild, c);
            }
            (guild, state.category_id != Some(id), count + 1)
        },
        Ok(CategoryStep::Rename { id: used }) => {
            let guild2 = renamed(guild, id, title);
            lemma_first_renamed(guild, id, title, id);
            assert forall|other: u64|
                other != id && first(guild, has_id(other)) is Some implies first(
                guild2,
                #[trigger] has_id(other),
            ) == first(guild, has_id(other)) by {
                lemma_first_renamed(guild, id, title, other);
            }
            let changed = state.category_id != Some(id);
            assert(step.updater.step(EventView::Done) == updater.setup.fetch(
                state.with_category(id),
                guild,
                id,
                changed,
            ));
            (guild2, changed, count)
        },
        _ => {
            let fresh = world.fresh;
            let channel = ChannelView {
                id,
                kind: ChannelKind::Category,
                name: title,
                parent_id: None,
            };
            let guild2 = guild.push(channel);
            assert(first(guild, has_id(id)) is None) by {
                let pick = has_id(id);
                assert forall|i: int| 0 <= i < guild.len() implies !pick(#[trigger] guild[i]) by {
                    assert(guild[i].id != fresh(guild));
                }
            }
            lemma_first_pushed(guild, channel, id);
            assert forall|other: u64|
                other != id && first(guild, has_id(other)) is Some implies first(
                guild2,
                #[trigger] has_id(other),
            ) == first(guild, has_id(other)) by {
                lemma_first_pushed(guild, channel, other);
            }
            assert(step.updater.step(EventView::Created { id }) == updater.setup.fetch(
                state.with_category(id),
                guild,
                id,
                true,
            ));
            (guild2, true, count)
        },
    }
}

/// The guild has a channel of this id, name and parent.
pub open spec fn guild_has(guild: Seq<ChannelView>, id: u64, name: Seq<char>, parent: u64) -> bool {
    exists|i: int|
        0 <= i < guild.len() && (#[trigger] guild[i]).id == id && guild[i].name == name
            && guild[i].parent_id == Some(parent)
}

/// The guild has a category of this id and title.
pub open spec fn guild_has_category(guild: Seq<ChannelView>, id: u64, title: Seq<char>) -> bool {
    exists|i: int|
        0 <= i < guild.len() && (#[trigger] guild[i]).id == id && guild[i].kind
            == ChannelKind::Category && guild[i].name == title
}

/// An update whose actions all succeed settles: it ends with the machine waiting and
/// the guild showing every name in the category. The category in use is recorded, and
/// is in the guild under its title; the channel that is recorded for each label is in
/// the guild, in the category, and its whole name is the label's; the channels that are
/// used for nothing are as they were. The next update, with the same figures, changes
/// neither the guild nor the recorded ids. This needs that the category is not refused,
/// that no channel is used for two labels at once, and that the category itself is used
/// for none.
#[verifier::rlimit(40)]
pub proof fn law_updates_settle(updater: UpdaterView, guild: Seq<ChannelView>, world: World)
    requires
        updater.phase is Listing,
        ids_distinct(guild),
        ids_nonzero(guild),
        gives_fresh_ids(world.fresh, guild.len() + 10),
        category_choice(updater, guild) is Ok,
        targets_distinct(updater.state, round_of(updater, guild, world, false)),
        unused(
            updater.state,
            round_of(updater, guild, world, false),
            category_in_use(updater, guild, world),
        ),
    ensures
        ({
            let (end, guild2) = drive(
                updater.step(EventView::Channels { channels: guild }),
                guild,
                world,
                13,
            );
            let round = RoundView {
                channels: guild2,
                ..round_of(updater, guild, world, false)
            };
            &&& rests(updater.setup, end)
            &&& forall|k: int| 0 <= k < 9 ==> #[trigger] up_to_date(end.updater.state, round, k)
            &&& end.updater.state.category_id == Some(category_in_use(updater, guild, world))
            &&& guild_has_category(
                guild2,
                category_in_use(updater, guild, world),
                updater.setup.config.category_title@,
            )
            &&& forall|k: int|
                0 <= k < 9 ==> end.updater.state.channels.contains_key(
                    (#[trigger] round.names[k]).0,
                ) && guild_has(
                    guild2,
                    end.updater.state.channels[round.names[k].0],
                    round.names[k].1,
                    category_in_use(updater, guild, world),
                )
            &&& forall|i: int|
                0 <= i < guild.len() && guild[i].id != category_in_use(updater, guild, world)
                    && unused(
                    updater.state,
                    round_of(updater, guild, world, false),
                    guild[i].id,
                ) ==> guild2.contains(#[trigger] guild[i])
            &&& drive(end.updater.step(EventView::Done), guild2, world, 4) == (
                updater.setup.pause(end.updater.state, None),
                guild2,
            )
        }),
{
    let setup = updater.setup;
    let id = category_in_use(updater, guild, world);
    let state = updater.state.with_category(id);
    let plain = round_of(updater, guild, world, false);
    let (guild1, changed, left) = lemma_categorize(updater, guild, world, 12);
    let round = round_of(updater, guild, world, changed);
    lemma_fetch(setup, state, guild, id, changed, guild1, world, (left - 2) as nat);
    law_labels_of_a_round(figures(world), round);
    lemma_same_choices(updater.state, plain, state, round);
    assert forall|k: int|
        #![trigger round.names[k]]
        0 <= k < round.names.len() implies (target(state, round, k) matches Some(used) ==> first(
        guild1,
        has_id(used),
    ) == first(round.channels, has_id(used))) by {
        lemma_target(state, round, k);
        assert(target(state, round, k) != Some(id));
    }
    lemma_fresh_start(state, round, guild1);
    lemma_round(
        setup,
        state,
        state,
        round,
        guild1,
        world,
        (left - 3) as nat,
        guild.len() + 10,
    );
    let (end, guild2) = drive(
        updater.step(EventView::Channels { channels: guild }),
        guild,
        world,
        13,
    );
    assert((end, guild2) == drive(setup.proceed(state, round), guild1, world, (left - 2) as nat));
    assert(first(guild2, has_id(id)) == first(guild1, has_id(id)));
    let again = RoundView { channels: guild2, ..plain };
    assert forall|k: int| 0 <= k < 9 implies #[trigger] up_to_date(
        end.updater.state,
        again,
        k,
    ) by {
        assert(round.names[k] == again.names[k]);
        assert(shown(end.updater.state, round, guild2, k));
    }
    lemma_first(guild2, has_id(id));
    lemma_guild_has(guild2, id);
    assert forall|k: int| 0 <= k < 9 implies end.updater.state.channels.contains_key(
        (#[trigger] again.names[k]).0,
    ) && guild_has(
        guild2,
        end.updater.state.channels[again.names[k].0],
        again.names[k].1,
        id,
    ) by {
        assert(up_to_date(end.updater.state, again, k));
        lemma_guild_has(guild2, end.updater.state.channels[again.names[k].0]);
    }
    assert forall|i: int|
        0 <= i < guild.len() && guild[i].id != id && unused(
            updater.state,
            plain,
            guild[i].id,
        ) implies guild2.contains(#[trigger] guild[i]) by {
        let other = guild[i].id;
        assert(guild.contains(guild[i]));
        lemma_found_by_id(guild, guild[i]);
        lemma_same_unused(updater.state, plain, state, round, other);
        assert(first(guild1, has_id(other)) == Some(guild[i]));
        assert(first(guild2, has_id(other)) == Some(guild[i]));
        lemma_first(guild2, has_id(other));
    }
    if nonzero(setup.config.category_id) is Some {
        law_configured_category_decides(
            setup.config.category_id,
            setup.config.category_title@,
            guild,
            updater.state.category_id,
            None,
        );
    }
    let listing = setup.at(end.updater.state, PhaseView::Listing);
    law_quiet_update(listing, guild2, id, world.report, world.quote, figures(world));
    let zero = end.updater.step(EventView::Done);
    assert(zero == setup.list(end.updater.state));
    assert(zero.updater == listing);
    let one = listing.step(EventView::Channels { channels: guild2 });
    let two = one.updater.step(world.report);
    let three = two.updater.step(world.quote);
    assert(drive(zero, guild2, world, 4) == drive(one, guild2, world, 3));
    assert(drive(one, guild2, world, 3) == drive(two, guild2, world, 2));
    assert(drive(two, guild2, world, 2) == drive(three, guild2, world, 1));
    assert(drive(three, guild2, world, 1) == (three, guild2));
}

/// A channel that is found by its id is at some position.
proof fn lemma_guild_has(guild: Seq<ChannelView>, id: u64)
    ensures
        first(guild, has_id(id)) matches Some(c) ==> c.id == id && exists|i: int|
            0 <= i < guild.len() && #[trigger] guild[i] == c,
{
    lemma_first(guild, has_id(id));
    if let Some(c) = first(guild, has_id(id)) {
        let i = choose|i: int| 0 <= i < guild.len() && guild[i] == c;
        assert(guild[i] == c);
    }
}

/// Recording the category does not change whether a channel is used.
proof fn lemma_same_unused(
    state: StateView,
    round: RoundView,
    state2: StateView,
    round2: RoundView,
    id: u64,
)
    requires
        round2.channels == round.channels,
        round2.category_id == round.category_id,
        round2.names == round.names,
        state2.channels == state.channels,
        unused(state, round, id),
    ensures
        unused(state2, round2, id),
{
    assert forall|k: int|
        #![trigger round2.names[k]]
        0 <= k < round2.names.len() implies target(state2, round2, k) != Some(id) by {
        let (label, name) = round.names[k];
        assert(state2.channel_id(label) == state.channel_id(label));
        assert(target(state2, round2, k) == target(state, round, k));
    }
}

/// Recording the category does not change which channels are used.
proof fn lemma_same_choices(
    state: StateView,
    round: RoundView,
    state2: StateView,
    round2: RoundView,
)
    requires
        round2.channels == round.channels,
        round2.category_id == round.category_id,
        round2.names == round.names,
        state2.channels == state.channels,
        targets_distinct(state, round),
        unused(state, round, round.category_id),
    ensures
        targets_distinct(state2, round2),
        unused(state2, round2, round.category_id),
{
    assert forall|k: int|
        #![trigger round2.names[k]]
        0 <= k < round2.names.len() implies target(state2, round2, k) == target(state, round, k) by {
        let (label, name) = round.names[k];
        assert(state2.channel_id(label) == state.channel_id(label));
    }
    assert forall|i: int, j: int|
        0 <= i < j < round2.names.len() && target(state2, round2, i) is Some implies #[trigger] target(
        state2,
        round2,
        i,
    ) != #[trigger] target(state2, round2, j) by {
        assert(target(state2, round2, i) == target(state, round, i));
        assert(target(state2, round2, j) == target(state, round, j));
    }
    assert forall|k: int|
        #![trigger round2.names[k]]
        0 <= k < round2.names.len() implies target(state2, round2, k) != Some(round.category_id) by {
        assert(round.names[k] == round2.names[k]);
        assert(target(state2, round2, k) == target(state, round, k));
    }
}

} // verus!
