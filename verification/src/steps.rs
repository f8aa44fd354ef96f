//! What each step of the update loop does to the recorded ids and asks for.
use crate::category::{category_step, gone_category, CategoryError, CategoryStep};
use crate::channels::{channel_step, gone_channel, listed, ChannelStep, ChannelView};
use crate::config::Interval;
use crate::laws::{lemma_resumed, resumed, run};
use crate::snapshot::{xelis_nameable, StatsSnapshot};
use crate::state::StateView;
use crate::updater::{
    Action, ActionView, Event, EventView, GoneView, PhaseView, RoundView, Setup, StepView,
    UpdaterView,
};
use vstd::prelude::*;

verus! {

/// The update is over: the machine waits for the longer of the configured interval and a
/// second, and has these ids recorded.
pub open spec fn waits(
    step: StepView,
    setup: Setup,
    state: StateView,
    error: Option<CategoryError>,
) -> bool {
    let interval = setup.config.refresh_interval;
    &&& step.updater == (UpdaterView { setup, state, phase: PhaseView::Sleeping })
    &&& interval.secs > 0 || interval.nanos >= 1_000_000_000 ==> step.action == (
    ActionView::Sleep { interval })
    &&& interval.secs == 0 && interval.nanos < 1_000_000_000 ==> step.action == (
    ActionView::Sleep { interval: Interval { secs: 1, nanos: 0 } })
    &&& step.error == error
}

/// At first the ids that were read are taken over, and none where none could be read; then
/// the guild is listed.
pub proof fn law_step_after_loading(updater: UpdaterView, event: EventView)
    requires
        updater.phase is Loading,
    ensures
        ({
            let step = updater.step(event);
            let setup = updater.setup;
            &&& step.updater.setup == setup
            &&& step.updater.phase is Listing
            &&& step.action == (ActionView::ListChannels { guild_id: setup.guild_id })
            &&& step.error is None
            &&& step.gone.len() == 0
            &&& event matches EventView::Loaded { state: Some(state) } ==> step.updater.state
                == state
            &&& !(event is Loaded) || event->state is None ==> step.updater.state.category_id
                is None && step.updater.state.channels == Map::<Seq<char>, u64>::empty()
        }),
{
}

/// After a wait the guild is listed again, with the same ids recorded.
pub proof fn law_step_after_waiting(updater: UpdaterView, event: EventView)
    requires
        updater.phase is Sleeping,
    ensures
        updater.step(event) == (StepView {
            updater: UpdaterView { phase: PhaseView::Listing, ..updater },
            action: ActionView::ListChannels { guild_id: updater.setup.guild_id },
            error: None,
            gone: seq![],
        }),
{
}

/// The outcome is not the one that the action has when it succeeds.
pub open spec fn failed(phase: PhaseView, event: EventView) -> bool {
    match phase {
        PhaseView::Listing => !(event is Channels),
        PhaseView::RenamingCategory { .. } => !(event is Done),
        PhaseView::CreatingCategory { .. } => !(event is Created),
        PhaseView::Editing { .. } => !(event is Done),
        PhaseView::Creating { .. } => !(event is Created),
        _ => false,
    }
}

/// An action on the guild that fails ends the update, and so does a write, whether it fails
/// or not; the recorded ids stay as they are.
pub proof fn law_step_that_ends_the_update(updater: UpdaterView, event: EventView)
    requires
        failed(updater.phase, event) || updater.phase is Saving,
    ensures
        waits(updater.step(event), updater.setup, updater.state, None),
        updater.step(event).gone.len() == 0,
{
}

/// What is told of the category when the guild is listed.
pub open spec fn tells_category(gone: Seq<GoneView>, id: Option<u64>) -> bool {
    match id {
        Some(id) => gone == seq![GoneView::Category { id }],
        None => gone.len() == 0,
    }
}

/// When the guild is listed, the category that is chosen decides: a refusal ends the update
/// with nothing recorded; a category that is kept is recorded, and to be written where
/// another one was recorded; one that is to be renamed or created is not recorded yet.
pub proof fn law_step_after_listing(updater: UpdaterView, channels: Seq<ChannelView>)
    requires
        updater.phase is Listing,
    ensures
        ({
            let step = updater.step(EventView::Channels { channels });
            let UpdaterView { setup, state, .. } = updater;
            let title = setup.config.category_title@;
            let configured = setup.config.category_id;
            let chosen = category_step(configured, title, channels, state.category_id);
            &&& tells_category(step.gone, gone_category(configured, channels, state.category_id))
            &&& chosen matches Err(error) ==> waits(step, setup, state, Some(error))
            &&& chosen matches Ok(CategoryStep::Keep { id }) ==> {
                &&& step.action is FetchDaemonStats
                &&& step.error is None
                &&& step.updater == (UpdaterView {
                    setup,
                    state: StateView { category_id: Some(id), channels: state.channels },
                    phase: PhaseView::FetchingDaemonStats {
                        channels,
                        category_id: id,
                        changed: state.category_id != Some(id),
                    },
                })
            }
            &&& chosen matches Ok(CategoryStep::Rename { id }) ==> {
                &&& step.action == (ActionView::RenameCategory { id, title })
                &&& step.error is None
                &&& step.updater == (UpdaterView {
                    setup,
                    state,
                    phase: PhaseView::RenamingCategory { channels, id },
                })
            }
            &&& chosen == Ok::<CategoryStep, CategoryError>(CategoryStep::Create) ==> {
                &&& step.action == (ActionView::CreateCategory { guild_id: setup.guild_id, title })
                &&& step.error is None
                &&& step.updater == (UpdaterView {
                    setup,
                    state,
                    phase: PhaseView::CreatingCategory { channels },
                })
            }
        }),
{
}

/// A renamed category is recorded, and to be written where another one was recorded.
pub proof fn law_step_after_renaming(updater: UpdaterView, channels: Seq<ChannelView>, id: u64)
    requires
        updater.phase == (PhaseView::RenamingCategory { channels, id }),
    ensures
        updater.step(EventView::Done) == (StepView {
            updater: UpdaterView {
                setup: updater.setup,
                state: StateView { category_id: Some(id), channels: updater.state.channels },
                phase: PhaseView::FetchingDaemonStats {
                    channels,
                    category_id: id,
                    changed: updater.state.category_id != Some(id),
                },
            },
            action: ActionView::FetchDaemonStats,
            error: None,
            gone: seq![],
        }),
{
}

/// A created category is recorded, and to be written.
pub proof fn law_step_after_creating_the_category(
    updater: UpdaterView,
    channels: Seq<ChannelView>,
    id: u64,
)
    requires
        updater.phase == (PhaseView::CreatingCategory { channels }),
    ensures
        updater.step(EventView::Created { id }) == (StepView {
            updater: UpdaterView {
                setup: updater.setup,
                state: StateView { category_id: Some(id), channels: updater.state.channels },
                phase: PhaseView::FetchingDaemonStats { channels, category_id: id, changed: true },
            },
            action: ActionView::FetchDaemonStats,
            error: None,
            gone: seq![],
        }),
{
}

/// Whatever the daemon answers, the price is asked for next; a report is kept.
pub proof fn law_step_after_the_report(
    updater: UpdaterView,
    event: EventView,
    channels: Seq<ChannelView>,
    category_id: u64,
    changed: bool,
)
    requires
        updater.phase == (PhaseView::FetchingDaemonStats { channels, category_id, changed }),
    ensures
        ({
            let step = updater.step(event);
            &&& step.action == (ActionView::FetchPrice { url: updater.setup.config.price_url@ })
            &&& step.error is None
            &&& step.gone.len() == 0
            &&& step.updater.setup == updater.setup
            &&& step.updater.state == updater.state
            &&& step.updater.phase matches PhaseView::FetchingPrice {
                channels: c,
                category_id: i,
                changed: h,
                xelis,
            } && c == channels && i == category_id && h == changed && (event matches
                EventView::DaemonStats { xelis: x } ==> xelis == Some(x)) && (!(
            event is DaemonStats) ==> xelis is None)
        }),
{
}

/// Whatever the price endpoint answers, the round starts at its first label, with the names
/// of the report and the price that were had.
pub proof fn law_step_after_the_price(updater: UpdaterView, event: EventView)
    requires
        updater.phase is FetchingPrice,
    ensures
        updater.phase matches PhaseView::FetchingPrice { channels, category_id, changed, xelis }
            ==> (event matches EventView::PriceFetched { price } ==> updater.step(event)
            == updater.setup.proceed(
            updater.state,
            RoundView {
                channels,
                category_id,
                changed,
                names: (StatsSnapshot { xelis, price: Some(price) }).names(),
                next: 0,
            },
        )) && (!(event is PriceFetched) ==> updater.step(event) == updater.setup.proceed(
            updater.state,
            RoundView {
                channels,
                category_id,
                changed,
                names: (StatsSnapshot { xelis, price: None }).names(),
                next: 0,
            },
        )),
{
}

/// After an edit the round goes on with the next label. The channel is recorded, and to be
/// written, where it was found by its label.
pub proof fn law_step_after_editing(updater: UpdaterView, round: RoundView, id: u64, record: bool)
    requires
        updater.phase == (PhaseView::Editing { round, id, record }),
    ensures
        !record ==> updater.step(EventView::Done) == updater.setup.proceed(
            updater.state,
            RoundView { next: round.next + 1, ..round },
        ),
        record ==> updater.step(EventView::Done) == updater.setup.proceed(
            StateView {
                category_id: updater.state.category_id,
                channels: updater.state.channels.insert(round.names[round.next as int].0, id),
            },
            RoundView { next: round.next + 1, changed: true, ..round },
        ),
{
}

/// A created channel is recorded, and to be written; the round goes on with the next label.
pub proof fn law_step_after_creating_a_channel(updater: UpdaterView, round: RoundView, id: u64)
    requires
        updater.phase == (PhaseView::Creating { round }),
    ensures
        updater.step(EventView::Created { id }) == updater.setup.proceed(
            StateView {
                category_id: updater.state.category_id,
                channels: updater.state.channels.insert(round.names[round.next as int].0, id),
            },
            RoundView { next: round.next + 1, changed: true, ..round },
        ),
{
}

/// After the last label the recorded ids are written to the configured file, where any of
/// them is to be written; else the update is over.
pub proof fn law_end_of_a_round(setup: Setup, state: StateView, round: RoundView)
    requires
        round.next >= round.names.len(),
    ensures
        setup.proceed(state, round).gone.len() == 0,
        !round.changed ==> waits(setup.proceed(state, round), setup, state, None),
        round.changed ==> {
            let step = setup.proceed(state, round);
            &&& step.updater == (UpdaterView { setup, state, phase: PhaseView::Saving })
            &&& step.action == (ActionView::SaveState { path: setup.config.state_path, state })
            &&& step.error is None
        },
{
}

/// What is told of a label's channel, before what is told after it.
pub open spec fn tells_channel(
    gone: Seq<GoneView>,
    label: Seq<char>,
    id: Option<u64>,
    after: Seq<GoneView>,
) -> bool {
    match id {
        Some(id) => gone == seq![GoneView::Channel { label, id }] + after,
        None => gone == after,
    }
}

/// What is done for the next label of a round is what is chosen for it: a channel that is
/// as it should be is passed over, and recorded where it was found by its label; a channel
/// that is to be edited or created is asked for, under the label's name and in the round's
/// category, with nothing recorded yet.
pub proof fn law_next_label(setup: Setup, state: StateView, round: RoundView)
    requires
        round.next < round.names.len(),
    ensures
        ({
            let step = setup.proceed(state, round);
            let (label, name) = round.names[round.next as int];
            let chosen = channel_step(round.channels, round.category_id, state, label, name);
            let gone = gone_channel(round.channels, state, label);
            &&& chosen matches ChannelStep::Keep { id, record: false } ==> {
                let rest = setup.proceed(state, RoundView { next: round.next + 1, ..round });
                &&& step.updater == rest.updater
                &&& step.action == rest.action
                &&& step.error == rest.error
                &&& tells_channel(step.gone, label, gone, rest.gone)
            }
            &&& chosen matches ChannelStep::Keep { id, record: true } ==> {
                let rest = setup.proceed(
                    StateView {
                        category_id: state.category_id,
                        channels: state.channels.insert(label, id),
                    },
                    RoundView { next: round.next + 1, changed: true, ..round },
                );
                &&& step.updater == rest.updater
                &&& step.action == rest.action
                &&& step.error == rest.error
                &&& tells_channel(step.gone, label, gone, rest.gone)
            }
            &&& chosen matches ChannelStep::Edit { id, record } ==> {
                &&& step.updater == (UpdaterView {
                    setup,
                    state,
                    phase: PhaseView::Editing { round, id, record },
                })
                &&& step.action == (ActionView::EditChannel {
                    id,
                    name,
                    category_id: round.category_id,
                })
                &&& step.error is None
                &&& tells_channel(step.gone, label, gone, seq![])
            }
            &&& chosen == ChannelStep::Create ==> {
                &&& step.updater == (UpdaterView {
                    setup,
                    state,
                    phase: PhaseView::Creating { round },
                })
                &&& step.action == (ActionView::CreateChannel {
                    guild_id: setup.guild_id,
                    name,
                    category_id: round.category_id,
                })
                &&& step.error is None
                &&& tells_channel(step.gone, label, gone, seq![])
            }
        }),
{
}

/// An id that was recorded since the update began is to be written.
pub open spec fn unwritten_are_marked(start: StateView, updater: UpdaterView) -> bool {
    match updater.phase {
        PhaseView::Listing => updater.state == start,
        PhaseView::RenamingCategory { .. } => updater.state == start,
        PhaseView::CreatingCategory { .. } => updater.state == start,
        PhaseView::FetchingDaemonStats { changed, .. } => changed || updater.state == start,
        PhaseView::FetchingPrice { changed, .. } => changed || updater.state == start,
        PhaseView::Editing { round, .. } => round.changed || updater.state == start,
        PhaseView::Creating { round } => round.changed || updater.state == start,
        _ => true,
    }
}

proof fn lemma_round_marks(start: StateView, setup: Setup, state: StateView, round: RoundView)
    requires
        round.changed || state == start,
    ensures
        unwritten_are_marked(start, setup.proceed(state, round).updater),
        setup.proceed(state, round).action is Sleep ==> setup.proceed(state, round).updater.state
            == start,
        setup.proceed(state, round).action matches ActionView::SaveState { state: written, .. }
            ==> setup.proceed(state, round).updater.state == written,
    decreases round.names.len() - round.next,
{
    if round.next < round.names.len() {
        let (label, name) = round.names[round.next as int];
        match channel_step(round.channels, round.category_id, state, label, name) {
            ChannelStep::Keep { id, record } => {
                let kept = if record {
                    state.with_channel(label, id)
                } else {
                    state
                };
                lemma_round_marks(start, setup, kept, round.advanced(record));
            },
            _ => {},
        }
    }
}

/// No recorded id is left unwritten by an update that comes to its end: from where the guild
/// is listed, over any outcomes up to the wait, the ids are as they were when the update
/// began, or are marked to be written; and where the update ends after its last label with
/// nothing to write, they are as they were.
pub proof fn law_nothing_is_left_unwritten(
    updater: UpdaterView,
    events: Seq<EventView>,
    event: EventView,
)
    requires
        updater.phase is Listing,
        forall|i: int|
            0 <= i <= events.len() ==> !((#[trigger] run(updater, events.take(i))).phase is Sleeping)
                && !(run(updater, events.take(i)).phase is Saving),
    ensures
        unwritten_are_marked(updater.state, run(updater, events)),
        ({
            let before = run(updater, events);
            let step = before.step(event);
            resumed(before, event) is Some && step.action is Sleep ==> step.updater.state
                == updater.state
        }),
{
    lemma_marked(updater, events);
    let before = run(updater, events);
    lemma_resumed(before, event);
    if let Some((state, round)) = resumed(before, event) {
        lemma_round_marks(updater.state, before.setup, state, round);
    }
}

proof fn lemma_marked(updater: UpdaterView, events: Seq<EventView>)
    requires
        updater.phase is Listing,
        forall|i: int|
            0 <= i <= events.len() ==> !((#[trigger] run(updater, events.take(i))).phase is Sleeping)
                && !(run(updater, events.take(i)).phase is Saving),
    ensures
        unwritten_are_marked(updater.state, run(updater, events)),
        !(run(updater, events).phase is Loading),
    decreases events.len(),
{
    if events.len() > 0 {
        let front = events.drop_last();
        assert forall|i: int| 0 <= i <= front.len() implies !((#[trigger] run(
            updater,
            front.take(i),
        )).phase is Sleeping) && !(run(updater, front.take(i)).phase is Saving) by {
            assert(front.take(i) =~= events.take(i));
        }
        lemma_marked(updater, front);
        assert(front =~= events.take(events.len() - 1));
        let before = run(updater, front);
        let event = events.last();
        assert(!(before.phase is Sleeping) && !(before.phase is Saving));
        lemma_resumed(before, event);
        if let Some((state, round)) = resumed(before, event) {
            lemma_round_marks(updater.state, before.setup, state, round);
            lemma_not_loading(before.setup, state, round);
        } else if let PhaseView::RenamingCategory { id, .. } = before.phase {
            if before.state.category_id == Some(id) {
                assert(before.state.with_category(id) == before.state);
            }
        } else if before.phase is Listing {
            if let EventView::Channels { channels } = event {
                let config = before.setup.config;
                if let Ok(CategoryStep::Keep { id }) = category_step(
                    config.category_id,
                    config.category_title@,
                    channels,
                    before.state.category_id,
                ) {
                    if before.state.category_id == Some(id) {
                        assert(before.state.with_category(id) == before.state);
                    }
                }
            }
        }
    }
}

proof fn lemma_not_loading(setup: Setup, state: StateView, round: RoundView)
    ensures
        !(setup.proceed(state, round).updater.phase is Loading),
    decreases round.names.len() - round.next,
{
    if round.next < round.names.len() {
        let (label, name) = round.names[round.next as int];
        match channel_step(round.channels, round.category_id, state, label, name) {
            ChannelStep::Keep { id, record } => {
                let kept = if record {
                    state.with_channel(label, id)
                } else {
                    state
                };
                lemma_not_loading(setup, kept, round.advanced(record));
            },
            _ => {},
        }
    }
}

/// An action is seen as what it asks for.
pub proof fn law_actions_as_they_are(action: Action)
    ensures
        match action {
            Action::LoadState { path } => action@ == (ActionView::LoadState { path }),
            Action::ListChannels { guild_id } => action@ == (ActionView::ListChannels {
                guild_id,
            }),
            Action::RenameCategory { id, title } => action@ == (ActionView::RenameCategory {
                id,
                title: title@,
            }),
            Action::CreateCategory { guild_id, title } => action@ == (ActionView::CreateCategory {
                guild_id,
                title: title@,
            }),
            Action::FetchDaemonStats => action@ is FetchDaemonStats,
            Action::FetchPrice { url } => action@ == (ActionView::FetchPrice { url: url@ }),
            Action::EditChannel { id, name, category_id } => action@ == (ActionView::EditChannel {
                id,
                name: name@,
                category_id,
            }),
            Action::CreateChannel { guild_id, name, category_id } => action@ == (
            ActionView::CreateChannel { guild_id, name: name@, category_id }),
            Action::SaveState { path, state } => action@ == (ActionView::SaveState {
                path,
                state: state@,
            }),
            Action::Sleep { interval } => action@ == (ActionView::Sleep { interval }),
        },
        action matches Action::SaveState { state, .. } ==> (action.wf() <==> state.wf()),
{
}

/// An outcome is seen as what it tells, and is taken unless the ids in it are kept twice or
/// the report in it cannot be shown.
pub proof fn law_events_as_they_are(event: Event)
    ensures
        match event {
            Event::Loaded { state: Some(state) } => event@ == (EventView::Loaded {
                state: Some(state@),
            }) && (event.wf() <==> state.wf()),
            Event::Loaded { state: None } => event@ == (EventView::Loaded { state: None })
                && event.wf(),
            Event::Channels { channels } => event@ == (EventView::Channels {
                channels: listed(channels@),
            }) && event.wf(),
            Event::Created { id } => event@ == (EventView::Created { id }) && event.wf(),
            Event::DaemonStats { xelis } => event@ == (EventView::DaemonStats { xelis }) && (
            event.wf() <==> xelis_nameable(xelis)),
            Event::PriceFetched { price } => event@ == (EventView::PriceFetched { price })
                && event.wf(),
            Event::Done => event@ is Done && event.wf(),
            Event::Failed => event@ is Failed && event.wf(),
        },
{
}

} // verus!
