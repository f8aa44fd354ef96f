//! The update loop, as a machine: it asks for an action, is told its outcome, and
//! asks for the next.
use crate::category::{
    category_step, ensure_category, find_gone_category, gone_category, settle_category,
    CategoryError, CategoryStep,
};
use crate::chain::XelisStatsSnapshot;
use crate::channels::{
    channel_step, find_gone_channel, gone_channel, listed, update_or_create_channel, ChannelStep,
    ChannelView, GuildChannel,
};
use crate::config::{Interval, StatsConfig};
use crate::decimal::{decimal, decimal_text};
use crate::price::Price;
use crate::snapshot::{rows, xelis_nameable, StatsSnapshot};
use crate::state::{ChannelState, StateView};
use std::path::PathBuf;
use vstd::prelude::*;
use vstd::string::*;

verus! {

/// What is to be done next.
#[derive(Debug)]
pub enum Action {
    /// Read the recorded ids from a file.
    LoadState { path: PathBuf },
    /// List the channels of the guild.
    ListChannels { guild_id: u64 },
    /// Give the category a title.
    RenameCategory { id: u64, title: String },
    /// Create a category.
    CreateCategory { guild_id: u64, title: String },
    /// Ask the daemon for its report.
    FetchDaemonStats,
    /// Ask an endpoint for the price.
    FetchPrice { url: String },
    /// Give a channel its name and put it into the category.
    EditChannel { id: u64, name: String, category_id: u64 },
    /// Create a voice channel in the category.
    CreateChannel { guild_id: u64, name: String, category_id: u64 },
    /// Write ids to a file.
    SaveState { path: PathBuf, state: ChannelState },
    /// Wait.
    Sleep { interval: Interval },
}

/// The outcome of an action.
#[derive(Debug)]
pub enum Event {
    /// The recorded ids, or none where none were ever written.
    Loaded { state: Option<ChannelState> },
    /// The channels of the guild.
    Channels { channels: Vec<GuildChannel> },
    /// The id of what was created.
    Created { id: u64 },
    /// The daemon's report.
    DaemonStats { xelis: XelisStatsSnapshot },
    /// The price.
    PriceFetched { price: Price },
    /// The action was done.
    Done,
    /// The action failed.
    Failed,
}

/// What an `Action` asks for.
pub ghost enum ActionView {
    LoadState { path: PathBuf },
    ListChannels { guild_id: u64 },
    RenameCategory { id: u64, title: Seq<char> },
    CreateCategory { guild_id: u64, title: Seq<char> },
    FetchDaemonStats,
    FetchPrice { url: Seq<char> },
    EditChannel { id: u64, name: Seq<char>, category_id: u64 },
    CreateChannel { guild_id: u64, name: Seq<char>, category_id: u64 },
    SaveState { path: PathBuf, state: StateView },
    Sleep { interval: Interval },
}

impl View for Action {
    type V = ActionView;

    open spec fn view(&self) -> ActionView {
        match *self {
            Action::LoadState { path } => ActionView::LoadState { path },
            Action::ListChannels { guild_id } => ActionView::ListChannels { guild_id },
            Action::RenameCategory { id, title } => ActionView::RenameCategory {
                id,
                title: title@,
            },
            Action::CreateCategory { guild_id, title } => ActionView::CreateCategory {
                guild_id,
                title: title@,
            },
            Action::FetchDaemonStats => ActionView::FetchDaemonStats,
            Action::FetchPrice { url } => ActionView::FetchPrice { url: url@ },
            Action::EditChannel { id, name, category_id } => ActionView::EditChannel {
                id,
                name: name@,
                category_id,
            },
            Action::CreateChannel { guild_id, name, category_id } => ActionView::CreateChannel {
                guild_id,
                name: name@,
                category_id,
            },
            Action::SaveState { path, state } => ActionView::SaveState { path, state: state@ },
            Action::Sleep { interval } => ActionView::Sleep { interval },
        }
    }
}

impl Action {
    /// Ids that are to be written are kept once.
    pub open spec fn wf(self) -> bool {
        match self {
            Action::SaveState { state, .. } => state.wf(),
            _ => true,
        }
    }
}

/// What an `Event` tells.
pub ghost enum EventView {
    Loaded { state: Option<StateView> },
    Channels { channels: Seq<ChannelView> },
    Created { id: u64 },
    DaemonStats { xelis: XelisStatsSnapshot },
    PriceFetched { price: Price },
    Done,
    Failed,
}

impl View for Event {
    type V = EventView;

    open spec fn view(&self) -> EventView {
        match *self {
            Event::Loaded { state } => EventView::Loaded {
                state: match state {
                    Some(state) => Some(state@),
                    None => None,
                },
            },
            Event::Channels { channels } => EventView::Channels { channels: listed(channels@) },
            Event::Created { id } => EventView::Created { id },
            Event::DaemonStats { xelis } => EventView::DaemonStats { xelis },
            Event::PriceFetched { price } => EventView::PriceFetched { price },
            Event::Done => EventView::Done,
            Event::Failed => EventView::Failed,
        }
    }
}

impl Event {
    /// Ids come from a well-formed state, and a report can be shown.
    pub open spec fn wf(self) -> bool {
        match self {
            Event::Loaded { state: Some(state) } => state.wf(),
            Event::DaemonStats { xelis } => xelis_nameable(xelis),
            _ => true,
        }
    }
}

/// A recorded id that the guild no longer has.
#[derive(Debug)]
pub enum Gone {
    /// The category.
    Category { id: u64 },
    /// The channel of a label.
    Channel { label: &'static str, id: u64 },
}

/// What a `Gone` tells.
pub ghost enum GoneView {
    Category { id: u64 },
    Channel { label: Seq<char>, id: u64 },
}

impl View for Gone {
    type V = GoneView;

    open spec fn view(&self) -> GoneView {
        match *self {
            Gone::Category { id } => GoneView::Category { id },
            Gone::Channel { label, id } => GoneView::Channel { label: label@, id },
        }
    }
}

impl GoneView {
    /// What is gone, in words.
    pub open spec fn text(self) -> Seq<char> {
        match self {
            GoneView::Category { id } => "Stored XELIS stats category "@ + decimal(id as nat)
                + " no longer exists; creating a new one"@,
            GoneView::Channel { label, id } => "Stored XELIS stats channel "@ + decimal(id as nat)
                + " for "@ + label + " no longer exists"@,
        }
    }
}

impl Gone {
    /// What is gone, in words.
    pub fn message(&self) -> (message: String)
        ensures
            message@ == self@.text(),
    {
        match self {
            Gone::Category { id } => "Stored XELIS stats category ".to_owned().concat(
                decimal_text(*id as u128).as_str(),
            ).concat(" no longer exists; creating a new one"),
            Gone::Channel { label, id } => "Stored XELIS stats channel ".to_owned().concat(
                decimal_text(*id as u128).as_str(),
            ).concat(" for ").concat(label).concat(" no longer exists"),
        }
    }
}

/// What a list of recorded ids that are gone tells.
pub open spec fn told(gone: Seq<Gone>) -> Seq<GoneView> {
    Seq::new(gone.len(), |i: int| gone[i]@)
}

/// The channels that are being brought up to date.
#[derive(Debug)]
pub struct Round {
    channels: Vec<GuildChannel>,
    category_id: u64,
    changed: bool,
    names: Vec<(&'static str, String)>,
    next: usize,
}

/// What a `Round` holds: the guild's channels, the category, whether an id was
/// recorded that has to be written, each label with its channel name, and the
/// position of the label that comes next.
pub ghost struct RoundView {
    pub channels: Seq<ChannelView>,
    pub category_id: u64,
    pub changed: bool,
    pub names: Seq<(Seq<char>, Seq<char>)>,
    pub next: nat,
}

impl View for Round {
    type V = RoundView;

    closed spec fn view(&self) -> RoundView {
        RoundView {
            channels: listed(self.channels@),
            category_id: self.category_id,
            changed: self.changed,
            names: rows(self.names@),
            next: self.next as nat,
        }
    }
}

impl RoundView {
    /// The round with the next label done.
    pub open spec fn advanced(self, changed: bool) -> RoundView {
        RoundView { next: self.next + 1, changed: self.changed || changed, ..self }
    }
}

/// The outcome that the machine waits for.
#[derive(Debug)]
pub enum Phase {
    Loading,
    Listing,
    RenamingCategory { channels: Vec<GuildChannel>, id: u64 },
    CreatingCategory { channels: Vec<GuildChannel> },
    FetchingDaemonStats { channels: Vec<GuildChannel>, category_id: u64, changed: bool },
    FetchingPrice {
        channels: Vec<GuildChannel>,
        category_id: u64,
        changed: bool,
        xelis: Option<XelisStatsSnapshot>,
    },
    Editing { round: Round, id: u64, record: bool },
    Creating { round: Round },
    Saving,
    Sleeping,
}

/// What a `Phase` holds.
pub ghost enum PhaseView {
    Loading,
    Listing,
    RenamingCategory { channels: Seq<ChannelView>, id: u64 },
    CreatingCategory { channels: Seq<ChannelView> },
    FetchingDaemonStats { channels: Seq<ChannelView>, category_id: u64, changed: bool },
    FetchingPrice {
        channels: Seq<ChannelView>,
        category_id: u64,
        changed: bool,
        xelis: Option<XelisStatsSnapshot>,
    },
    Editing { round: RoundView, id: u64, record: bool },
    Creating { round: RoundView },
    Saving,
    Sleeping,
}

impl View for Phase {
    type V = PhaseView;

    open spec fn view(&self) -> PhaseView {
        match *self {
            Phase::Loading => PhaseView::Loading,
            Phase::Listing => PhaseView::Listing,
            Phase::RenamingCategory { channels, id } => PhaseView::RenamingCategory {
                channels: listed(channels@),
                id,
            },
            Phase::CreatingCategory { channels } => PhaseView::CreatingCategory {
                channels: listed(channels@),
            },
            Phase::FetchingDaemonStats { channels, category_id, changed } =>
            PhaseView::FetchingDaemonStats { channels: listed(channels@), category_id, changed },
            Phase::FetchingPrice { channels, category_id, changed, xelis } =>
            PhaseView::FetchingPrice { channels: listed(channels@), category_id, changed, xelis },
            Phase::Editing { round, id, record } => PhaseView::Editing {
                round: round@,
                id,
                record,
            },
            Phase::Creating { round } => PhaseView::Creating { round: round@ },
            Phase::Saving => PhaseView::Saving,
            Phase::Sleeping => PhaseView::Sleeping,
        }
    }
}

/// What stays the same in a `StatsUpdater`.
pub ghost struct Setup {
    pub guild_id: u64,
    pub config: StatsConfig,
}

/// What a `StatsUpdater` holds.
pub ghost struct UpdaterView {
    pub setup: Setup,
    pub state: StateView,
    pub phase: PhaseView,
}

/// The machine after one outcome, the action it asks for, why there is no stats
/// category where that ended the update, and the recorded ids that turned out to be
/// gone, in the order in which they did.
#[verifier::ext_equal]
pub ghost struct StepView {
    pub updater: UpdaterView,
    pub action: ActionView,
    pub error: Option<CategoryError>,
    pub gone: Seq<GoneView>,
}

impl StepView {
    /// The step with a recorded id, if one is given, that turned out to be gone first.
    pub open spec fn noting(self, gone: Option<GoneView>) -> StepView {
        match gone {
            Some(gone) => StepView { gone: seq![gone] + self.gone, ..self },
            None => self,
        }
    }
}

impl Setup {
    /// The machine with the given ids and in the given phase.
    pub open spec fn at(self, state: StateView, phase: PhaseView) -> UpdaterView {
        UpdaterView { setup: self, state, phase }
    }

    /// The update is over; the machine waits.
    pub open spec fn pause(self, state: StateView, error: Option<CategoryError>) -> StepView {
        StepView {
            updater: self.at(state, PhaseView::Sleeping),
            action: ActionView::Sleep {
                interval: self.config.refresh_interval.spec_at_least_a_second(),
            },
            error,
            gone: seq![],
        }
    }

    /// An update starts.
    pub open spec fn list(self, state: StateView) -> StepView {
        StepView {
            updater: self.at(state, PhaseView::Listing),
            action: ActionView::ListChannels { guild_id: self.guild_id },
            error: None,
            gone: seq![],
        }
    }

    /// The category is there; the figures are fetched.
    pub open spec fn fetch(
        self,
        state: StateView,
        channels: Seq<ChannelView>,
        category_id: u64,
        changed: bool,
    ) -> StepView {
        StepView {
            updater: self.at(
                state,
                PhaseView::FetchingDaemonStats { channels, category_id, changed },
            ),
            action: ActionView::FetchDaemonStats,
            error: None,
            gone: seq![],
        }
    }

    /// The guild's channels are known; the category is brought about.
    pub open spec fn categorize(self, state: StateView, channels: Seq<ChannelView>) -> StepView {
        let title = self.config.category_title@;
        let gone = match gone_category(self.config.category_id, channels, state.category_id) {
            Some(id) => Some(GoneView::Category { id }),
            None => None,
        };
        (match category_step(self.config.category_id, title, channels, state.category_id) {
            Err(error) => self.pause(state, Some(error)),
            Ok(CategoryStep::Keep { id }) => self.fetch(
                state.with_category(id),
                channels,
                id,
                state.category_id != Some(id),
            ),
            Ok(CategoryStep::Rename { id }) => StepView {
                updater: self.at(state, PhaseView::RenamingCategory { channels, id }),
                action: ActionView::RenameCategory { id, title },
                error: None,
                gone: seq![],
            },
            Ok(CategoryStep::Create) => StepView {
                updater: self.at(state, PhaseView::CreatingCategory { channels }),
                action: ActionView::CreateCategory { guild_id: self.guild_id, title },
                error: None,
                gone: seq![],
            },
        }).noting(gone)
    }

    /// The labels from the next one on are brought up to date, up to the first one
    /// that needs an action. After the last one the ids are written where one was
    /// recorded.
    pub open spec fn proceed(self, state: StateView, round: RoundView) -> StepView
        decreases round.names.len() - round.next,
    {
        if round.next >= round.names.len() {
            if round.changed {
                StepView {
                    updater: self.at(state, PhaseView::Saving),
                    action: ActionView::SaveState { path: self.config.state_path, state },
                    error: None,
                    gone: seq![],
                }
            } else {
                self.pause(state, None)
            }
        } else {
            let (label, name) = round.names[round.next as int];
            let gone = match gone_channel(round.channels, state, label) {
                Some(id) => Some(GoneView::Channel { label, id }),
                None => None,
            };
            (match channel_step(round.channels, round.category_id, state, label, name) {
                ChannelStep::Keep { id, record } => self.proceed(
                    if record {
                        state.with_channel(label, id)
                    } else {
                        state
                    },
                    round.advanced(record),
                ),
                ChannelStep::Edit { id, record } => StepView {
                    updater: self.at(state, PhaseView::Editing { round, id, record }),
                    action: ActionView::EditChannel { id, name, category_id: round.category_id },
                    error: None,
                    gone: seq![],
                },
                ChannelStep::Create => StepView {
                    updater: self.at(state, PhaseView::Creating { round }),
                    action: ActionView::CreateChannel {
                        guild_id: self.guild_id,
                        name,
                        category_id: round.category_id,
                    },
                    error: None,
                    gone: seq![],
                },
            }).noting(gone)
        }
    }
}

impl UpdaterView {
    /// The machine after the outcome of the action it asked for. An outcome that does
    /// not belong to that action counts as a failure. A failure ends the update,
    /// except that ids that cannot be read count as none, and that figures that
    /// cannot be fetched are shown as such.
    pub open spec fn step(self, event: EventView) -> StepView {
        match self.phase {
            PhaseView::Loading => match event {
                EventView::Loaded { state: Some(state) } => self.setup.list(state),
                _ => self.setup.list(StateView::nothing()),
            },
            PhaseView::Listing => match event {
                EventView::Channels { channels } => self.setup.categorize(self.state, channels),
                _ => self.setup.pause(self.state, None),
            },
            PhaseView::RenamingCategory { channels, id } => match event {
                EventView::Done => self.setup.fetch(
                    self.state.with_category(id),
                    channels,
                    id,
                    self.state.category_id != Some(id),
                ),
                _ => self.setup.pause(self.state, None),
            },
            PhaseView::CreatingCategory { channels } => match event {
                EventView::Created { id } => self.setup.fetch(
                    self.state.with_category(id),
                    channels,
                    id,
                    true,
                ),
                _ => self.setup.pause(self.state, None),
            },
            PhaseView::FetchingDaemonStats { channels, category_id, changed } => StepView {
                updater: self.setup.at(
                    self.state,
                    PhaseView::FetchingPrice {
                        channels,
                        category_id,
                        changed,
                        xelis: match event {
                            EventView::DaemonStats { xelis } => Some(xelis),
                            _ => None,
                        },
                    },
                ),
                action: ActionView::FetchPrice { url: self.setup.config.price_url@ },
                error: None,
                gone: seq![],
            },
            PhaseView::FetchingPrice { channels, category_id, changed, xelis } => {
                let price = match event {
                    EventView::PriceFetched { price } => Some(price),
                    _ => None,
                };
                let names = (StatsSnapshot { xelis, price }).names();
                self.setup.proceed(
                    self.state,
                    RoundView { channels, category_id, changed, names, next: 0 },
                )
            },
            PhaseView::Editing { round, id, record } => match event {
                EventView::Done => self.setup.proceed(
                    if record {
                        self.state.with_channel(round.names[round.next as int].0, id)
                    } else {
                        self.state
                    },
                    round.advanced(record),
                ),
                _ => self.setup.pause(self.state, None),
            },
            PhaseView::Creating { round } => match event {
                EventView::Created { id } => self.setup.proceed(
                    self.state.with_channel(round.names[round.next as int].0, id),
                    round.advanced(true),
                ),
                _ => self.setup.pause(self.state, None),
            },
            PhaseView::Saving => self.setup.pause(self.state, None),
            PhaseView::Sleeping => self.setup.list(self.state),
        }
    }
}

/// Keeps the stats channels of one guild up to date.
#[derive(Debug)]
pub struct StatsUpdater {
    guild_id: u64,
    config: StatsConfig,
    state: ChannelState,
    phase: Phase,
}

impl View for StatsUpdater {
    type V = UpdaterView;

    closed spec fn view(&self) -> UpdaterView {
        UpdaterView {
            setup: Setup { guild_id: self.guild_id, config: self.config },
            state: self.state@,
            phase: self.phase@,
        }
    }
}

/// The outcome of a step: the machine, the action it asks for, why there is no stats
/// category where that ended the update, and the recorded ids that turned out to be
/// gone, in the order in which they did.
#[derive(Debug)]
pub struct Step {
    pub updater: StatsUpdater,
    pub action: Action,
    pub error: Option<CategoryError>,
    pub gone: Vec<Gone>,
}

impl View for Step {
    type V = StepView;

    open spec fn view(&self) -> StepView {
        StepView {
            updater: self.updater@,
            action: self.action@,
            error: self.error,
            gone: told(self.gone@),
        }
    }
}

impl Step {
    /// The machine and the action are well-formed.
    pub open spec fn wf(self) -> bool {
        self.updater.wf() && self.action.wf()
    }

    fn noting(self, gone: Option<Gone>) -> (step: Step)
        ensures
            self.wf() ==> step.wf(),
            step@ == self@.noting(
                match gone {
                    Some(gone) => Some(gone@),
                    None => None,
                },
            ),
    {
        match gone {
            Some(gone) => {
                let mut all = self.gone;
                all.insert(0, gone);
                assert(told(all@) == seq![gone@] + told(self.gone@));
                Step { gone: all, ..self }
            },
            None => self,
        }
    }
}

impl StatsUpdater {
    /// Ids are kept once, a fetched report can be shown, and a round waits for one of
    /// its labels.
    pub closed spec fn wf(self) -> bool {
        &&& self.state.wf()
        &&& match self.phase {
            Phase::FetchingPrice { xelis: Some(xelis), .. } => xelis_nameable(xelis),
            Phase::Editing { round, .. } => round.next < round.names.len(),
            Phase::Creating { round } => round.next < round.names.len(),
            _ => true,
        }
    }

    /// The machine of the configured guild, before it has read its ids.
    pub fn new(guild_id: u64, config: StatsConfig) -> (updater: StatsUpdater)
        ensures
            updater.wf(),
            updater@ == (Setup { guild_id, config }).at(StateView::nothing(), PhaseView::Loading),
    {
        StatsUpdater { guild_id, config, state: ChannelState::default(), phase: Phase::Loading }
    }

    /// The machine of the configured guild, if one is set.
    pub fn from_config(config: StatsConfig) -> (updater: Option<StatsUpdater>)
        ensures
            updater is Some <==> config.guild_id is Some,
            updater matches Some(u) ==> u.wf() && u@ == (Setup {
                guild_id: config.guild_id->0,
                config,
            }).at(StateView::nothing(), PhaseView::Loading),
    {
        match config.guild_id {
            Some(guild_id) => Some(StatsUpdater::new(guild_id, config)),
            None => None,
        }
    }

    /// What the machine asks for at first: reading the recorded ids.
    pub fn first_action(&self) -> (action: Action)
        ensures
            action@ == (ActionView::LoadState { path: self@.setup.config.state_path }),
            action.wf(),
    {
        Action::LoadState { path: self.config.state_path.clone() }
    }

    /// The recorded ids.
    pub fn state(&self) -> (state: &ChannelState)
        requires
            self.wf(),
        ensures
            state@ == self@.state,
            state.wf(),
    {
        &self.state
    }

    /// The machine after the outcome of the action that it asked for; at first that
    /// is reading the recorded ids.
    pub fn step(self, event: Event) -> (step: Step)
        requires
            self.wf(),
            event.wf(),
        ensures
            step.wf(),
            step@ == self@.step(event@),
    {
        let StatsUpdater { guild_id, config, state, phase } = self;
        let this = StatsUpdater { guild_id, config, state, phase: Phase::Sleeping };
        match phase {
            Phase::Loading => match event {
                Event::Loaded { state: Some(state) } => this.list(state),
                _ => this.list(ChannelState::default()),
            },
            Phase::Listing => match event {
                Event::Channels { channels } => this.categorize(channels),
                _ => this.pause(None),
            },
            Phase::RenamingCategory { channels, id } => match event {
                Event::Done => this.settle(channels, id, false),
                _ => this.pause(None),
            },
            Phase::CreatingCategory { channels } => match event {
                Event::Created { id } => this.settle(channels, id, true),
                _ => this.pause(None),
            },
            Phase::FetchingDaemonStats { channels, category_id, changed } => {
                let xelis = match event {
                    Event::DaemonStats { xelis } => Some(xelis),
                    _ => None,
                };
                let url = this.config.price_url.clone();
                Step {
                    updater: StatsUpdater {
                        phase: Phase::FetchingPrice { channels, category_id, changed, xelis },
                        ..this
                    },
                    action: Action::FetchPrice { url },
                    error: None,
                    gone: Vec::new(),
                }
            },
            Phase::FetchingPrice { channels, category_id, changed, xelis } => {
                let price = match event {
                    Event::PriceFetched { price } => Some(price),
                    _ => None,
                };
                let names = (StatsSnapshot { xelis, price }).channel_names();
                this.proceed(Round { channels, category_id, changed, names, next: 0 })
            },
            Phase::Editing { round, id, record } => match event {
                Event::Done => this.finish(round, id, record),
                _ => this.pause(None),
            },
            Phase::Creating { round } => match event {
                Event::Created { id } => this.finish(round, id, true),
                _ => this.pause(None),
            },
            Phase::Saving => this.pause(None),
            Phase::Sleeping => {
                let StatsUpdater { guild_id, config, state, .. } = this;
                StatsUpdater {
                    guild_id,
                    config,
                    state: ChannelState::default(),
                    phase: Phase::Sleeping,
                }.list(state)
            },
        }
    }

    fn pause(self, error: Option<CategoryError>) -> (step: Step)
        requires
            self.wf(),
        ensures
            step.wf(),
            step@ == self@.setup.pause(self@.state, error),
    {
        let interval = self.config.refresh_interval.at_least_a_second();
        Step {
            updater: StatsUpdater { phase: Phase::Sleeping, ..self },
            action: Action::Sleep { interval },
            error,
            gone: Vec::new(),
        }
    }

    fn list(self, state: ChannelState) -> (step: Step)
        requires
            state.wf(),
        ensures
            step.wf(),
            step@ == self@.setup.list(state@),
    {
        let guild_id: u64 = self.guild_id;
        Step {
            updater: StatsUpdater { state, phase: Phase::Listing, ..self },
            action: Action::ListChannels { guild_id },
            error: None,
            gone: Vec::new(),
        }
    }

    /// Records the category and goes on to the figures.
    fn settle(self, channels: Vec<GuildChannel>, id: u64, created: bool) -> (step: Step)
        requires
            self.wf(),
        ensures
            step.wf(),
            step@ == self@.setup.fetch(
                self@.state.with_category(id),
                listed(channels@),
                id,
                created || self@.state.category_id != Some(id),
            ),
    {
        let mut state = self.state;
        let other = settle_category(&mut state, id);
        Step {
            updater: StatsUpdater {
                guild_id: self.guild_id,
                config: self.config,
                state,
                phase: Phase::FetchingDaemonStats {
                    channels,
                    category_id: id,
                    changed: created || other,
                },
            },
            action: Action::FetchDaemonStats,
            error: None,
            gone: Vec::new(),
        }
    }

    fn categorize(self, channels: Vec<GuildChannel>) -> (step: Step)
        requires
            self.wf(),
        ensures
            step.wf(),
            step@ == self@.setup.categorize(self@.state, listed(channels@)),
    {
        let title = self.config.category_title.clone();
        let gone = match find_gone_category(&self.config, &channels, &self.state) {
            Some(id) => Some(Gone::Category { id }),
            None => None,
        };
        let step = match ensure_category(&self.config, &channels, &self.state) {
            Err(error) => self.pause(Some(error)),
            Ok(CategoryStep::Keep { id }) => self.settle(channels, id, false),
            Ok(CategoryStep::Rename { id }) => Step {
                updater: StatsUpdater { phase: Phase::RenamingCategory { channels, id }, ..self },
                action: Action::RenameCategory { id, title },
                error: None,
                gone: Vec::new(),
            },
            Ok(CategoryStep::Create) => {
                let guild_id: u64 = self.guild_id;
                Step {
                    updater: StatsUpdater { phase: Phase::CreatingCategory { channels }, ..self },
                    action: Action::CreateCategory { guild_id, title },
                    error: None,
                    gone: Vec::new(),
                }
            },
        };
        step.noting(gone)
    }

    /// Records the channel of the next label where that is asked for, and goes on.
    fn finish(self, round: Round, id: u64, record: bool) -> (step: Step)
        requires
            self.wf(),
            round.next < round.names.len(),
        ensures
            step.wf(),
            step@ == self@.setup.proceed(
                if record {
                    self@.state.with_channel(round@.names[round@.next as int].0, id)
                } else {
                    self@.state
                },
                round@.advanced(record),
            ),
        decreases round.names.len() - round.next, 0int,
    {
        let mut state = self.state;
        if record {
            state.set_channel_id(round.names[round.next].0, id);
        }
        let round = Round {
            next: round.next + 1,
            changed: round.changed || record,
            ..round
        };
        StatsUpdater {
            guild_id: self.guild_id,
            config: self.config,
            state,
            phase: Phase::Sleeping,
        }.proceed(round)
    }

    fn proceed(self, round: Round) -> (step: Step)
        requires
            self.wf(),
            round.next <= round.names.len(),
        ensures
            step.wf(),
            step@ == self@.setup.proceed(self@.state, round@),
        decreases round.names.len() - round.next, 1int,
    {
        if round.next >= round.names.len() {
            return if round.changed {
                let path = self.config.state_path.clone();
                let state = self.state.clone();
                Step {
                    updater: StatsUpdater { phase: Phase::Saving, ..self },
                    action: Action::SaveState { path, state },
                    error: None,
                    gone: Vec::new(),
                }
            } else {
                self.pause(None)
            };
        }
        let (label, name) = &round.names[round.next];
        let category_id: u64 = round.category_id;
        let guild_id: u64 = self.guild_id;
        let chosen = update_or_create_channel(
            &round.channels,
            category_id,
            &self.state,
            label,
            name,
        );
        let gone = match find_gone_channel(&round.channels, &self.state, label) {
            Some(id) => Some(Gone::Channel { label, id }),
            None => None,
        };
        let name = name.clone();
        let step = match chosen {
            ChannelStep::Keep { id, record } => self.finish(round, id, record),
            ChannelStep::Edit { id, record } => Step {
                updater: StatsUpdater { phase: Phase::Editing { round, id, record }, ..self },
                action: Action::EditChannel { id, name, category_id },
                error: None,
                gone: Vec::new(),
            },
            ChannelStep::Create => Step {
                updater: StatsUpdater { phase: Phase::Creating { round }, ..self },
                action: Action::CreateChannel { guild_id, name, category_id },
                error: None,
                gone: Vec::new(),
            },
        };
        step.noting(gone)
    }
}

} // verus!
