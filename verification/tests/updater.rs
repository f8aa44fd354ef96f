use xelis_stats::amounts::COIN_VALUE;
use xelis_stats::category::{find_gone_category, CategoryError};
use xelis_stats::chain::{ChainDifficulty, ChainInfo, XelisStatsSnapshot};
use xelis_stats::channels::{find_gone_channel, ChannelKind, GuildChannel};
use xelis_stats::config::{Interval, StatsConfig};
use xelis_stats::price::Price;
use xelis_stats::snapshot::{is_xelis_nameable, StatsSnapshot};
use xelis_stats::state::ChannelState;
use xelis_stats::updater::{Action, Event, Gone, StatsUpdater, Step};

const LABELS: [&str; 9] = [
    "Network:",
    "Block Time:",
    "Block Reward:",
    "Max Supply:",
    "Circ Supply:",
    "Net Hash:",
    "Coins Mined:",
    "Price:",
    "Mcap:",
];

fn config() -> StatsConfig {
    StatsConfig {
        guild_id: Some(11),
        category_id: None,
        category_title: "STATS".to_string(),
        price_url: "https://price".to_string(),
        state_path: "state.json".into(),
        refresh_interval: Interval { secs: 0, nanos: 5 },
    }
}

fn report() -> XelisStatsSnapshot {
    XelisStatsSnapshot {
        info: ChainInfo {
            network: "Mainnet".to_string(),
            average_block_time: 15_000,
            block_reward: 146_000_000,
            maximum_supply: 18_400_000 * COIN_VALUE,
            circulating_supply: 4_600_000 * COIN_VALUE,
        },
        difficulty: ChainDifficulty { hashrate_formatted: "1.2 MH/s".to_string() },
    }
}

fn price() -> Option<Price> {
    Some(Price { bits: 0.25f64.to_bits() })
}

/// A guild that does what it is asked for.
struct Guild {
    channels: Vec<GuildChannel>,
    next_id: u64,
    log: Vec<&'static str>,
    saved: Option<(Option<u64>, Vec<(String, u64)>)>,
}

impl Guild {
    fn new() -> Self {
        Guild { channels: Vec::new(), next_id: 100, log: Vec::new(), saved: None }
    }

    fn list(&self) -> Vec<GuildChannel> {
        self.channels
            .iter()
            .map(|c| GuildChannel {
                id: c.id,
                kind: c.kind,
                name: c.name.clone(),
                parent_id: c.parent_id,
            })
            .collect()
    }

    fn create(&mut self, kind: ChannelKind, name: &str, parent_id: Option<u64>) -> Event {
        let id = self.next_id;
        self.next_id += 1;
        self.channels.push(GuildChannel { id, kind, name: name.to_string(), parent_id });
        Event::Created { id }
    }

    fn perform(&mut self, step: &Step, price: Option<Price>) -> Event {
        match &step.action {
            Action::LoadState { .. } => Event::Loaded { state: None },
            Action::ListChannels { guild_id } => {
                assert_eq!(*guild_id, 11);
                self.log.push("list");
                Event::Channels { channels: self.list() }
            }
            Action::RenameCategory { id, title } => {
                self.log.push("rename");
                for c in self.channels.iter_mut().filter(|c| c.id == *id) {
                    c.name = title.clone();
                }
                Event::Done
            }
            Action::CreateCategory { title, .. } => {
                self.log.push("category");
                self.create(ChannelKind::Category, title, None)
            }
            Action::FetchDaemonStats => Event::DaemonStats { xelis: report() },
            Action::FetchPrice { url } => {
                assert_eq!(url, "https://price");
                match price {
                    Some(price) => Event::PriceFetched { price },
                    None => Event::Failed,
                }
            }
            Action::EditChannel { id, name, category_id } => {
                self.log.push("edit");
                for c in self.channels.iter_mut().filter(|c| c.id == *id) {
                    c.name = name.clone();
                    c.parent_id = Some(*category_id);
                }
                Event::Done
            }
            Action::CreateChannel { name, category_id, .. } => {
                self.log.push("create");
                self.create(ChannelKind::Voice, name, Some(*category_id))
            }
            Action::SaveState { path, state } => {
                self.log.push("save");
                assert_eq!(path.to_str(), Some("state.json"));
                assert_eq!(state.entries(), step.updater.state().entries());
                assert_eq!(state.category_id(), step.updater.state().category_id());
                self.saved = Some((state.category_id(), state.entries().clone()));
                Event::Done
            }
            Action::Sleep { .. } => panic!("the update is over"),
        }
    }

    /// Runs one update, up to where the machine waits.
    fn update(&mut self, updater: StatsUpdater, event: Event, price: Option<Price>) -> Step {
        let mut step = updater.step(event);
        while !matches!(step.action, Action::Sleep { .. }) {
            let event = self.perform(&step, price);
            step = step.updater.step(event);
        }
        step
    }

    fn names(&self) -> Vec<String> {
        self.channels
            .iter()
            .filter(|c| c.kind == ChannelKind::Voice)
            .map(|c| c.name.clone())
            .collect()
    }
}

fn start() -> StatsUpdater {
    StatsUpdater::from_config(config()).unwrap()
}

#[test]
fn figures_and_their_names() {
    let snapshot = StatsSnapshot { xelis: Some(report()), price: price() };
    assert!(is_xelis_nameable(&report()));
    let names = snapshot.channel_names();
    let expected = [
        "Network: Mainnet",
        "Block Time: 15s avg",
        "Block Reward: 1.4600 XEL",
        "Max Supply: 18.4M XEL",
        "Circ Supply: 4600000 XEL",
        "Net Hash: 1.2 MH/s",
        "Coins Mined: 25.00%",
        "Price: $0.2500",
        "Mcap: $1,150,000",
    ];
    assert_eq!(names.len(), 9);
    for i in 0..9 {
        assert_eq!(names[i].0, LABELS[i]);
        assert_eq!(names[i].1, expected[i]);
    }
}

#[test]
fn figures_that_could_not_be_had() {
    for (label, name) in (StatsSnapshot { xelis: None, price: None }).channel_names() {
        assert_eq!(name, format!("{} N/A", label));
    }
    let names = (StatsSnapshot { xelis: None, price: price() }).channel_names();
    assert_eq!(names[7].1, "Price: $0.2500");
    assert_eq!(names[8].1, "Mcap: N/A");
    let mut xelis = report();
    xelis.info.maximum_supply = 0;
    let names = (StatsSnapshot { xelis: Some(xelis), price: None }).channel_names();
    assert_eq!(names[3].1, "Max Supply: 0.0M XEL");
    assert_eq!(names[6].1, "Coins Mined: N/A");
    assert_eq!(names[7].1, "Price: N/A");
}

#[test]
fn no_label_starts_another() {
    for (i, a) in LABELS.iter().enumerate() {
        for (j, b) in LABELS.iter().enumerate() {
            assert_eq!(a.starts_with(b), i == j);
        }
    }
}

#[test]
fn no_guild_no_updater() {
    let mut config = config();
    config.guild_id = None;
    assert!(StatsUpdater::from_config(config).is_none());
}

#[test]
fn the_first_update_creates_everything() {
    let mut guild = Guild::new();
    let step = guild.update(start(), Event::Loaded { state: None }, price());
    assert_eq!(
        guild.log,
        [
            "list", "category", "create", "create", "create", "create", "create", "create",
            "create", "create", "create", "save"
        ]
    );
    assert_eq!(guild.names()[8], "Mcap: $1,150,000");
    let (category, entries) = guild.saved.unwrap();
    assert_eq!(category, Some(100));
    assert_eq!(entries.len(), 9);
    for (i, label) in LABELS.iter().enumerate() {
        assert_eq!(step.updater.state().channel_id(label), Some(101 + i as u64));
    }
    assert!(matches!(
        step.action,
        Action::Sleep { interval: Interval { secs: 1, nanos: 0 } }
    ));
}

#[test]
fn the_next_update_changes_nothing() {
    let mut guild = Guild::new();
    let step = guild.update(start(), Event::Loaded { state: None }, price());
    guild.log.clear();
    guild.update(step.updater, Event::Done, price());
    assert_eq!(guild.log, ["list"]);
}

#[test]
fn a_new_price_edits_two_channels_and_writes_nothing() {
    let mut guild = Guild::new();
    let step = guild.update(start(), Event::Loaded { state: None }, price());
    guild.log.clear();
    let new_price = Some(Price { bits: 0.5f64.to_bits() });
    let step = guild.update(step.updater, Event::Done, new_price);
    assert_eq!(guild.log, ["list", "edit", "edit"]);
    assert_eq!(guild.names()[7], "Price: $0.5000");
    guild.log.clear();
    guild.update(step.updater, Event::Done, None);
    assert_eq!(guild.names()[7..], ["Price: N/A", "Mcap: N/A"]);
}

#[test]
fn lost_ids_are_found_again_by_label() {
    let mut guild = Guild::new();
    guild.update(start(), Event::Loaded { state: None }, price());
    guild.log.clear();
    let step = guild.update(start(), Event::Failed, price());
    assert_eq!(guild.log, ["list", "save"]);
    assert_eq!(step.updater.state().channel_id("Mcap:"), Some(109));
    assert_eq!(step.updater.state().category_id(), Some(100));
}

#[test]
fn written_ids_are_used_after_a_restart() {
    let mut guild = Guild::new();
    guild.update(start(), Event::Loaded { state: None }, price());
    let (category, entries) = guild.saved.take().unwrap();
    let state = ChannelState::from_entries(category, &entries);
    guild.log.clear();
    guild.channels[4].name = "renamed by hand".to_string();
    guild.channels[0].name = "renamed by hand".to_string();
    guild.update(start(), Event::Loaded { state: Some(state) }, price());
    assert_eq!(guild.log, ["list", "rename", "edit"]);
    assert_eq!(guild.names()[3], "Max Supply: 18.4M XEL");
}

#[test]
fn a_failed_action_ends_the_update() {
    let mut guild = Guild::new();
    let step = start().step(Event::Loaded { state: None });
    let event = guild.perform(&step, price());
    let step = step.updater.step(event);
    assert!(matches!(step.action, Action::CreateCategory { .. }));
    let step = step.updater.step(Event::Failed);
    assert!(matches!(step.action, Action::Sleep { .. }));
    assert_eq!(step.updater.state().category_id(), None);
    let step = step.updater.step(Event::Done);
    assert!(matches!(step.action, Action::ListChannels { guild_id: 11 }));
    let step = step.updater.step(Event::Failed);
    assert!(matches!(step.action, Action::Sleep { .. }));
}

#[test]
fn ids_recorded_before_a_failure_are_kept() {
    let mut guild = Guild::new();
    let mut step = start().step(Event::Loaded { state: None });
    for _ in 0..5 {
        let event = guild.perform(&step, price());
        step = step.updater.step(event);
    }
    assert!(matches!(step.action, Action::CreateChannel { .. }));
    let step = step.updater.step(Event::Failed);
    assert!(matches!(step.action, Action::Sleep { .. }));
    assert_eq!(step.updater.state().category_id(), Some(100));
    assert_eq!(step.updater.state().channel_id("Network:"), Some(101));
    assert_eq!(step.updater.state().channel_id("Block Time:"), None);
}

#[test]
fn an_update_without_the_configured_category_is_refused() {
    let mut config = config();
    config.category_id = Some(5);
    let step = StatsUpdater::new(11, config).step(Event::Loaded { state: None });
    let step = step.updater.step(Event::Channels { channels: Vec::new() });
    assert_eq!(step.error, Some(CategoryError::NotFound { id: 5 }));
    assert!(matches!(step.action, Action::Sleep { .. }));
}

#[test]
fn a_recorded_category_that_is_gone_is_told() {
    let mut guild = Guild::new();
    guild.update(start(), Event::Loaded { state: None }, price());
    let (_, entries) = guild.saved.take().unwrap();
    let state = ChannelState::from_entries(Some(77), &entries);
    let step = start().step(Event::Loaded { state: Some(state) });
    assert!(step.gone.is_empty());
    let step = step.updater.step(Event::Channels { channels: guild.list() });
    assert!(matches!(step.action, Action::FetchDaemonStats));
    assert_eq!(step.gone.len(), 1);
    assert!(matches!(step.gone[0], Gone::Category { id: 77 }));
    assert_eq!(
        step.gone[0].message(),
        "Stored XELIS stats category 77 no longer exists; creating a new one"
    );
}

#[test]
fn a_recorded_category_is_not_missed_where_one_is_configured() {
    let mut config = config();
    config.category_id = Some(5);
    let state = ChannelState::from_entries(Some(77), &Vec::new());
    assert_eq!(find_gone_category(&config, &Vec::new(), &state), None);
    config.category_id = Some(0);
    assert_eq!(find_gone_category(&config, &Vec::new(), &state), Some(77));
    let step = StatsUpdater::new(11, config).step(Event::Loaded { state: Some(state) });
    let step = step.updater.step(Event::Channels { channels: Vec::new() });
    assert!(matches!(step.action, Action::CreateCategory { .. }));
    assert_eq!(step.gone.len(), 1);
}

#[test]
fn recorded_channels_that_are_gone_are_told_as_they_are_reached() {
    let mut guild = Guild::new();
    guild.update(start(), Event::Loaded { state: None }, price());
    let (category, mut entries) = guild.saved.take().unwrap();
    // Two channels of the middle are recorded under ids that the guild does not have; the
    // guild has a channel for the first of them, and none for the second.
    entries[2].1 = 902;
    entries[4].1 = 904;
    guild.channels.retain(|c| c.id != 105);
    let state = ChannelState::from_entries(category, &entries);
    assert_eq!(find_gone_channel(&guild.channels, &state, LABELS[1]), None);
    assert_eq!(find_gone_channel(&guild.channels, &state, LABELS[2]), Some(902));
    assert_eq!(find_gone_channel(&guild.channels, &state, "Other:"), None);
    let mut step = start().step(Event::Loaded { state: Some(state) });
    while !matches!(step.action, Action::CreateChannel { .. }) {
        assert!(step.gone.is_empty());
        let event = guild.perform(&step, price());
        step = step.updater.step(event);
    }
    let messages: Vec<String> = step.gone.iter().map(|gone| gone.message()).collect();
    assert_eq!(
        messages,
        [
            "Stored XELIS stats channel 902 for Block Reward: no longer exists",
            "Stored XELIS stats channel 904 for Circ Supply: no longer exists",
        ]
    );
    let event = guild.perform(&step, price());
    let step = step.updater.step(event);
    assert!(matches!(step.action, Action::SaveState { .. }));
    assert!(step.gone.is_empty());
}

#[test]
fn other_entries_stay() {
    let mut guild = Guild::new();
    let entries = vec![("Other:".to_string(), 3), ("Price:".to_string(), 0)];
    let state = ChannelState::from_entries(None, &entries);
    let step = guild.update(start(), Event::Loaded { state: Some(state) }, price());
    let state = step.updater.state();
    assert_eq!(state.entries().len(), 10);
    assert_eq!(state.channel_id("Other:"), Some(3));
    assert!(LABELS.iter().all(|label| state.channel_id(label).is_some()));
}

#[test]
fn a_longer_interval_is_waited_for() {
    let mut config = config();
    config.refresh_interval = Interval { secs: 300, nanos: 7 };
    let step = StatsUpdater::new(11, config).step(Event::Loaded { state: None });
    let step = step.updater.step(Event::Failed);
    assert!(matches!(
        step.action,
        Action::Sleep { interval: Interval { secs: 300, nanos: 7 } }
    ));
}

#[test]
fn the_ids_are_read_first() {
    match start().first_action() {
        Action::LoadState { path } => assert_eq!(path.to_str(), Some("state.json")),
        other => panic!("{:?}", other),
    }
}

#[test]
fn an_update_starts_after_a_wait() {
    let mut guild = Guild::new();
    let mut step = start().step(Event::Loaded { state: None });
    assert!(matches!(step.action, Action::ListChannels { .. }));
    loop {
        let event = guild.perform(&step, price());
        step = step.updater.step(event);
        assert!(!matches!(step.action, Action::ListChannels { .. }));
        if matches!(step.action, Action::Sleep { .. }) {
            break;
        }
    }
    let step = step.updater.step(Event::Done);
    assert!(matches!(step.action, Action::ListChannels { guild_id: 11 }));
}

#[test]
fn the_written_category_is_the_one_in_use() {
    let mut guild = Guild::new();
    let state = ChannelState::from_entries(Some(77), &Vec::new());
    guild.update(start(), Event::Loaded { state: Some(state) }, price());
    let (category, _) = guild.saved.unwrap();
    assert_eq!(category, Some(100));
    assert!(guild.channels[1..].iter().all(|c| c.parent_id == category));
}
