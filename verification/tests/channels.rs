use xelis_stats::channels::{
    edit_channel_if_needed, find_by_id, find_category, find_existing_channel,
    update_or_create_channel, ChannelKind, ChannelStep, GuildChannel,
};
use xelis_stats::state::ChannelState;

fn channel(id: u64, kind: ChannelKind, name: &str, parent_id: Option<u64>) -> GuildChannel {
    GuildChannel { id, kind, name: name.to_string(), parent_id }
}

fn guild() -> Vec<GuildChannel> {
    vec![
        channel(1, ChannelKind::Category, "XELIS STATS", None),
        channel(2, ChannelKind::Voice, "Price: $1", Some(1)),
        channel(3, ChannelKind::Voice, "Mcap: $2", Some(9)),
        channel(4, ChannelKind::Other, "Mcap: $2", Some(1)),
        channel(5, ChannelKind::Voice, "Price: $3", Some(1)),
    ]
}

fn step(state: &ChannelState, label: &str, name: &str) -> ChannelStep {
    update_or_create_channel(&guild(), 1, state, label, &name.to_string())
}

#[test]
fn finds_channels() {
    let guild = guild();
    assert_eq!(find_by_id(&guild, 3).unwrap().name, "Mcap: $2");
    assert!(find_by_id(&guild, 6).is_none());
    assert_eq!(find_category(&guild, &"XELIS STATS".to_string()).unwrap().id, 1);
    assert!(find_category(&guild, &"Price: $1".to_string()).is_none());
    assert_eq!(find_existing_channel(&guild, 1, "Price:").unwrap().id, 2);
    assert!(find_existing_channel(&guild, 9, "Price:").is_none());
    assert!(find_existing_channel(&guild, 1, "Mcap:").is_none());
}

#[test]
fn the_order_decides_only_between_several_matches() {
    let mut guild = guild();
    guild.reverse();
    assert_eq!(find_existing_channel(&guild, 1, "Price:").unwrap().id, 5);
    assert_eq!(find_existing_channel(&guild, 9, "Mcap:").unwrap().id, 3);
    assert!(find_existing_channel(&guild, 1, "Mcap:").is_none());
}

#[test]
fn edits_where_name_or_category_differ() {
    let c = channel(2, ChannelKind::Voice, "Price: $1", Some(1));
    assert!(!edit_channel_if_needed(&c, 1, &"Price: $1".to_string()));
    assert!(edit_channel_if_needed(&c, 1, &"Price: $2".to_string()));
    assert!(edit_channel_if_needed(&c, 7, &"Price: $1".to_string()));
    let orphan = channel(2, ChannelKind::Voice, "Price: $1", None);
    assert!(edit_channel_if_needed(&orphan, 1, &"Price: $1".to_string()));
}

#[test]
fn a_recorded_channel_is_used() {
    let mut state = ChannelState::default();
    state.set_channel_id("Price:", 5);
    assert_eq!(step(&state, "Price:", "Price: $3"), ChannelStep::Keep { id: 5, record: false });
    assert_eq!(step(&state, "Price:", "Price: $4"), ChannelStep::Edit { id: 5, record: false });
}

#[test]
fn a_channel_that_shows_the_label_is_recorded() {
    let state = ChannelState::default();
    assert_eq!(step(&state, "Price:", "Price: $1"), ChannelStep::Keep { id: 2, record: true });
    assert_eq!(step(&state, "Price:", "Price: $9"), ChannelStep::Edit { id: 2, record: true });
}

#[test]
fn a_recorded_channel_that_is_gone_is_searched_for() {
    let mut state = ChannelState::default();
    state.set_channel_id("Price:", 77);
    state.set_channel_id("Mcap:", 78);
    assert_eq!(step(&state, "Price:", "Price: $1"), ChannelStep::Keep { id: 2, record: true });
    assert_eq!(step(&state, "Mcap:", "Mcap: $2"), ChannelStep::Create);
}
