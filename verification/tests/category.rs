use xelis_stats::category::{ensure_category, settle_category, CategoryError, CategoryStep};
use xelis_stats::channels::{ChannelKind, GuildChannel};
use xelis_stats::config::{Interval, StatsConfig};
use xelis_stats::state::ChannelState;

fn config(category_id: Option<u64>) -> StatsConfig {
    StatsConfig {
        guild_id: Some(1),
        category_id,
        category_title: "STATS".to_string(),
        price_url: String::new(),
        state_path: "state.json".into(),
        refresh_interval: Interval { secs: 300, nanos: 0 },
    }
}

fn recorded(id: u64) -> ChannelState {
    let mut state = ChannelState::default();
    state.set_category_id(id);
    state
}

fn guild() -> Vec<GuildChannel> {
    let channel = |id: u64, kind: ChannelKind, name: &str| GuildChannel {
        id,
        kind,
        name: name.to_string(),
        parent_id: None,
    };
    vec![
        channel(1, ChannelKind::Voice, "STATS"),
        channel(2, ChannelKind::Category, "Other"),
        channel(3, ChannelKind::Category, "STATS"),
    ]
}

fn step(configured: Option<u64>, state: &ChannelState) -> Result<CategoryStep, CategoryError> {
    ensure_category(&config(configured), &guild(), state)
}

#[test]
fn the_configured_category_decides() {
    assert_eq!(step(Some(3), &recorded(2)), Ok(CategoryStep::Keep { id: 3 }));
    assert_eq!(step(Some(2), &recorded(3)), Ok(CategoryStep::Rename { id: 2 }));
    assert_eq!(step(Some(1), &recorded(3)), Err(CategoryError::NotACategory { id: 1 }));
    assert_eq!(step(Some(9), &recorded(3)), Err(CategoryError::NotFound { id: 9 }));
}

#[test]
fn the_recorded_category_comes_next() {
    assert_eq!(step(None, &recorded(3)), Ok(CategoryStep::Keep { id: 3 }));
    assert_eq!(step(Some(0), &recorded(2)), Ok(CategoryStep::Rename { id: 2 }));
    assert_eq!(step(None, &recorded(1)), Err(CategoryError::NotACategory { id: 1 }));
}

#[test]
fn a_category_is_found_by_its_title() {
    assert_eq!(step(None, &ChannelState::default()), Ok(CategoryStep::Keep { id: 3 }));
    assert_eq!(step(None, &recorded(0)), Ok(CategoryStep::Keep { id: 3 }));
    assert_eq!(step(None, &recorded(9)), Ok(CategoryStep::Keep { id: 3 }));
}

#[test]
fn a_category_is_created_where_none_is_found() {
    let step = ensure_category(&config(None), &Vec::new(), &recorded(9));
    assert_eq!(step, Ok(CategoryStep::Create));
}

#[test]
fn settling_records_the_category() {
    let mut state = ChannelState::default();
    assert!(settle_category(&mut state, 3));
    assert_eq!(state.category_id(), Some(3));
    assert!(!settle_category(&mut state, 3));
    assert!(settle_category(&mut state, 4));
    assert_eq!(state.category_id(), Some(4));
}

#[test]
fn refusals_in_words() {
    assert_eq!(
        CategoryError::NotACategory { id: 12 }.message(),
        "Stats category id 12 is not a Discord category"
    );
    assert_eq!(
        CategoryError::NotFound { id: 345 }.message(),
        "Configured stats category id 345 was not found"
    );
}
