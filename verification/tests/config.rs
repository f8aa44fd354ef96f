use xelis_stats::config::{
    default_category_title, default_price_url, Interval, StatsConfig, DEFAULT_REFRESH_INTERVAL,
    DEFAULT_STATE_PATH,
};

fn config(guild_id: Option<u64>) -> StatsConfig {
    StatsConfig {
        guild_id,
        category_id: None,
        category_title: default_category_title(),
        price_url: default_price_url(),
        state_path: DEFAULT_STATE_PATH.into(),
        refresh_interval: Interval { secs: 300, nanos: 0 },
    }
}

#[test]
fn enabled_where_a_guild_is_set() {
    assert!(config(Some(1)).enabled());
    assert!(!config(None).enabled());
}

#[test]
fn defaults() {
    assert_eq!(default_price_url(), "https://api.coinpaprika.com/v1/tickers/xel-xelis");
    assert_eq!(default_category_title(), "XELIS STATS");
    assert_eq!(DEFAULT_STATE_PATH, "xelis-stats-channels.json");
    assert_eq!(DEFAULT_REFRESH_INTERVAL, "5m");
}

#[test]
fn a_clone_has_the_same_settings() {
    let config = config(Some(3));
    let copy = config.clone();
    assert_eq!(copy.guild_id, Some(3));
    assert_eq!(copy.category_title, "XELIS STATS");
    assert_eq!(copy.state_path, config.state_path);
    assert_eq!(copy.refresh_interval, config.refresh_interval);
}

#[test]
fn an_interval_is_at_least_a_second() {
    let second = Interval { secs: 1, nanos: 0 };
    assert_eq!(Interval { secs: 0, nanos: 0 }.at_least_a_second(), second);
    assert_eq!(Interval { secs: 0, nanos: 999_999_999 }.at_least_a_second(), second);
    assert_eq!(second.at_least_a_second(), second);
    let longer = Interval { secs: 1, nanos: 1 };
    assert_eq!(longer.at_least_a_second(), longer);
}
