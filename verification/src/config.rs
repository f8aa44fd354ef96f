//! What an operator sets for the stats channels.
use std::path::PathBuf;
use vstd::prelude::*;
use vstd::string::*;

verus! {

/// The price endpoint that is asked where none is set.
pub const DEFAULT_PRICE_URL: &'static str = "https://api.coinpaprika.com/v1/tickers/xel-xelis";

/// The category title where none is set.
pub const DEFAULT_CATEGORY_TITLE: &'static str = "XELIS STATS";

/// The file that keeps the channel ids where none is set.
pub const DEFAULT_STATE_PATH: &'static str = "xelis-stats-channels.json";

/// The refresh interval where none is set.
pub const DEFAULT_REFRESH_INTERVAL: &'static str = "5m";

/// `std::path::PathBuf`: a path is carried through and never read here.
#[verifier::external_type_specification]
#[verifier::external_body]
pub struct ExPathBuf(PathBuf);

/// `PathBuf::clone`: the clone is the path that was cloned.
pub assume_specification[ <PathBuf as Clone>::clone ](path: &PathBuf) -> (copy: PathBuf)
    ensures
        copy == *path,
;

/// A span of time: whole seconds and the nanoseconds beyond them.
#[derive(Debug, Clone, Copy, PartialEq, Eq, Structural)]
pub struct Interval {
    pub secs: u64,
    pub nanos: u32,
}

impl Interval {
    /// The span in nanoseconds.
    pub open spec fn total(self) -> nat {
        self.secs as nat * 1_000_000_000 + self.nanos as nat
    }

    /// One second where the span is shorter than that, else the span itself.
    pub open spec fn spec_at_least_a_second(self) -> Interval {
        if self.total() < 1_000_000_000 {
            Interval { secs: 1, nanos: 0 }
        } else {
            self
        }
    }

    /// The longer of this span and one second.
    pub fn at_least_a_second(self) -> (longer: Interval)
        ensures
            longer == self.spec_at_least_a_second(),
            self.total() >= 1_000_000_000 ==> longer == self,
            self.total() < 1_000_000_000 ==> longer.total() == 1_000_000_000,
            longer.total() >= 1_000_000_000,
            longer.total() >= self.total(),
    {
        if self.secs == 0 && self.nanos < 1_000_000_000 {
            Interval { secs: 1, nanos: 0 }
        } else {
            self
        }
    }
}

/// The settings of the stats channels.
#[derive(Debug)]
pub struct StatsConfig {
    /// The guild whose stats voice channels are managed
    pub guild_id: Option<u64>,
    /// The category of the stats channels. If absent, one is found or created.
    pub category_id: Option<u64>,
    /// The title of that category
    pub category_title: String,
    /// The endpoint that is asked for the price
    pub price_url: String,
    /// The file that keeps the channel ids
    pub state_path: PathBuf,
    /// The pause between two updates
    pub refresh_interval: Interval,
}

impl Clone for StatsConfig {
    fn clone(&self) -> (copy: Self)
        ensures
            copy == *self,
    {
        StatsConfig {
            guild_id: self.guild_id,
            category_id: self.category_id,
            category_title: self.category_title.clone(),
            price_url: self.price_url.clone(),
            state_path: self.state_path.clone(),
            refresh_interval: self.refresh_interval,
        }
    }
}

impl StatsConfig {
    /// Stats channels are managed where a guild is set.
    pub fn enabled(&self) -> (enabled: bool)
        ensures
            enabled == (self.guild_id is Some),
    {
        self.guild_id.is_some()
    }
}

pub fn default_price_url() -> (url: String)
    ensures
        url@ == "https://api.coinpaprika.com/v1/tickers/xel-xelis"@,
{
    DEFAULT_PRICE_URL.to_owned()
}

pub fn default_category_title() -> (title: String)
    ensures
        title@ == "XELIS STATS"@,
{
    DEFAULT_CATEGORY_TITLE.to_owned()
}

} // verus!
