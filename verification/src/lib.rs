//! XELIS network statistics shown as the names of Discord voice channels.
pub mod amounts;
pub mod big;
pub mod category;
pub mod chain;
pub mod channels;
pub mod config;
pub mod convergence;
pub mod decimal;
pub mod double;
pub mod laws;
pub mod names;
pub mod price;
pub mod quote;
pub mod readings;
pub mod rounding;
pub mod rules;
pub mod snapshot;
pub mod state;
pub mod steps;
pub mod updater;

pub use amounts::{
    coins_mined_percentage, format_block_reward, format_circulating_supply, format_max_supply,
    format_price, format_seconds, market_cap,
};
pub use config::{default_category_title, default_price_url, StatsConfig};
pub use decimal::format_with_commas;
pub use names::channel_name;
pub use snapshot::StatsSnapshot;
pub use state::ChannelState;
pub use updater::StatsUpdater;
