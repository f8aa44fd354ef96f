//! The category of the stats channels.
use crate::channels::{
    find_by_id, find_category, first, has_id, listed, titled, ChannelKind, ChannelView,
    GuildChannel,
};
use crate::config::StatsConfig;
use crate::decimal::{decimal, decimal_text};
use crate::state::ChannelState;
use vstd::prelude::*;
use vstd::string::*;

verus! {

/// What is to be done so that the guild has the stats category.
#[derive(Debug, Clone, Copy, PartialEq, Eq, Structural)]
pub enum CategoryStep {
    /// The category is as it should be.
    Keep { id: u64 },
    /// The category is to get the configured title.
    Rename { id: u64 },
    /// A category with the configured title is to be created.
    Create,
}

/// Why there is no stats category.
#[derive(Debug, Clone, Copy, PartialEq, Eq, Structural)]
pub enum CategoryError {
    /// The channel with this id is no category.
    NotACategory { id: u64 },
    /// The guild has no channel with the configured id.
    NotFound { id: u64 },
}

impl CategoryError {
    /// The error in words.
    pub open spec fn text(self) -> Seq<char> {
        match self {
            CategoryError::NotACategory { id } => "Stats category id "@ + decimal(id as nat)
                + " is not a Discord category"@,
            CategoryError::NotFound { id } => "Configured stats category id "@ + decimal(id as nat)
                + " was not found"@,
        }
    }

    /// The error in words.
    pub fn message(&self) -> (message: String)
        ensures
            message@ == self.text(),
    {
        match self {
            CategoryError::NotACategory { id } => "Stats category id ".to_owned().concat(
                decimal_text(*id as u128).as_str(),
            ).concat(" is not a Discord category"),
            CategoryError::NotFound { id } => "Configured stats category id ".to_owned().concat(
                decimal_text(*id as u128).as_str(),
            ).concat(" was not found"),
        }
    }
}

/// An id, zero being none.
pub open spec fn nonzero(id: Option<u64>) -> Option<u64> {
    match id {
        Some(0) => None,
        _ => id,
    }
}

/// The configured category, or else the recorded one.
pub open spec fn wanted_category(configured: Option<u64>, recorded: Option<u64>) -> Option<u64> {
    match nonzero(configured) {
        Some(id) => Some(id),
        None => nonzero(recorded),
    }
}

/// The wanted category is used where the guild has it, and renamed where it has
/// another title. Without one, and where a recorded one is gone, a category that has
/// the title is used, or else a new one.
pub open spec fn category_step(
    configured: Option<u64>,
    title: Seq<char>,
    channels: Seq<ChannelView>,
    recorded: Option<u64>,
) -> Result<CategoryStep, CategoryError> {
    let by_title = match first(channels, titled(title)) {
        Some(category) => CategoryStep::Keep { id: category.id },
        None => CategoryStep::Create,
    };
    match wanted_category(configured, recorded) {
        None => Ok(by_title),
        Some(id) => match first(channels, has_id(id)) {
            Some(category) => if category.kind != ChannelKind::Category {
                Err(CategoryError::NotACategory { id })
            } else if category.name != title {
                Ok(CategoryStep::Rename { id })
            } else {
                Ok(CategoryStep::Keep { id })
            },
            None => if nonzero(configured) is Some {
                Err(CategoryError::NotFound { id })
            } else {
                Ok(by_title)
            },
        },
    }
}

fn drop_zero(id: Option<u64>) -> (r: Option<u64>)
    ensures
        r == nonzero(id),
{
    match id {
        Some(0) => None,
        _ => id,
    }
}

/// What is to be done so that the guild has the stats category.
pub fn ensure_category(
    config: &StatsConfig,
    channels: &Vec<GuildChannel>,
    state: &ChannelState,
) -> (step: Result<CategoryStep, CategoryError>)
    ensures
        step == category_step(
            config.category_id,
            config.category_title@,
            listed(channels@),
            state@.category_id,
        ),
{
    let configured = drop_zero(config.category_id);
    let wanted = match configured {
        Some(id) => Some(id),
        None => drop_zero(state.category_id()),
    };
    if let Some(id) = wanted {
        if let Some(category) = find_by_id(channels, id) {
            if category.kind != ChannelKind::Category {
                return Err(CategoryError::NotACategory { id });
            }
            if !category.name.eq(&config.category_title) {
                return Ok(CategoryStep::Rename { id });
            }
            return Ok(CategoryStep::Keep { id });
        }
        if configured.is_some() {
            return Err(CategoryError::NotFound { id });
        }
    }
    match find_category(channels, &config.category_title) {
        Some(category) => Ok(CategoryStep::Keep { id: category.id }),
        None => Ok(CategoryStep::Create),
    }
}

/// The recorded category, where the guild no longer has it. With a category configured
/// the recorded one is not asked for.
pub open spec fn gone_category(
    configured: Option<u64>,
    channels: Seq<ChannelView>,
    recorded: Option<u64>,
) -> Option<u64> {
    match (nonzero(configured), nonzero(recorded)) {
        (None, Some(id)) => if first(channels, has_id(id)) is None {
            Some(id)
        } else {
            None
        },
        _ => None,
    }
}

/// The recorded category, where the guild no longer has it and none is configured.
pub fn find_gone_category(
    config: &StatsConfig,
    channels: &Vec<GuildChannel>,
    state: &ChannelState,
) -> (gone: Option<u64>)
    ensures
        gone == gone_category(config.category_id, listed(channels@), state@.category_id),
{
    match (drop_zero(config.category_id), drop_zero(state.category_id())) {
        (None, Some(id)) => match find_by_id(channels, id) {
            Some(_) => None,
            None => Some(id),
        },
        _ => None,
    }
}

/// Records the category that is used, and tells whether another one was recorded.
pub fn settle_category(state: &mut ChannelState, id: u64) -> (changed: bool)
    requires
        old(state).wf(),
    ensures
        final(state).wf(),
        final(state)@ == old(state)@.with_category(id),
        changed == (old(state)@.category_id != Some(id)),
{
    let changed = match state.category_id() {
        Some(recorded) => recorded != id,
        None => true,
    };
    state.set_category_id(id);
    changed
}

} // verus!
