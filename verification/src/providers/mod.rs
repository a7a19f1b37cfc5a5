//! Price providers.

use vstd::prelude::*;

pub mod octopus;

verus! {

/// The slot duration of providers that name no other, in minutes.
pub const DEFAULT_SLOT_MINS: u32 = 30;

/// A time of the day.
#[derive(Debug, Clone, Copy, PartialEq, Eq)]
pub struct TimeOfDay {
    pub hour: u32,
    pub minute: u32,
}

/// What a price provider says of its prices, besides the prices.
pub trait PriceProvider {
    /// Duration of each price slot in minutes. It converts job durations to slot counts.
    fn slot_duration_mins(&self) -> (r: u32)
        default_ensures
            r == DEFAULT_SLOT_MINS,
    {
        DEFAULT_SLOT_MINS
    }

    /// The local time each day when next-day prices are expected. `None` means that they are there
    /// at midnight, with no need to wait.
    fn next_day_data_available_at(&self) -> (r: Option<TimeOfDay>)
        default_ensures
            r is None,
    {
        None
    }
}

} // verus!
