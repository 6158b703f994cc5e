//! What the followers read of the program's configuration.

use vstd::prelude::*;

verus! {

/// What the followers read of the program's configuration.
#[derive(Clone, Copy, PartialEq, Eq, Structural, Debug)]
pub struct Config {
    /// Whether replays are followed at all.
    pub auto_follow_replays: bool,
    /// Whether the subscriber is signed in.
    pub signed_in: bool,
    /// The UFC number from which on events are followed; 0 for none.
    pub auto_follow_ufc_number: u16,
    /// The UFC BJJ number from which on events are followed; 0 for none.
    pub auto_follow_bjj_number: u16,
    /// Whether the Contender Series is followed.
    pub auto_follow_contender_series: bool,
    /// Whether Fight Nights are followed.
    pub auto_follow_fight_nights: bool,
    /// Whether recordings that are available at the first check are wanted.
    pub auto_follow_existing: bool,
}

/// What one check goes by.
#[derive(Clone, Copy, PartialEq, Eq, Structural, Debug)]
pub struct Settings {
    /// The UFC number from which on events are followed; 0 for none.
    pub ufc: u16,
    /// The UFC BJJ number from which on events are followed; 0 for none.
    pub bjj: u16,
    /// Whether the Contender Series is followed.
    pub contender: bool,
    /// Whether Fight Nights are followed.
    pub fight_nights: bool,
    /// Whether recordings that are available at the first check are wanted.
    pub include_existing: bool,
}

/// The settings of a check; none where the followers are off or nobody is signed in.
pub open spec fn settings_of(config: Config) -> Option<Settings> {
    if config.auto_follow_replays && config.signed_in {
        Some(
            Settings {
                ufc: config.auto_follow_ufc_number,
                bjj: config.auto_follow_bjj_number,
                contender: config.auto_follow_contender_series,
                fight_nights: config.auto_follow_fight_nights,
                include_existing: config.auto_follow_existing,
            },
        )
    } else {
        None
    }
}

impl Config {
    /// The settings of a check; none where the followers are off or nobody is signed in.
    pub fn settings(&self) -> (r: Option<Settings>)
        ensures
            r == settings_of(*self),
    {
        if !self.auto_follow_replays || !self.signed_in {
            return None;
        }
        Some(
            Settings {
                ufc: self.auto_follow_ufc_number,
                bjj: self.auto_follow_bjj_number,
                contender: self.auto_follow_contender_series,
                fight_nights: self.auto_follow_fight_nights,
                include_existing: self.auto_follow_existing,
            },
        )
    }
}

} // verus!
