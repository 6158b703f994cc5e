//! The loop of the followers: when a check begins, and with which settings.

use crate::config::{settings_of, Config, Settings};
use vstd::prelude::*;

verus! {

/// What the followers are at.
#[derive(Clone, Copy, PartialEq, Eq, Structural, Debug)]
pub enum Follower {
    /// They wait for the next tick of the timer.
    Waiting,
    /// A check with these settings is under way.
    Checking(Settings),
}

/// What moves the followers.
#[derive(Clone, Copy, PartialEq, Eq, Structural, Debug)]
pub enum Pulse {
    /// The timer ticks, and this is the configuration then.
    Tick(Config),
    /// The check has ended, or failed.
    Ended { failed: bool },
}

/// The followers after a pulse. A tick begins a check just where the configuration gives settings
/// for one; the end of a check, whatever came of it, lets them wait again.
pub open spec fn follower_step(follower: Follower, pulse: Pulse) -> Follower {
    match (follower, pulse) {
        (Follower::Waiting, Pulse::Tick(config)) => match settings_of(config) {
            Some(settings) => Follower::Checking(settings),
            None => Follower::Waiting,
        },
        (Follower::Checking(_), Pulse::Ended { .. }) => Follower::Waiting,
        _ => follower,
    }
}

impl Follower {
    /// The followers when they start.
    pub fn begin() -> (r: Follower)
        ensures
            r == Follower::Waiting,
    {
        Follower::Waiting
    }

    /// The settings of the check that is under way.
    pub fn check(&self) -> (r: Option<Settings>)
        ensures
            r == (match *self {
                Follower::Waiting => None,
                Follower::Checking(settings) => Some(settings),
            }),
    {
        match *self {
            Follower::Waiting => None,
            Follower::Checking(settings) => Some(settings),
        }
    }

    /// Goes on after a pulse.
    pub fn advance(&mut self, pulse: Pulse)
        ensures
            *final(self) == follower_step(*old(self), pulse),
    {
        match (*self, pulse) {
            (Follower::Waiting, Pulse::Tick(config)) => {
                match config.settings() {
                    Some(settings) => {
                        *self = Follower::Checking(settings);
                    },
                    None => {},
                }
            },
            (Follower::Checking(_), Pulse::Ended { .. }) => {
                *self = Follower::Waiting;
            },
            _ => {},
        }
    }
}

/// The followers after a list of pulses.
pub open spec fn follower_run(pulses: Seq<Pulse>) -> Follower
    decreases pulses.len(),
{
    if pulses.len() == 0 {
        Follower::Waiting
    } else {
        follower_step(follower_run(pulses.drop_last()), pulses.last())
    }
}

/// Following is opt-in: whatever happened before, a tick that finds the followers waiting begins a
/// check if and only if replays are followed and the subscriber is signed in, and the check goes
/// by what the configuration says then.
pub proof fn law_tick_begins_a_check_where_one_is_due(pulses: Seq<Pulse>, config: Config)
    requires
        follower_run(pulses) == Follower::Waiting,
    ensures
        ({
            let after = follower_run(pulses.push(Pulse::Tick(config)));
            &&& after is Checking <==> config.auto_follow_replays && config.signed_in
            &&& after is Checking ==> after == Follower::Checking(
                Settings {
                    ufc: config.auto_follow_ufc_number,
                    bjj: config.auto_follow_bjj_number,
                    contender: config.auto_follow_contender_series,
                    fight_nights: config.auto_follow_fight_nights,
                    include_existing: config.auto_follow_existing,
                },
            )
        }),
{
    assert(pulses.push(Pulse::Tick(config)).drop_last() =~= pulses);
}

/// Two lists of pulses are alike but for which checks failed.
pub open spec fn alike_but_for_failures(a: Seq<Pulse>, b: Seq<Pulse>) -> bool {
    a.len() == b.len() && forall|i: int|
        #![trigger a[i]]
        #![trigger b[i]]
        0 <= i < a.len() ==> a[i] == b[i] || (a[i] is Ended && b[i] is Ended)
}

/// A check that fails does not end the loop: later ticks are served as if it had ended well.
pub proof fn law_failed_checks_change_nothing(a: Seq<Pulse>, b: Seq<Pulse>)
    requires
        alike_but_for_failures(a, b),
    ensures
        follower_run(a) == follower_run(b),
    decreases a.len(),
{
    if a.len() > 0 {
        let x = a.drop_last();
        let y = b.drop_last();
        assert forall|i: int|
            #![trigger x[i]]
            #![trigger y[i]]
            0 <= i < x.len() implies x[i] == y[i] || (x[i] is Ended && y[i] is Ended) by {
            assert(x[i] == a[i] && y[i] == b[i]);
        }
        law_failed_checks_change_nothing(x, y);
        assert(a[a.len() - 1] == a.last() && b[b.len() - 1] == b.last());
    }
}

/// A check that has ended, well or not, lets the followers wait, so that the next tick is served.
pub proof fn law_ended_checks_let_wait(pulses: Seq<Pulse>, failed: bool)
    ensures
        follower_run(pulses.push(Pulse::Ended { failed })) == Follower::Waiting,
{
    assert(pulses.push(Pulse::Ended { failed }).drop_last() =~= pulses);
}

} // verus!
