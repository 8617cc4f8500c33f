//! Which transition drives the crossfader, and what it does to it.

use vstd::prelude::*;

use crate::mixer::types::Mixer;

verus! {

/// What drives the crossfader this frame.
#[derive(Debug, Clone, Copy, PartialEq, Eq, Structural)]
pub enum Driver {
    Sequencer,
    BeatSync,
    Auto,
    Nothing,
}

/// Where the crossfader goes.
#[derive(Debug, Clone, Copy, PartialEq, Eq, Structural)]
pub enum Fader {
    /// To the value that the tick gave, clamped.
    Ticked,
    /// To the driver's target, as it is.
    Target,
    /// To the driver's target, clamped.
    ClampedTarget,
    /// It stays, and no transition reports a value.
    Stays,
}

/// What one tick comes to.
#[derive(Debug, Clone, Copy, PartialEq, Eq, Structural)]
pub struct TickOutcome {
    pub fader: Fader,
    /// The one-shot automatic fade ends.
    pub stop_auto: bool,
    /// The beat-synced fade ends.
    pub stop_beat_sync: bool,
}

/// What drives the crossfader: a playing sequencer first, then a beat-synced fade, then an
/// automatic one.
pub open spec fn driver_of(playing: bool, beat_sync: bool, auto: bool) -> Driver {
    if playing {
        Driver::Sequencer
    } else if beat_sync {
        Driver::BeatSync
    } else if auto {
        Driver::Auto
    } else {
        Driver::Nothing
    }
}

/// What a tick comes to, from whether it gave a value and whether the driver is done.
///
/// A sequencer step stops both one-shot fades. A beat-synced fade that is done lands on
/// its target; one that gave nothing and is not done leaves the crossfader. An automatic
/// fade that gave nothing is done.
pub open spec fn outcome_of(driver: Driver, ticked: bool, done: bool) -> TickOutcome {
    match driver {
        Driver::Sequencer => TickOutcome {
            fader: if ticked {
                Fader::Ticked
            } else {
                Fader::Stays
            },
            stop_auto: ticked,
            stop_beat_sync: ticked,
        },
        Driver::BeatSync => TickOutcome {
            fader: if ticked {
                Fader::Ticked
            } else if done {
                Fader::Target
            } else {
                Fader::Stays
            },
            stop_auto: false,
            stop_beat_sync: !ticked && done,
        },
        Driver::Auto => TickOutcome {
            fader: if ticked {
                Fader::Ticked
            } else {
                Fader::ClampedTarget
            },
            stop_auto: !ticked,
            stop_beat_sync: false,
        },
        Driver::Nothing => TickOutcome {
            fader: Fader::Stays,
            stop_auto: false,
            stop_beat_sync: false,
        },
    }
}

impl<E, M> Mixer<E, M> {
    /// What drives the crossfader this frame. Only that one is ticked.
    pub fn transition_driver(&self) -> (d: Driver)
        ensures
            d == driver_of(self.playing, self.beat_sync, self.auto),
    {
        if self.playing {
            Driver::Sequencer
        } else if self.beat_sync {
            Driver::BeatSync
        } else if self.auto {
            Driver::Auto
        } else {
            Driver::Nothing
        }
    }

    /// Takes in a tick of the driver, from whether it gave a value and whether the driver
    /// is done: ends the fades that are over and says where the crossfader goes.
    pub fn tick_transitions(&mut self, ticked: bool, done: bool) -> (fader: Fader)
        ensures
            ({
                let o = outcome_of(
                    driver_of(old(self).playing, old(self).beat_sync, old(self).auto),
                    ticked,
                    done,
                );
                &&& fader == o.fader
                &&& *final(self) == (Mixer {
                    auto: old(self).auto && !o.stop_auto,
                    beat_sync: old(self).beat_sync && !o.stop_beat_sync,
                    ..*old(self)
                })
            }),
    {
        match self.transition_driver() {
            Driver::Sequencer => if ticked {
                self.auto = false;
                self.beat_sync = false;
                Fader::Ticked
            } else {
                Fader::Stays
            },
            Driver::BeatSync => if ticked {
                Fader::Ticked
            } else if done {
                self.beat_sync = false;
                Fader::Target
            } else {
                Fader::Stays
            },
            Driver::Auto => if ticked {
                Fader::Ticked
            } else {
                self.auto = false;
                Fader::ClampedTarget
            },
            Driver::Nothing => Fader::Stays,
        }
    }
}

/// A fade ends only in the frame in which it was the driver, or in which a sequencer step
/// took the crossfader over; and the crossfader is left alone only by a driver that goes
/// on or does not run.
pub proof fn law_fades_end_when_done(driver: Driver, ticked: bool, done: bool)
    ensures
        outcome_of(driver, ticked, done).stop_auto ==> driver == Driver::Auto || (driver
            == Driver::Sequencer && ticked),
        outcome_of(driver, ticked, done).stop_beat_sync ==> driver == Driver::BeatSync || (driver
            == Driver::Sequencer && ticked),
        outcome_of(driver, ticked, done).fader == Fader::Stays ==> !outcome_of(
            driver,
            ticked,
            done,
        ).stop_auto && !outcome_of(driver, ticked, done).stop_beat_sync,
{
}

/// The sequencer drives whenever it plays; a beat-synced fade only while it does not; an
/// automatic fade only when neither runs.
pub proof fn law_driver_order(playing: bool, beat_sync: bool, auto: bool)
    ensures
        driver_of(playing, beat_sync, auto) == Driver::Sequencer <==> playing,
        driver_of(playing, beat_sync, auto) == Driver::BeatSync <==> beat_sync && !playing,
        driver_of(playing, beat_sync, auto) == Driver::Auto <==> auto && !playing && !beat_sync,
        driver_of(playing, beat_sync, auto) == Driver::Nothing <==> !playing && !beat_sync && !auto,
{
}

/// Where the crossfader goes: to what the tick gave, if a driver ran and gave something;
/// else a beat-synced fade that is done puts it on its target, and an automatic one on its
/// target, clamped. A one-shot fade ends when it is the driver and is over, and both end
/// when a sequencer step gives a value.
pub proof fn law_tick_moves_the_crossfader(driver: Driver, ticked: bool, done: bool)
    ensures
        ({
            let o = outcome_of(driver, ticked, done);
            &&& o.fader == Fader::Ticked <==> ticked && driver != Driver::Nothing
            &&& o.fader == Fader::Target <==> driver == Driver::BeatSync && !ticked && done
            &&& o.fader == Fader::ClampedTarget <==> driver == Driver::Auto && !ticked
            &&& o.stop_auto <==> (driver == Driver::Auto && !ticked) || (driver
                == Driver::Sequencer && ticked)
            &&& o.stop_beat_sync <==> (driver == Driver::BeatSync && !ticked && done) || (driver
                == Driver::Sequencer && ticked)
        }),
{
}

} // verus!
