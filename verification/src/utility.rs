//! The self-terminating blinker.
//!
//! A handler that wants an acknowledgement blink emits an alternating output
//! a fixed number of times. The blinker is a small state machine: while ticks
//! remain it emits one event per tick, alternating the value and counting
//! down, and the last event it ever emits turns the output on; at zero it is
//! done and emits nothing. The embedding program owns the timer driving the
//! ticks and forwards each emitted event to the shared output sink.

use vstd::prelude::*;

use crate::bitevents::{BitEvent, BitEventModel};

verus! {

/// The blink state machine: the event template it emits and the number of
/// ticks remaining. A count of zero is the terminal state.
pub struct Blinker {
    pub event: BitEvent,
    pub count: u8,
}

/// Mathematical image of a [`Blinker`].
pub struct BlinkerModel {
    pub event: BitEventModel,
    pub count: u8,
}

impl View for Blinker {
    type V = BlinkerModel;

    open spec fn view(&self) -> BlinkerModel {
        BlinkerModel { event: self.event@, count: self.count }
    }
}

/// The values a blinker started with `count` ticks remaining emits, in
/// order: alternating, counting down, so the last one is always 1.
pub open spec fn spec_blink_values(count: u8) -> Seq<u8>
    decreases count,
{
    if count == 0 {
        Seq::empty()
    } else {
        seq![(count % 2) as u8] + spec_blink_values((count - 1) as u8)
    }
}

impl Blinker {
    /// A blinker that will emit `count` events patterned on `event`.
    pub fn new(event: BitEvent, count: u8) -> (r: Blinker)
        ensures
            r@.event == event@,
            r@.count == count,
    {
        Blinker { event, count }
    }

    /// One tick: while ticks remain, emits the template event carrying the
    /// alternating value and counts down; at zero, emits nothing and stays
    /// done forever.
    pub fn tick(&mut self) -> (r: Option<BitEvent>)
        ensures
            final(self)@.event == old(self)@.event,
            old(self)@.count == 0 ==> r is None && final(self)@.count == 0,
            old(self)@.count > 0 ==> {
                &&& final(self)@.count == old(self)@.count - 1
                &&& r is Some
                &&& r->Some_0@ == (BitEventModel {
                    dev_name: old(self)@.event.dev_name,
                    bit: old(self)@.event.bit,
                    value: (old(self)@.count % 2) as u8,
                })
                &&& r->Some_0@.value == spec_blink_values(old(self)@.count)[0]
            },
    {
        if self.count == 0 {
            None
        } else {
            let value = self.count % 2;
            self.count = self.count - 1;
            Some(BitEvent { dev_name: self.event.dev_name.clone(), bit: self.event.bit, value })
        }
    }
}

/// Law of the blinker: started with `count` ticks it emits exactly `count`
/// values, the value emitted on each tick alternates with the ticks
/// remaining, and when any blinking happens at all the last emitted value
/// turns the output on.
pub proof fn lemma_blink_profile(count: u8)
    ensures
        spec_blink_values(count).len() == count,
        forall|i: int| 0 <= i < count ==> spec_blink_values(count)[i] == ((count - i) % 2) as u8,
        count > 0 ==> spec_blink_values(count).last() == 1,
    decreases count,
{
    if count > 0 {
        lemma_blink_profile((count - 1) as u8);
        assert forall|i: int| 0 <= i < count implies spec_blink_values(count)[i] == ((count - i)
            % 2) as u8 by {
            if i > 0 {
                assert(spec_blink_values(count)[i] == spec_blink_values((count - 1) as u8)[i - 1]);
            }
        }
        assert(spec_blink_values(count).last() == ((count - (count - 1)) % 2) as u8);
    }
}

} // verus!
