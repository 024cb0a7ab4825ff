//! EVT2: 32-bit words, one pixel per CD word.
use crate::bits::{extract, field};
use crate::event::{polarities_binary, Event};
use std::collections::VecDeque;
use vstd::prelude::*;

verus! {

/// One raw EVT2 word; the type code sits in bits 31..28.
#[derive(Debug, Clone, Copy, PartialEq, Eq)]
pub struct Evt2 {
    pub data: u32,
}

pub const CD_OFF: u8 = 0b0000;
pub const CD_ON: u8 = 0b0001;
pub const EVT_TIME_HIGH: u8 = 0b1000;
pub const EXT_TRIGGER: u8 = 0b1010;

/// The number of low timestamp bits that a CD word carries.
pub const NUM_BITS_IN_TIMESTAMP_LSB: u64 = 6;

impl Evt2 {
    pub open spec fn spec_event_type(self) -> u8 {
        field(self.data as u64, 28, 31) as u8
    }

    pub open spec fn spec_x(self) -> u16 {
        field(self.data as u64, 11, 21) as u16
    }

    pub open spec fn spec_y(self) -> u16 {
        field(self.data as u64, 0, 10) as u16
    }

    pub open spec fn spec_time_low(self) -> u64 {
        field(self.data as u64, 22, 27)
    }

    pub open spec fn spec_time_high(self) -> u64 {
        field(self.data as u64, 0, 27)
    }

    pub open spec fn spec_trigger_channel_id(self) -> u8 {
        field(self.data as u64, 8, 12) as u8
    }

    pub open spec fn spec_trigger_value(self) -> u8 {
        field(self.data as u64, 0, 1) as u8
    }

    pub fn event_type(&self) -> (r: u8)
        ensures
            r == self.spec_event_type(),
    {
        extract(self.data as u64, 28, 31) as u8
    }

    pub fn x(&self) -> (r: u16)
        ensures
            r == self.spec_x(),
    {
        extract(self.data as u64, 11, 21) as u16
    }

    pub fn y(&self) -> (r: u16)
        ensures
            r == self.spec_y(),
    {
        extract(self.data as u64, 0, 10) as u16
    }

    pub fn time_low(&self) -> (r: u64)
        ensures
            r == self.spec_time_low(),
    {
        extract(self.data as u64, 22, 27)
    }

    pub fn time_high(&self) -> (r: u64)
        ensures
            r == self.spec_time_high(),
    {
        extract(self.data as u64, 0, 27)
    }

    pub fn trigger_channel_id(&self) -> (r: u8)
        ensures
            r == self.spec_trigger_channel_id(),
    {
        extract(self.data as u64, 8, 12) as u8
    }

    pub fn trigger_value(&self) -> (r: u8)
        ensures
            r == self.spec_trigger_value(),
    {
        extract(self.data as u64, 0, 1) as u8
    }
}

/// The state of an EVT2 decoder, as its contracts describe it.
pub struct Evt2State {
    /// The time base, once a time-high word has set it.
    pub time_base: Option<u64>,
}

/// EVT2 decoder: the state of `Evt2State`, carried from word to word.
pub struct Evt2Decoder {
    time_base: Option<u64>,
}

impl View for Evt2Decoder {
    type V = Evt2State;

    closed spec fn view(&self) -> Evt2State {
        Evt2State { time_base: self.time_base }
    }
}

impl Evt2State {
    /// The state after one word, and the events that word emits. Until a
    /// time-high word has set the time base, words that would emit an event
    /// emit nothing, their time being undefined; unknown type codes emit
    /// `Unknown`.
    pub open spec fn step(self, w: Evt2) -> (Evt2State, Seq<Event>) {
        let ty = w.spec_event_type();
        if ty == CD_ON || ty == CD_OFF {
            match self.time_base {
                Some(b) => (
                    self,
                    seq![Event::CD { x: w.spec_x(), y: w.spec_y(), p: ty, t: b | w.spec_time_low() }],
                ),
                None => (self, seq![]),
            }
        } else if ty == EVT_TIME_HIGH {
            (
                Evt2State { time_base: Some(w.spec_time_high() << NUM_BITS_IN_TIMESTAMP_LSB) },
                seq![],
            )
        } else if ty == EXT_TRIGGER {
            match self.time_base {
                Some(b) => (
                    self,
                    seq![
                        Event::ExternalTrigger {
                            id: w.spec_trigger_channel_id(),
                            p: w.spec_trigger_value(),
                            t: b,
                        },
                    ],
                ),
                None => (self, seq![]),
            }
        } else {
            (self, seq![Event::Unknown()])
        }
    }

    /// The state after a run of words, and the events the run emits, in order.
    pub open spec fn run(self, ws: Seq<Evt2>) -> (Evt2State, Seq<Event>)
        decreases ws.len(),
    {
        if ws.len() == 0 {
            (self, seq![])
        } else {
            let (d, evs) = self.run(ws.drop_last());
            let (d2, evs2) = d.step(ws.last());
            (d2, evs + evs2)
        }
    }

}

impl Evt2Decoder {
    pub fn new() -> (r: Self)
        ensures
            r@ == (Evt2State { time_base: None }),
    {
        Evt2Decoder { time_base: None }
    }

    /// Decodes one word: updates the state and appends what the word emits.
    fn decode_word(&mut self, evt: Evt2, event_queue: &mut VecDeque<Event>)
        ensures
            final(self)@ == old(self)@.step(evt).0,
            final(event_queue)@ == old(event_queue)@ + old(self)@.step(evt).1,
    {
        let ty = evt.event_type();
        if ty == CD_ON || ty == CD_OFF {
            if let Some(time_base) = self.time_base {
                event_queue.push_back(
                    Event::CD { x: evt.x(), y: evt.y(), p: ty, t: time_base | evt.time_low() },
                );
            }
        } else if ty == EVT_TIME_HIGH {
            self.time_base = Some(evt.time_high() << NUM_BITS_IN_TIMESTAMP_LSB);
        } else if ty == EXT_TRIGGER {
            if let Some(time_base) = self.time_base {
                event_queue.push_back(
                    Event::ExternalTrigger {
                        id: evt.trigger_channel_id(),
                        p: evt.trigger_value(),
                        t: time_base,
                    },
                );
            }
        } else {
            event_queue.push_back(Event::Unknown());
        }
    }

    /// Decodes a run of words, appending the events they emit to `event_queue`.
    pub fn decode(&mut self, raw_event: &[Evt2], event_queue: &mut VecDeque<Event>)
        ensures
            final(self)@ == old(self)@.run(raw_event@).0,
            final(event_queue)@ == old(event_queue)@ + old(self)@.run(raw_event@).1,
    {
        let ghost d0 = self@;
        let ghost q0 = event_queue@;
        let mut i: usize = 0;
        while i < raw_event.len()
            invariant
                i <= raw_event@.len(),
                self@ == d0.run(raw_event@.take(i as int)).0,
                event_queue@ == q0 + d0.run(raw_event@.take(i as int)).1,
            decreases raw_event@.len() - i,
        {
            proof {
                assert(raw_event@.take(i as int + 1).drop_last() =~= raw_event@.take(i as int));
            }
            self.decode_word(raw_event[i], event_queue);
            i = i + 1;
        }
        proof {
            assert(raw_event@.take(i as int) =~= raw_event@);
        }
    }
}

impl Evt2 {
    /// A trigger word whose two-bit value field holds more than one bit.
    pub open spec fn is_wide_trigger(self) -> bool {
        self.spec_event_type() == EXT_TRIGGER && self.spec_trigger_value() > 1
    }
}

impl Evt2State {
    /// The timestamp that the events of word `w` carry when it is decoded in
    /// this state; `None` for a word that emits no timed event.
    pub open spec fn stamp(self, w: Evt2) -> Option<u64> {
        let ty = w.spec_event_type();
        if self.time_base is Some && (ty == CD_ON || ty == CD_OFF) {
            Some(self.time_base->0 | w.spec_time_low())
        } else if self.time_base is Some && ty == EXT_TRIGGER {
            self.time_base
        } else {
            None
        }
    }

    /// Each timed event of one word carries the word's stamp.
    pub proof fn lemma_step_stamp(self, w: Evt2)
        ensures
            forall|k: int|
                0 <= k < self.step(w).1.len() && (#[trigger] self.step(w).1[k]).spec_timestamp() is Some
                    ==> self.stamp(w) == self.step(w).1[k].spec_timestamp(),
    {
    }

    /// One word emits polarities 0 and 1 only, unless it is a trigger word
    /// whose value field holds more than one bit.
    pub proof fn lemma_step_polarity(self, w: Evt2)
        requires
            !w.is_wide_trigger(),
        ensures
            polarities_binary(self.step(w).1),
    {
    }
}

} // verus!
