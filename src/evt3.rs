//! EVT3: 16-bit words. Rows, vector bases and time are carried from word to
//! word by the decoder state.
use crate::bits::{bit_set, extract, field};
use crate::event::{polarities_binary, Event};
use std::collections::VecDeque;
use vstd::prelude::*;

verus! {

/// One raw EVT3 word; the type code sits in bits 15..12.
#[derive(Debug, Clone, Copy, PartialEq, Eq)]
pub struct Evt3 {
    pub data: u16,
}

pub const EVT_ADDR_Y: u8 = 0x0;
pub const EVT_ADDR_X: u8 = 0x2;
pub const VECT_BASE_X: u8 = 0x3;
pub const VECT_12: u8 = 0x4;
pub const VECT_8: u8 = 0x5;
pub const EVT_TIME_LOW: u8 = 0x6;
pub const EVT_TIME_HIGH: u8 = 0x8;
pub const EXT_TRIGGER: u8 = 0xA;

/// The largest time base one 12-bit high field can encode: `((1 << 12) - 1) << 12`.
pub const MAX_TIMESTAMP_BASE: u64 = 16773120;

/// The span of the 24-bit time counter: `MAX_TIMESTAMP_BASE + (1 << 12)`.
pub const TIME_LOOP_DURATION_US: u64 = 16777216;

/// How far below the previous time base a new one must fall to count as a
/// wrap of the counter rather than jitter: `10 << 12`.
pub const LOOP_THRESHOLD: u64 = 40960;

impl Evt3 {
    pub open spec fn spec_event_type(self) -> u8 {
        field(self.data as u64, 12, 15) as u8
    }

    pub open spec fn spec_y(self) -> u16 {
        field(self.data as u64, 0, 10) as u16
    }

    pub open spec fn spec_x(self) -> u16 {
        field(self.data as u64, 0, 10) as u16
    }

    pub open spec fn spec_pol(self) -> u8 {
        field(self.data as u64, 11, 11) as u8
    }

    pub open spec fn spec_time(self) -> u16 {
        field(self.data as u64, 0, 11) as u16
    }

    pub open spec fn spec_valid(self) -> u16 {
        field(self.data as u64, 0, 11) as u16
    }

    pub open spec fn spec_trigger_id(self) -> u8 {
        field(self.data as u64, 8, 11) as u8
    }

    pub open spec fn spec_trigger_polarity(self) -> u8 {
        field(self.data as u64, 0, 0) as u8
    }

    pub fn event_type(&self) -> (r: u8)
        ensures
            r == self.spec_event_type(),
    {
        extract(self.data as u64, 12, 15) as u8
    }

    pub fn y(&self) -> (r: u16)
        ensures
            r == self.spec_y(),
    {
        extract(self.data as u64, 0, 10) as u16
    }

    pub fn x(&self) -> (r: u16)
        ensures
            r == self.spec_x(),
    {
        extract(self.data as u64, 0, 10) as u16
    }

    pub fn pol(&self) -> (r: u8)
        ensures
            r == self.spec_pol(),
    {
        extract(self.data as u64, 11, 11) as u8
    }

    pub fn time(&self) -> (r: u16)
        ensures
            r == self.spec_time(),
    {
        extract(self.data as u64, 0, 11) as u16
    }

    pub fn valid(&self) -> (r: u16)
        ensures
            r == self.spec_valid(),
    {
        extract(self.data as u64, 0, 11) as u16
    }

    pub fn trigger_id(&self) -> (r: u8)
        ensures
            r == self.spec_trigger_id(),
    {
        extract(self.data as u64, 8, 11) as u8
    }

    pub fn trigger_polarity(&self) -> (r: u8)
        ensures
            r == self.spec_trigger_polarity(),
    {
        extract(self.data as u64, 0, 0) as u8
    }
}

/// The ranges of the fields of an EVT3 word.
pub proof fn lemma_evt3_fields(w: Evt3)
    ensures
        w.spec_event_type() < 16,
        w.spec_x() < 2048,
        w.spec_pol() <= 1,
        w.spec_time() < 4096,
        w.spec_trigger_id() < 16,
        w.spec_trigger_polarity() <= 1,
{
    let d = w.data as u64;
    assert(field(d, 12, 15) < 16) by (bit_vector);
    assert(field(d, 0, 10) < 2048) by (bit_vector);
    assert(field(d, 11, 11) <= 1) by (bit_vector);
    assert(field(d, 0, 11) < 4096) by (bit_vector);
    assert(field(d, 8, 11) < 16) by (bit_vector);
    assert(field(d, 0, 0) <= 1) by (bit_vector);
}

/// The events of one vector word: for each `i < n` in ascending order whose bit
/// is set in `valid`, a CD event at column `x0 + i` (modulo 2^16).
pub open spec fn vect_events(x0: u16, y: u16, p: u8, t: u64, valid: u16, n: nat) -> Seq<Event>
    decreases n,
{
    if n == 0 {
        seq![]
    } else {
        let i = (n - 1) as nat;
        vect_events(x0, y, p, t, valid, i) + if bit_set(valid as u64, i) {
            seq![Event::CD { x: x0.wrapping_add(i as u16), y, p, t }]
        } else {
            seq![]
        }
    }
}

/// The state of an EVT3 decoder, as its contracts describe it.
pub struct Evt3State {
    /// The current reconstructed time.
    pub time: u64,
    /// The current time base, once a time-high word has set it.
    pub time_base: Option<u64>,
    /// The number of wraps of the 24-bit time counter seen so far.
    pub time_high_loop_nb: u32,
    /// The row of the last row-address word.
    pub last_y: u16,
    /// The column where the next vector word starts.
    pub vect_x: u16,
    /// The polarity of the vector words.
    pub vect_pol: u8,
}

/// The number of columns a vector word covers.
pub open spec fn vect_width(w: Evt3) -> nat {
    if w.spec_event_type() == VECT_12 {
        12
    } else {
        8
    }
}

impl Evt3State {
    /// The state of a fresh decoder.
    pub open spec fn initial() -> Evt3State {
        Evt3State { time: 0, time_base: None, time_high_loop_nb: 0, last_y: 0, vect_x: 0, vect_pol: 0 }
    }

    /// The state keeps every timestamp within 64 bits: the time base stays
    /// below 2^57 and the time within 4096 µs above it; before the first time
    /// base nothing has moved the clock or the wrap count.
    pub open spec fn wf(self) -> bool {
        &&& self.vect_pol <= 1
        &&& match self.time_base {
            None => self.time_high_loop_nb == 0 && self.time == 0,
            Some(b) => b < 0x200_0000_0000_0000 && b <= self.time < b + 4096,
        }
    }

    /// The time base lies within the loop of the 24-bit counter that the wrap
    /// count names.
    pub open spec fn counts_loops(self) -> bool {
        self.time_base is Some ==> self.time_high_loop_nb * TIME_LOOP_DURATION_US
            <= self.time_base->0 < (self.time_high_loop_nb + 1) * TIME_LOOP_DURATION_US
    }

    /// The time base and wrap count after a time-high word carrying `high`:
    /// the base is `high << 12` plus the loops counted so far, plus one more
    /// loop (counted) when it falls below the previous base by at least
    /// `MAX_TIMESTAMP_BASE - LOOP_THRESHOLD`. The count is a `u32` and wraps
    /// around after 2^32 loops.
    pub open spec fn next_time_base(self, high: u16) -> (u64, u32) {
        let candidate = high * 4096 + self.time_high_loop_nb * TIME_LOOP_DURATION_US;
        if self.time_base is Some && self.time_base->0 > candidate && self.time_base->0
            - candidate >= MAX_TIMESTAMP_BASE - LOOP_THRESHOLD {
            ((candidate + TIME_LOOP_DURATION_US) as u64, self.time_high_loop_nb.wrapping_add(1))
        } else {
            (candidate as u64, self.time_high_loop_nb)
        }
    }

    /// The state after one word, and the events that word emits. Until a
    /// time-high word has set the time base, words that would emit an event
    /// emit nothing, their time being undefined; unknown type codes emit
    /// `Unknown`.
    pub open spec fn step(self, w: Evt3) -> (Evt3State, Seq<Event>) {
        let ty = w.spec_event_type();
        let based = self.time_base is Some;
        if ty == EVT_ADDR_Y {
            (Evt3State { last_y: w.spec_y(), ..self }, seq![])
        } else if ty == EVT_ADDR_X {
            if based {
                (
                    self,
                    seq![Event::CD { x: w.spec_x(), y: self.last_y, p: w.spec_pol(), t: self.time }],
                )
            } else {
                (self, seq![])
            }
        } else if ty == VECT_BASE_X {
            (Evt3State { vect_pol: w.spec_pol(), vect_x: w.spec_x(), ..self }, seq![])
        } else if ty == VECT_12 || ty == VECT_8 {
            let n: u16 = if ty == VECT_12 { 12 } else { 8 };
            if based {
                (
                    Evt3State { vect_x: self.vect_x.wrapping_add(n), ..self },
                    vect_events(
                        self.vect_x,
                        self.last_y,
                        self.vect_pol,
                        self.time,
                        w.spec_valid(),
                        n as nat,
                    ),
                )
            } else {
                (self, seq![])
            }
        } else if ty == EVT_TIME_LOW {
            if based {
                (Evt3State { time: (self.time_base->0 + w.spec_time()) as u64, ..self }, seq![])
            } else {
                (self, seq![])
            }
        } else if ty == EVT_TIME_HIGH {
            let (b, nb) = self.next_time_base(w.spec_time());
            (Evt3State { time_base: Some(b), time: b, time_high_loop_nb: nb, ..self }, seq![])
        } else if ty == EXT_TRIGGER {
            if based {
                (
                    self,
                    seq![
                        Event::ExternalTrigger {
                            id: w.spec_trigger_id(),
                            p: w.spec_trigger_polarity(),
                            t: self.time,
                        },
                    ],
                )
            } else {
                (self, seq![])
            }
        } else {
            (self, seq![Event::Unknown()])
        }
    }

    /// The state after a run of words, and the events the run emits, in order.
    pub open spec fn run(self, ws: Seq<Evt3>) -> (Evt3State, Seq<Event>)
        decreases ws.len(),
    {
        if ws.len() == 0 {
            (self, seq![])
        } else {
            let (d, evs) = self.run(ws.drop_last());
            let (d2, evs2) = d.step(ws.last());
            (d2, evs + evs2)
        }
    }

    /// The timestamp that the events of word `w` carry when it is decoded in
    /// this state; `None` for a word that emits no timed event.
    pub open spec fn stamp(self, w: Evt3) -> Option<u64> {
        let ty = w.spec_event_type();
        if self.time_base is Some && (ty == EVT_ADDR_X || ty == VECT_12 || ty == VECT_8 || ty
            == EXT_TRIGGER) {
            Some(self.time)
        } else {
            None
        }
    }

    /// Each timed event of one word carries the word's stamp.
    pub proof fn lemma_step_stamp(self, w: Evt3)
        ensures
            forall|k: int|
                0 <= k < self.step(w).1.len() && (#[trigger] self.step(w).1[k]).spec_timestamp() is Some
                    ==> self.stamp(w) == self.step(w).1[k].spec_timestamp(),
    {
        let ty = w.spec_event_type();
        if ty == VECT_12 || ty == VECT_8 {
            let n: u16 = if ty == VECT_12 { 12 } else { 8 };
            lemma_vect_events_shape(self.vect_x, self.last_y, self.vect_pol, self.time, w.spec_valid(), n as nat);
        }
    }

    /// One word keeps the state well formed, and emits polarities 0 and 1 only.
    pub proof fn lemma_step_wf(self, w: Evt3)
        requires
            self.wf(),
        ensures
            self.step(w).0.wf(),
            polarities_binary(self.step(w).1),
    {
        lemma_evt3_fields(w);
        let ty = w.spec_event_type();
        if ty == VECT_12 || ty == VECT_8 {
            let n: u16 = if ty == VECT_12 { 12 } else { 8 };
            lemma_vect_events_shape(self.vect_x, self.last_y, self.vect_pol, self.time, w.spec_valid(), n as nat);
        }
    }

    /// A wrap is never missed: one time-high word never moves the time base
    /// down by `MAX_TIMESTAMP_BASE - LOOP_THRESHOLD` or more, and, short of
    /// the wrap count overflowing, the new base lies in the loop it counts.
    pub proof fn lemma_time_high_never_drops_a_loop(self, w: Evt3)
        requires
            self.wf(),
            self.counts_loops(),
            self.time_base is Some,
            w.spec_event_type() == EVT_TIME_HIGH,
        ensures
            self.step(w).0.time_base is Some,
            self.step(w).0.time_base->0 + (MAX_TIMESTAMP_BASE - LOOP_THRESHOLD)
                > self.time_base->0,
            self.time_high_loop_nb < u32::MAX ==> self.step(w).0.counts_loops(),
    {
        lemma_evt3_fields(w);
    }

    /// Wrap handling: a time-high word of 0xFFF then one of 0x000 count one
    /// wrap of the counter and emit nothing. The second time base, and the
    /// time, are what the counter value alone gives (0, plus the loops already
    /// counted) plus one `TIME_LOOP_DURATION_US`, and the wrap count goes up
    /// by one.
    pub proof fn lemma_time_wrap(self, w1: Evt3, w2: Evt3)
        requires
            self.wf(),
            self.counts_loops(),
            self.time_high_loop_nb < u32::MAX,
            w1.spec_event_type() == EVT_TIME_HIGH && w1.spec_time() == 0xFFF,
            w2.spec_event_type() == EVT_TIME_HIGH && w2.spec_time() == 0x000,
        ensures
            ({
                let n = self.time_high_loop_nb;
                let d1 = self.run(seq![w1]).0;
                let d2 = self.run(seq![w1, w2]).0;
                &&& d1.time_base == Some((0xFFF * 4096 + n * TIME_LOOP_DURATION_US) as u64)
                &&& d2.time_base == Some(
                    ((0x000 * 4096 + n * TIME_LOOP_DURATION_US) + TIME_LOOP_DURATION_US) as u64,
                )
                &&& d2.time == d2.time_base->0
                &&& d1.time_high_loop_nb == n
                &&& d2.time_high_loop_nb == n + 1
                &&& self.run(seq![w1, w2]).1 == Seq::<Event>::empty()
            }),
    {
        reveal_with_fuel(Evt3State::run, 3);
        assert(seq![w1, w2].drop_last() =~= seq![w1]);
        assert(seq![w1].drop_last() =~= Seq::<Evt3>::empty());
        assert(Seq::<Event>::empty() + Seq::<Event>::empty() =~= Seq::<Event>::empty());
    }

    /// Vector expansion: after a vector base at column `x0` with polarity
    /// `pol`, a vector word of N columns emits exactly, in ascending `i`, a CD
    /// event at `x0 + i` on the current row, with `pol` and the current time,
    /// for each bit `i < N` set in its mask, and moves the vector column to
    /// `x0 + N`; a second vector word, with no new base, continues there.
    pub proof fn lemma_vector_expansion(self, base: Evt3, v1: Evt3, v2: Evt3)
        requires
            self.wf(),
            self.time_base is Some,
            base.spec_event_type() == VECT_BASE_X,
            v1.spec_event_type() == VECT_12 || v1.spec_event_type() == VECT_8,
            v2.spec_event_type() == VECT_12 || v2.spec_event_type() == VECT_8,
        ensures
            self.run(seq![base, v1]).1 == vect_events(
                base.spec_x(),
                self.last_y,
                base.spec_pol(),
                self.time,
                v1.spec_valid(),
                vect_width(v1),
            ),
            self.run(seq![base, v1]).0 == (Evt3State {
                vect_x: base.spec_x().wrapping_add(vect_width(v1) as u16),
                vect_pol: base.spec_pol(),
                ..self
            }),
            self.run(seq![base, v1, v2]).1 == self.run(seq![base, v1]).1 + vect_events(
                base.spec_x().wrapping_add(vect_width(v1) as u16),
                self.last_y,
                base.spec_pol(),
                self.time,
                v2.spec_valid(),
                vect_width(v2),
            ),
            self.run(seq![base, v1, v2]).0.vect_x == base.spec_x().wrapping_add(
                vect_width(v1) as u16,
            ).wrapping_add(vect_width(v2) as u16),
    {
        reveal_with_fuel(Evt3State::run, 4);
        assert(seq![base, v1, v2].drop_last() =~= seq![base, v1]);
        assert(seq![base, v1].drop_last() =~= seq![base]);
        assert(seq![base].drop_last() =~= Seq::<Evt3>::empty());
        assert(Seq::<Event>::empty() + self.step(base).1 =~= Seq::<Event>::empty());
        let d1 = self.step(base).0;
        assert(Seq::<Event>::empty() + d1.step(v1).1 =~= d1.step(v1).1);
    }
}

/// Every event of a vector word carries the row, polarity and time given.
pub proof fn lemma_vect_events_shape(x0: u16, y: u16, p: u8, t: u64, valid: u16, n: nat)
    ensures
        forall|i: int|
            0 <= i < vect_events(x0, y, p, t, valid, n).len() ==> ((#[trigger] vect_events(
                x0,
                y,
                p,
                t,
                valid,
                n,
            )[i]) matches Event::CD { y: yy, p: pp, t: tt, .. } && yy == y && pp == p && tt == t),
    decreases n,
{
    if n > 0 {
        lemma_vect_events_shape(x0, y, p, t, valid, (n - 1) as nat);
    }
}

/// EVT3 decoder: the state of `Evt3State`, carried from word to word.
pub struct Evt3Decoder {
    time: u64,
    time_base: Option<u64>,
    time_high_loop_nb: u32,
    last_y: u16,
    vect_x: u16,
    vect_pol: u8,
}

impl View for Evt3Decoder {
    type V = Evt3State;

    closed spec fn view(&self) -> Evt3State {
        Evt3State {
            time: self.time,
            time_base: self.time_base,
            time_high_loop_nb: self.time_high_loop_nb,
            last_y: self.last_y,
            vect_x: self.vect_x,
            vect_pol: self.vect_pol,
        }
    }
}

impl Evt3Decoder {
    pub fn new() -> (r: Self)
        ensures
            r@ == Evt3State::initial(),
            r@.wf(),
            r@.counts_loops(),
    {
        Evt3Decoder { time: 0, time_base: None, time_high_loop_nb: 0, last_y: 0, vect_x: 0, vect_pol: 0 }
    }

    /// Emits the events of a vector word of `n` columns and moves the vector
    /// column past them.
    fn push_vector(&mut self, valid: u16, n: u16, event_queue: &mut VecDeque<Event>)
        requires
            n == 8 || n == 12,
        ensures
            final(self)@ == (Evt3State { vect_x: old(self)@.vect_x.wrapping_add(n), ..old(self)@ }),
            final(event_queue)@ == old(event_queue)@ + vect_events(
                old(self)@.vect_x,
                old(self)@.last_y,
                old(self)@.vect_pol,
                old(self)@.time,
                valid,
                n as nat,
            ),
    {
        let ghost q0 = event_queue@;
        let bits: u64 = valid as u64;
        let mut i: u16 = 0;
        while i < n
            invariant
                i <= n <= 12,
                bits == valid as u64,
                event_queue@ == q0 + vect_events(
                    self.vect_x,
                    self.last_y,
                    self.vect_pol,
                    self.time,
                    valid,
                    i as nat,
                ),
            decreases n - i,
        {
            if (bits >> i as u64) & 1 == 1 {
                event_queue.push_back(
                    Event::CD {
                        x: self.vect_x.wrapping_add(i),
                        y: self.last_y,
                        p: self.vect_pol,
                        t: self.time,
                    },
                );
            }
            proof {
                assert(bit_set(valid as u64, i as nat) == ((bits >> i as u64) & 1 == 1));
            }
            i = i + 1;
        }
        self.vect_x = self.vect_x.wrapping_add(n);
    }

    /// Decodes one word: updates the state and appends what the word emits.
    fn decode_word(&mut self, evt: Evt3, event_queue: &mut VecDeque<Event>)
        requires
            old(self)@.wf(),
        ensures
            final(self)@.wf(),
            final(self)@ == old(self)@.step(evt).0,
            final(event_queue)@ == old(event_queue)@ + old(self)@.step(evt).1,
    {
        proof {
            lemma_evt3_fields(evt);
        }
        let ty = evt.event_type();
        if ty == EVT_ADDR_Y {
            self.last_y = evt.y();
        } else if ty == EVT_ADDR_X {
            if self.time_base.is_some() {
                event_queue.push_back(
                    Event::CD { x: evt.x(), y: self.last_y, p: evt.pol(), t: self.time },
                );
            }
        } else if ty == VECT_BASE_X {
            self.vect_pol = evt.pol();
            self.vect_x = evt.x();
        } else if ty == VECT_12 {
            if self.time_base.is_some() {
                self.push_vector(evt.valid(), 12, event_queue);
            }
        } else if ty == VECT_8 {
            if self.time_base.is_some() {
                self.push_vector(evt.valid(), 8, event_queue);
            }
        } else if ty == EVT_TIME_LOW {
            if let Some(time_base) = self.time_base {
                self.time = time_base + evt.time() as u64;
            }
        } else if ty == EVT_TIME_HIGH {
            let high = evt.time() as u64;
            let mut new_time_high: u64 = high * 4096 + self.time_high_loop_nb as u64
                * TIME_LOOP_DURATION_US;
            if let Some(time_base) = self.time_base {
                if time_base > new_time_high && time_base - new_time_high >= MAX_TIMESTAMP_BASE
                    - LOOP_THRESHOLD {
                    new_time_high = new_time_high + TIME_LOOP_DURATION_US;
                    self.time_high_loop_nb = self.time_high_loop_nb.wrapping_add(1);
                }
            }
            self.time_base = Some(new_time_high);
            self.time = new_time_high;
        } else if ty == EXT_TRIGGER {
            if self.time_base.is_some() {
                event_queue.push_back(
                    Event::ExternalTrigger {
                        id: evt.trigger_id(),
                        p: evt.trigger_polarity(),
                        t: self.time,
                    },
                );
            }
        } else {
            event_queue.push_back(Event::Unknown());
        }
    }

    /// Decodes a run of words, appending the events they emit to `event_queue`.
    pub fn decode(&mut self, raw_event: &[Evt3], event_queue: &mut VecDeque<Event>)
        requires
            old(self)@.wf(),
        ensures
            final(self)@.wf(),
            final(self)@ == old(self)@.run(raw_event@).0,
            final(event_queue)@ == old(event_queue)@ + old(self)@.run(raw_event@).1,
    {
        let ghost d0 = self@;
        let ghost q0 = event_queue@;
        let mut i: usize = 0;
        while i < raw_event.len()
            invariant
                i <= raw_event@.len(),
                self@.wf(),
                self@ == d0.run(raw_event@.take(i as int)).0,
                event_queue@ == q0 + d0.run(raw_event@.take(i as int)).1,
            decreases raw_event@.len() - i,
        {
            proof {
                assert(raw_event@.take(i as int + 1).drop_last() =~= raw_event@.take(i as int));
            }
            self.decode_word(raw_event[i], event_queue);
            i = i + 1;
        }
        proof {
            assert(raw_event@.take(i as int) =~= raw_event@);
        }
    }

    /// The current time base, once a time-high word has set it.
    pub fn time_base(&self) -> (r: Option<u64>)
        ensures
            r == self@.time_base,
    {
        self.time_base
    }

    /// The number of wraps of the 24-bit time counter seen so far.
    pub fn time_high_loop_nb(&self) -> (r: u32)
        ensures
            r == self@.time_high_loop_nb,
    {
        self.time_high_loop_nb
    }

    /// The current reconstructed time.
    pub fn time(&self) -> (r: u64)
        ensures
            r == self@.time,
    {
        self.time
    }
}

} // verus!
