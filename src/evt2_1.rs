//! EVT2.1: 64-bit words; a CD word carries a 32-column validity mask.
use crate::bits::{bit_set, extract, field};
use crate::event::{polarities_binary, Event};
use std::collections::VecDeque;
use vstd::prelude::*;

verus! {

/// One raw EVT2.1 word; the type code sits in bits 63..60.
#[derive(Debug, Clone, Copy, PartialEq, Eq)]
pub struct Evt21 {
    pub data: u64,
}

pub const EVT_NEG: u8 = 0b0000;
pub const EVT_POS: u8 = 0b0001;
pub const EVT_TIME_HIGH: u8 = 0b1000;
pub const EXT_TRIGGER: u8 = 0b1010;

impl Evt21 {
    pub open spec fn spec_event_type(self) -> u8 {
        field(self.data, 60, 63) as u8
    }

    pub open spec fn spec_time_high(self) -> u64 {
        field(self.data, 32, 59)
    }

    pub open spec fn spec_timestamp(self) -> u64 {
        field(self.data, 54, 59)
    }

    pub open spec fn spec_x(self) -> u16 {
        field(self.data, 43, 53) as u16
    }

    pub open spec fn spec_y(self) -> u16 {
        field(self.data, 32, 42) as u16
    }

    pub open spec fn spec_valid_mask(self) -> u32 {
        field(self.data, 0, 31) as u32
    }

    pub open spec fn spec_trigger_channel_id(self) -> u8 {
        field(self.data, 40, 44) as u8
    }

    pub open spec fn spec_trigger_value(self) -> u8 {
        field(self.data, 32, 32) as u8
    }

    pub fn event_type(&self) -> (r: u8)
        ensures
            r == self.spec_event_type(),
    {
        extract(self.data, 60, 63) as u8
    }

    pub fn time_high(&self) -> (r: u64)
        ensures
            r == self.spec_time_high(),
    {
        extract(self.data, 32, 59)
    }

    pub fn timestamp(&self) -> (r: u64)
        ensures
            r == self.spec_timestamp(),
    {
        extract(self.data, 54, 59)
    }

    pub fn x(&self) -> (r: u16)
        ensures
            r == self.spec_x(),
    {
        extract(self.data, 43, 53) as u16
    }

    pub fn y(&self) -> (r: u16)
        ensures
            r == self.spec_y(),
    {
        extract(self.data, 32, 42) as u16
    }

    pub fn valid_mask(&self) -> (r: u32)
        ensures
            r == self.spec_valid_mask(),
    {
        extract(self.data, 0, 31) as u32
    }

    pub fn trigger_channel_id(&self) -> (r: u8)
        ensures
            r == self.spec_trigger_channel_id(),
    {
        extract(self.data, 40, 44) as u8
    }

    pub fn trigger_value(&self) -> (r: u8)
        ensures
            r == self.spec_trigger_value(),
    {
        extract(self.data, 32, 32) as u8
    }
}

/// The ranges of the fields of an EVT2.1 word.
pub proof fn lemma_evt21_fields(w: Evt21)
    ensures
        w.spec_event_type() < 16,
        w.spec_time_high() < 0x1000_0000,
        w.spec_timestamp() < 64,
        w.spec_x() < 2048,
        w.spec_y() < 2048,
        w.spec_valid_mask() as u64 == field(w.data, 0, 31),
        w.spec_trigger_channel_id() < 32,
        w.spec_trigger_value() <= 1,
{
    let d = w.data;
    assert(field(d, 60, 63) < 16) by (bit_vector);
    assert(field(d, 32, 59) < 0x1000_0000) by (bit_vector);
    assert(field(d, 54, 59) < 64) by (bit_vector);
    assert(field(d, 43, 53) < 2048) by (bit_vector);
    assert(field(d, 32, 42) < 2048) by (bit_vector);
    assert(field(d, 0, 31) < 0x1_0000_0000) by (bit_vector);
    assert(field(d, 40, 44) < 32) by (bit_vector);
    assert(field(d, 32, 32) <= 1) by (bit_vector);
}

/// The events of one CD word: for each bit `k` set in `mask` below `n`, in
/// ascending order, a CD event at column `x + k`.
pub open spec fn mask_events(x: u16, y: u16, p: u8, t: u64, mask: u32, n: nat) -> Seq<Event>
    decreases n,
{
    if n == 0 {
        seq![]
    } else {
        let k = (n - 1) as nat;
        mask_events(x, y, p, t, mask, k) + if bit_set(mask as u64, k) {
            seq![Event::CD { x: (x + k) as u16, y, p, t }]
        } else {
            seq![]
        }
    }
}

/// The state of an EVT2.1 decoder, as its contracts describe it.
pub struct Evt21State {
    /// The time base, once a time-high word has set it.
    pub time_base: Option<u64>,
}

/// EVT2.1 decoder: the state of `Evt21State`, carried from word to word.
pub struct Evt21Decoder {
    time_base: Option<u64>,
}

impl View for Evt21Decoder {
    type V = Evt21State;

    closed spec fn view(&self) -> Evt21State {
        Evt21State { time_base: self.time_base }
    }
}

/// Bit `k` of `m & (m - 1)` is bit `k` of `m`, except at the lowest set bit
/// `tz` of `m`, which is cleared.
proof fn lemma_clear_lowest_bit(m: u32, tz: u32, k: u32)
    by (bit_vector)
    requires
        m != 0,
        tz < 32,
        k < 32,
        (m >> tz) & 1u32 == 1u32,
        m << ((32u32 - tz) as u32) == 0,
    ensures
        (((m & ((m - 1u32) as u32)) as u64) >> (k as u64)) & 1u64 == 1u64 <==> (k != tz && ((m as u64)
            >> (k as u64)) & 1u64 == 1u64),
        ((m as u64) >> (tz as u64)) & 1u64 == 1u64,
        k < tz ==> ((m as u64) >> (k as u64)) & 1u64 == 0u64,
        m & ((m - 1u32) as u32) < m,
{
}

/// Columns whose bits are clear add no event.
proof fn lemma_mask_events_skip(x: u16, y: u16, p: u8, t: u64, mask: u32, a: nat, b: nat)
    requires
        a <= b,
        forall|k: nat| a <= k < b ==> !#[trigger] bit_set(mask as u64, k),
    ensures
        mask_events(x, y, p, t, mask, b) == mask_events(x, y, p, t, mask, a),
    decreases b,
{
    if b > a {
        lemma_mask_events_skip(x, y, p, t, mask, a, (b - 1) as nat);
        assert(!bit_set(mask as u64, (b - 1) as nat));
        assert(mask_events(x, y, p, t, mask, b) =~= mask_events(x, y, p, t, mask, (b - 1) as nat));
    }
}

impl Evt21State {
    /// The state after one word, and the events that word emits. Until a
    /// time-high word has set the time base, words that would emit an event
    /// emit nothing, their time being undefined; unknown type codes emit
    /// `Unknown`.
    pub open spec fn step(self, w: Evt21) -> (Evt21State, Seq<Event>) {
        let ty = w.spec_event_type();
        if ty == EVT_NEG || ty == EVT_POS {
            match self.time_base {
                Some(b) => (
                    self,
                    mask_events(
                        w.spec_x(),
                        w.spec_y(),
                        ty,
                        b | w.spec_timestamp(),
                        w.spec_valid_mask(),
                        32,
                    ),
                ),
                None => (self, seq![]),
            }
        } else if ty == EVT_TIME_HIGH {
            (Evt21State { time_base: Some(w.spec_time_high() << 6) }, seq![])
        } else if ty == EXT_TRIGGER {
            match self.time_base {
                Some(b) => (
                    self,
                    seq![
                        Event::ExternalTrigger {
                            id: w.spec_trigger_channel_id(),
                            p: w.spec_trigger_value(),
                            t: b | w.spec_timestamp(),
                        },
                    ],
                ),
                None => (self, seq![]),
            }
        } else {
            (self, seq![Event::Unknown()])
        }
    }

    /// The state after a run of words, and the events the run emits, in order.
    pub open spec fn run(self, ws: Seq<Evt21>) -> (Evt21State, Seq<Event>)
        decreases ws.len(),
    {
        if ws.len() == 0 {
            (self, seq![])
        } else {
            let (d, evs) = self.run(ws.drop_last());
            let (d2, evs2) = d.step(ws.last());
            (d2, evs + evs2)
        }
    }

}

impl Evt21Decoder {
    pub fn new() -> (r: Self)
        ensures
            r@ == (Evt21State { time_base: None }),
    {
        Evt21Decoder { time_base: None }
    }

    /// Emits one CD event per set bit of `valid`, lowest bit first, by
    /// repeatedly isolating and clearing the lowest set bit.
    fn push_mask(x: u16, y: u16, p: u8, t: u64, valid: u32, event_queue: &mut VecDeque<Event>)
        requires
            x < 2048,
        ensures
            final(event_queue)@ == old(event_queue)@ + mask_events(x, y, p, t, valid, 32),
    {
        broadcast use vstd::std_specs::bits::axiom_u32_trailing_zeros;

        let ghost q0 = event_queue@;
        let ghost mut j: nat = 0;
        let mut mask: u32 = valid;
        while mask != 0
            invariant
                x < 2048,
                j <= 32,
                forall|k: nat|
                    k < 32 ==> (#[trigger] bit_set(mask as u64, k) <==> (j <= k && bit_set(
                        valid as u64,
                        k,
                    ))),
                event_queue@ == q0 + mask_events(x, y, p, t, valid, j),
            decreases mask,
        {
            let offset = mask.trailing_zeros();
            let ghost m = mask;
            proof {
                assert forall|k: nat| k < 32 implies #[trigger] bit_set((m & ((m - 1u32) as u32)) as u64, k)
                    <==> (k != offset && bit_set(m as u64, k)) by {
                    lemma_clear_lowest_bit(m, offset, k as u32);
                }
                lemma_clear_lowest_bit(m, offset, 0);
                assert forall|k: nat| j <= k < offset implies !#[trigger] bit_set(valid as u64, k) by {
                    lemma_clear_lowest_bit(m, offset, k as u32);
                    assert(!bit_set(m as u64, k));
                }
                assert(bit_set(m as u64, offset as nat));
                lemma_mask_events_skip(x, y, p, t, valid, j, offset as nat);
                assert(mask_events(x, y, p, t, valid, offset as nat + 1) =~= mask_events(
                    x,
                    y,
                    p,
                    t,
                    valid,
                    offset as nat,
                ).push(Event::CD { x: (x + offset) as u16, y, p, t }));
            }
            mask = mask & (mask - 1);
            event_queue.push_back(Event::CD { x: x + offset as u16, y, p, t });
            proof {
                j = offset as nat + 1;
            }
        }
        proof {
            assert forall|k: nat| j <= k < 32 implies !#[trigger] bit_set(valid as u64, k) by {
                let kk = k as u64;
                assert((0u64 >> kk) & 1u64 != 1u64) by (bit_vector);
                assert(!bit_set(mask as u64, k));
            }
            lemma_mask_events_skip(x, y, p, t, valid, j, 32);
        }
    }

    /// Decodes one word: updates the state and appends what the word emits.
    fn decode_word(&mut self, evt: Evt21, event_queue: &mut VecDeque<Event>)
        ensures
            final(self)@ == old(self)@.step(evt).0,
            final(event_queue)@ == old(event_queue)@ + old(self)@.step(evt).1,
    {
        proof {
            lemma_evt21_fields(evt);
        }
        let ty = evt.event_type();
        if ty == EVT_NEG || ty == EVT_POS {
            if let Some(time_base) = self.time_base {
                let full_timestamp = time_base | evt.timestamp();
                Self::push_mask(evt.x(), evt.y(), ty, full_timestamp, evt.valid_mask(), event_queue);
            }
        } else if ty == EVT_TIME_HIGH {
            self.time_base = Some(evt.time_high() << 6);
        } else if ty == EXT_TRIGGER {
            if let Some(time_base) = self.time_base {
                let full_timestamp = time_base | evt.timestamp();
                event_queue.push_back(
                    Event::ExternalTrigger {
                        id: evt.trigger_channel_id(),
                        p: evt.trigger_value(),
                        t: full_timestamp,
                    },
                );
            }
        } else {
            event_queue.push_back(Event::Unknown());
        }
    }

    /// Decodes a run of words, appending the events they emit to `event_queue`.
    pub fn decode(&mut self, raw_event: &[Evt21], event_queue: &mut VecDeque<Event>)
        ensures
            final(self)@ == old(self)@.run(raw_event@).0,
            final(event_queue)@ == old(event_queue)@ + old(self)@.run(raw_event@).1,
    {
        let ghost d0 = self@;
        let ghost q0 = event_queue@;
        let mut i: usize = 0;
        while i < raw_event.len()
            invariant
                i <= raw_event@.len(),
                self@ == d0.run(raw_event@.take(i as int)).0,
                event_queue@ == q0 + d0.run(raw_event@.take(i as int)).1,
            decreases raw_event@.len() - i,
        {
            proof {
                assert(raw_event@.take(i as int + 1).drop_last() =~= raw_event@.take(i as int));
            }
            self.decode_word(raw_event[i], event_queue);
            i = i + 1;
        }
        proof {
            assert(raw_event@.take(i as int) =~= raw_event@);
        }
    }
}

/// Every event of a CD word carries the row, polarity and time given.
pub proof fn lemma_mask_events_shape(x: u16, y: u16, p: u8, t: u64, mask: u32, n: nat)
    ensures
        forall|i: int|
            0 <= i < mask_events(x, y, p, t, mask, n).len() ==> ((#[trigger] mask_events(
                x,
                y,
                p,
                t,
                mask,
                n,
            )[i]) matches Event::CD { y: yy, p: pp, t: tt, .. } && yy == y && pp == p && tt == t),
    decreases n,
{
    if n > 0 {
        lemma_mask_events_shape(x, y, p, t, mask, (n - 1) as nat);
    }
}

impl Evt21State {
    /// The timestamp that the events of word `w` carry when it is decoded in
    /// this state; `None` for a word that emits no timed event.
    pub open spec fn stamp(self, w: Evt21) -> Option<u64> {
        let ty = w.spec_event_type();
        if self.time_base is Some && (ty == EVT_NEG || ty == EVT_POS || ty == EXT_TRIGGER) {
            Some(self.time_base->0 | w.spec_timestamp())
        } else {
            None
        }
    }

    /// Each timed event of one word carries the word's stamp.
    pub proof fn lemma_step_stamp(self, w: Evt21)
        ensures
            forall|k: int|
                0 <= k < self.step(w).1.len() && (#[trigger] self.step(w).1[k]).spec_timestamp() is Some
                    ==> self.stamp(w) == self.step(w).1[k].spec_timestamp(),
    {
        if self.time_base is Some {
            lemma_mask_events_shape(
                w.spec_x(),
                w.spec_y(),
                w.spec_event_type(),
                self.time_base->0 | w.spec_timestamp(),
                w.spec_valid_mask(),
                32,
            );
        }
    }

    /// One word emits polarities 0 and 1 only.
    pub proof fn lemma_step_polarity(self, w: Evt21)
        ensures
            polarities_binary(self.step(w).1),
    {
        lemma_evt21_fields(w);
        if self.time_base is Some {
            lemma_mask_events_shape(
                w.spec_x(),
                w.spec_y(),
                w.spec_event_type(),
                self.time_base->0 | w.spec_timestamp(),
                w.spec_valid_mask(),
                32,
            );
        }
    }
}

/// The column of a CD event; -1 for other events.
pub open spec fn cd_column(e: Event) -> int {
    match e {
        Event::CD { x, .. } => x as int,
        _ => -1,
    }
}

/// The events of the first `n` mask bits are exactly one CD event per set bit
/// `k < n`, at column `x + k`, in strictly ascending columns.
pub proof fn lemma_mask_events_members(x: u16, y: u16, p: u8, t: u64, mask: u32, n: nat)
    requires
        x + n <= 0x10000,
    ensures
        ({
            let e = mask_events(x, y, p, t, mask, n);
            &&& forall|i: int|
                0 <= i < e.len() ==> {
                    &&& #[trigger] e[i] == Event::CD { x: cd_column(e[i]) as u16, y, p, t }
                    &&& x <= cd_column(e[i]) < x + n
                    &&& bit_set(mask as u64, (cd_column(e[i]) - x) as nat)
                }
            &&& forall|i: int, j: int|
                0 <= i < j < e.len() ==> cd_column(#[trigger] e[i]) < cd_column(#[trigger] e[j])
            &&& forall|k: nat|
                k < n && #[trigger] bit_set(mask as u64, k) ==> e.contains(
                    Event::CD { x: (x + k) as u16, y, p, t },
                )
        }),
    decreases n,
{
    if n > 0 {
        let m = (n - 1) as nat;
        lemma_mask_events_members(x, y, p, t, mask, m);
        let prev = mask_events(x, y, p, t, mask, m);
        let e = mask_events(x, y, p, t, mask, n);
        if bit_set(mask as u64, m) {
            let last = Event::CD { x: (x + m) as u16, y, p, t };
            assert(e == prev.push(last));
            assert(cd_column(last) == x + m);
            assert(e[prev.len() as int] == last);
            assert forall|k: nat|
                k < n && #[trigger] bit_set(mask as u64, k) implies e.contains(
                Event::CD { x: (x + k) as u16, y, p, t },
            ) by {
                if k < m {
                    let ev = Event::CD { x: (x + k) as u16, y, p, t };
                    let i = choose|i: int| 0 <= i < prev.len() && prev[i] == ev;
                    assert(e[i] == ev);
                }
            }
        } else {
            assert(e =~= prev);
        }
    }
}

impl Evt21State {
    /// Mask enumeration: once a time base is set, an EVT_POS (EVT_NEG) word
    /// with column `X`, row `Y` and mask `M` leaves the state as it is and
    /// emits exactly one CD event at `X + k`, row `Y`, polarity 1 (0) and the
    /// word's full timestamp for each bit `k` set in `M`, in ascending `k`.
    pub proof fn lemma_mask_enumeration(self, w: Evt21)
        requires
            self.time_base is Some,
            w.spec_event_type() == EVT_POS || w.spec_event_type() == EVT_NEG,
        ensures
            ({
                let e = self.step(w).1;
                let xx = w.spec_x();
                let yy = w.spec_y();
                let pp: u8 = if w.spec_event_type() == EVT_POS { 1 } else { 0 };
                let tt = self.time_base->0 | w.spec_timestamp();
                let mm = w.spec_valid_mask();
                &&& self.step(w).0 == self
                &&& forall|i: int|
                    0 <= i < e.len() ==> {
                        &&& #[trigger] e[i] == Event::CD { x: cd_column(e[i]) as u16, y: yy, p: pp, t: tt }
                        &&& xx <= cd_column(e[i]) < xx + 32
                        &&& bit_set(mm as u64, (cd_column(e[i]) - xx) as nat)
                    }
                &&& forall|i: int, j: int|
                    0 <= i < j < e.len() ==> cd_column(#[trigger] e[i]) < cd_column(#[trigger] e[j])
                &&& forall|k: nat|
                    k < 32 && #[trigger] bit_set(mm as u64, k) ==> e.contains(
                        Event::CD { x: (xx + k) as u16, y: yy, p: pp, t: tt },
                    )
            }),
    {
        lemma_evt21_fields(w);
        lemma_mask_events_members(
            w.spec_x(),
            w.spec_y(),
            w.spec_event_type(),
            self.time_base->0 | w.spec_timestamp(),
            w.spec_valid_mask(),
            32,
        );
    }
}

} // verus!
