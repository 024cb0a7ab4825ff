//! The format selector and the framed reader: bytes are gathered into a
//! fixed-size buffer, cut into little-endian words and handed to the decoder.
use crate::error::RawFileReaderError;
use crate::event::{polarities_binary, timestamps_nondecreasing, Event};
use crate::evt2::{Evt2, Evt2Decoder, Evt2State};
use crate::evt2_1::{Evt21, Evt21Decoder, Evt21State};
use crate::evt3::{Evt3, Evt3Decoder, Evt3State};
use crate::header::RawEventType;
use std::collections::VecDeque;
use vstd::arithmetic::power2::*;
use vstd::prelude::*;

verus! {

/// The unsigned integer that the `width` bytes of `bytes` from `start` on
/// encode, least significant byte first.
pub open spec fn le_value(bytes: Seq<u8>, start: int, width: nat) -> nat
    decreases width,
{
    if width == 0 {
        0
    } else {
        bytes[start] as nat + 256 * le_value(bytes, start + 1, (width - 1) as nat)
    }
}

/// The whole words of `width` bytes at the front of `bytes`; a trailing
/// remainder shorter than a word is left out.
pub open spec fn le_words(bytes: Seq<u8>, width: nat) -> Seq<u64>
    recommends
        width > 0,
{
    Seq::new(bytes.len() / width, |i: int| le_value(bytes, i * width, width) as u64)
}

proof fn lemma_le_value_bound(bytes: Seq<u8>, start: int, width: nat)
    ensures
        le_value(bytes, start, width) < pow2(8 * width),
    decreases width,
{
    if width == 0 {
        lemma2_to64();
    } else {
        lemma_le_value_bound(bytes, start + 1, (width - 1) as nat);
        lemma_pow2_adds(8 * (width - 1) as nat, 8);
        lemma2_to64();
        assert(8 * width == 8 * (width - 1) as nat + 8);
    }
}

/// Reads the `width`-byte little-endian integer at `start`.
fn read_le(bytes: &[u8], start: usize, width: usize) -> (r: u64)
    requires
        1 <= width <= 8,
        start + width <= bytes@.len(),
    ensures
        r as nat == le_value(bytes@, start as int, width as nat),
        r < pow2(8 * width as nat),
{
    let mut r: u64 = 0;
    let mut k: usize = width;
    while k > 0
        invariant
            k <= width <= 8,
            start + width <= bytes.len(),
            r as nat == le_value(bytes@, start + k, (width - k) as nat),
        decreases k,
    {
        proof {
            lemma_le_value_bound(bytes@, start + k, (width - k) as nat);
            if width - k < 7 {
                lemma_pow2_strictly_increases(8 * (width - k) as nat, 56);
            }
            lemma2_to64();
            lemma2_to64_rest();
        }
        k = k - 1;
        r = bytes[start + k] as u64 + 256 * r;
    }
    proof {
        lemma_le_value_bound(bytes@, start as int, width as nat);
    }
    r
}

/// Cuts `bytes` into whole little-endian words of `width` bytes.
fn read_words(bytes: &[u8], width: usize) -> (r: Vec<u64>)
    requires
        width == 2 || width == 4 || width == 8,
    ensures
        r@ == le_words(bytes@, width as nat),
{
    let mut r: Vec<u64> = Vec::new();
    let mut off: usize = 0;
    while width <= bytes.len() - off
        invariant
            width == 2 || width == 4 || width == 8,
            off <= bytes.len(),
            off == r@.len() * width,
            forall|j: int|
                0 <= j < r@.len() ==> #[trigger] r@[j] == le_value(bytes@, j * width, width as nat)
                    as u64,
        decreases bytes.len() - off,
    {
        let w = read_le(bytes, off, width);
        r.push(w);
        off = off + width;
    }
    proof {
        let n = r@.len();
        let len = bytes@.len();
        assert(n == len / width as nat) by (nonlinear_arith)
            requires
                off == n * width,
                off <= len,
                len - off < width,
                width > 0,
        ;
        assert(r@ =~= le_words(bytes@, width as nat));
    }
    r
}

/// The EVT2 words that a run of raw 32-bit values holds.
pub open spec fn as_evt2(ws: Seq<u64>) -> Seq<Evt2> {
    Seq::new(ws.len(), |i: int| Evt2 { data: ws[i] as u32 })
}

/// The EVT2.1 words that a run of raw 64-bit values holds.
pub open spec fn as_evt21(ws: Seq<u64>) -> Seq<Evt21> {
    Seq::new(ws.len(), |i: int| Evt21 { data: ws[i] })
}

/// The EVT3 words that a run of raw 16-bit values holds.
pub open spec fn as_evt3(ws: Seq<u64>) -> Seq<Evt3> {
    Seq::new(ws.len(), |i: int| Evt3 { data: ws[i] as u16 })
}

proof fn lemma_run_evt2(d: Evt2State, ws: Seq<u64>)
    ensures
        DecoderState::Evt2(d).run(ws) == (DecoderState::Evt2(d.run(as_evt2(ws)).0), d.run(
            as_evt2(ws),
        ).1),
    decreases ws.len(),
{
    if ws.len() > 0 {
        lemma_run_evt2(d, ws.drop_last());
        assert(as_evt2(ws.drop_last()) =~= as_evt2(ws).drop_last());
    }
}

proof fn lemma_run_evt21(d: Evt21State, ws: Seq<u64>)
    ensures
        DecoderState::Evt21(d).run(ws) == (DecoderState::Evt21(d.run(as_evt21(ws)).0), d.run(
            as_evt21(ws),
        ).1),
    decreases ws.len(),
{
    if ws.len() > 0 {
        lemma_run_evt21(d, ws.drop_last());
        assert(as_evt21(ws.drop_last()) =~= as_evt21(ws).drop_last());
    }
}

proof fn lemma_run_evt3(d: Evt3State, ws: Seq<u64>)
    ensures
        DecoderState::Evt3(d).run(ws) == (DecoderState::Evt3(d.run(as_evt3(ws)).0), d.run(
            as_evt3(ws),
        ).1),
    decreases ws.len(),
{
    if ws.len() > 0 {
        lemma_run_evt3(d, ws.drop_last());
        assert(as_evt3(ws.drop_last()) =~= as_evt3(ws).drop_last());
    }
}

/// A decoder for one of the supported formats.
pub enum DynamicDecoder {
    Evt2(Evt2Decoder),
    Evt21(Evt21Decoder),
    Evt3(Evt3Decoder),
}

/// The state of a decoder for one of the supported formats.
pub enum DecoderState {
    Evt2(Evt2State),
    Evt21(Evt21State),
    Evt3(Evt3State),
}

impl View for DynamicDecoder {
    type V = DecoderState;

    open spec fn view(&self) -> DecoderState {
        match self {
            DynamicDecoder::Evt2(d) => DecoderState::Evt2(d@),
            DynamicDecoder::Evt21(d) => DecoderState::Evt21(d@),
            DynamicDecoder::Evt3(d) => DecoderState::Evt3(d@),
        }
    }
}

impl DecoderState {
    /// The number of bytes in one raw word of the format.
    pub open spec fn word_size(self) -> nat {
        match self {
            DecoderState::Evt2(_) => 4,
            DecoderState::Evt21(_) => 8,
            DecoderState::Evt3(_) => 2,
        }
    }

    pub open spec fn wf(self) -> bool {
        match self {
            DecoderState::Evt3(d) => d.wf(),
            _ => true,
        }
    }

    /// The state after one raw word, and the events that word emits.
    pub open spec fn step(self, w: u64) -> (DecoderState, Seq<Event>) {
        match self {
            DecoderState::Evt2(d) => {
                let (d2, evs) = d.step(Evt2 { data: w as u32 });
                (DecoderState::Evt2(d2), evs)
            },
            DecoderState::Evt21(d) => {
                let (d2, evs) = d.step(Evt21 { data: w });
                (DecoderState::Evt21(d2), evs)
            },
            DecoderState::Evt3(d) => {
                let (d2, evs) = d.step(Evt3 { data: w as u16 });
                (DecoderState::Evt3(d2), evs)
            },
        }
    }

    /// The state after a run of raw words, and the events the run emits, in order.
    pub open spec fn run(self, ws: Seq<u64>) -> (DecoderState, Seq<Event>)
        decreases ws.len(),
    {
        if ws.len() == 0 {
            (self, seq![])
        } else {
            let (d, evs) = self.run(ws.drop_last());
            let (d2, evs2) = d.step(ws.last());
            (d2, evs + evs2)
        }
    }

}

impl DynamicDecoder {
    /// A fresh decoder for `format`; EVT4 has none.
    pub fn for_format(format: RawEventType) -> (r: Result<DynamicDecoder, RawFileReaderError>)
        ensures
            format == RawEventType::Evt2 ==> (r matches Ok(d) && d@ == DecoderState::Evt2(
                Evt2State { time_base: None },
            )),
            format == RawEventType::Evt21 ==> (r matches Ok(d) && d@ == DecoderState::Evt21(
                Evt21State { time_base: None },
            )),
            format == RawEventType::Evt3 ==> (r matches Ok(d) && d@ == DecoderState::Evt3(
                Evt3State::initial(),
            )),
            format == RawEventType::Evt4 ==> (r matches Err(RawFileReaderError::DecoderNotImplemented(f)) && f == format),
            r is Ok ==> r->Ok_0@.wf(),
    {
        match format {
            RawEventType::Evt2 => Ok(DynamicDecoder::Evt2(Evt2Decoder::new())),
            RawEventType::Evt21 => Ok(DynamicDecoder::Evt21(Evt21Decoder::new())),
            RawEventType::Evt3 => Ok(DynamicDecoder::Evt3(Evt3Decoder::new())),
            RawEventType::Evt4 => Err(RawFileReaderError::DecoderNotImplemented(format)),
        }
    }

    /// The number of bytes in one raw word of the format.
    pub fn word_size_bytes(&self) -> (r: usize)
        ensures
            r as nat == self@.word_size(),
    {
        match self {
            DynamicDecoder::Evt2(_) => 4,
            DynamicDecoder::Evt21(_) => 8,
            DynamicDecoder::Evt3(_) => 2,
        }
    }

    /// Decodes the whole little-endian words at the front of `bytes`,
    /// appending the events they emit; a trailing partial word is ignored.
    pub fn decode_bytes(&mut self, bytes: &[u8], event_queue: &mut VecDeque<Event>)
        requires
            old(self)@.wf(),
        ensures
            final(self)@.wf(),
            final(self)@ == old(self)@.run(le_words(bytes@, old(self)@.word_size())).0,
            final(event_queue)@ == old(event_queue)@ + old(self)@.run(
                le_words(bytes@, old(self)@.word_size()),
            ).1,
    {
        let words = read_words(bytes, self.word_size_bytes());
        match self {
            DynamicDecoder::Evt2(d) => {
                let mut raw: Vec<Evt2> = Vec::new();
                let mut i: usize = 0;
                while i < words.len()
                    invariant
                        i <= words@.len(),
                        raw@ =~= as_evt2(words@).take(i as int),
                    decreases words@.len() - i,
                {
                    raw.push(Evt2 { data: words[i] as u32 });
                    i = i + 1;
                }
                proof {
                    assert(raw@ =~= as_evt2(words@));
                    lemma_run_evt2(d@, words@);
                }
                d.decode(raw.as_slice(), event_queue);
            },
            DynamicDecoder::Evt21(d) => {
                let mut raw: Vec<Evt21> = Vec::new();
                let mut i: usize = 0;
                while i < words.len()
                    invariant
                        i <= words@.len(),
                        raw@ =~= as_evt21(words@).take(i as int),
                    decreases words@.len() - i,
                {
                    raw.push(Evt21 { data: words[i] });
                    i = i + 1;
                }
                proof {
                    assert(raw@ =~= as_evt21(words@));
                    lemma_run_evt21(d@, words@);
                }
                d.decode(raw.as_slice(), event_queue);
            },
            DynamicDecoder::Evt3(d) => {
                let mut raw: Vec<Evt3> = Vec::new();
                let mut i: usize = 0;
                while i < words.len()
                    invariant
                        i <= words@.len(),
                        raw@ =~= as_evt3(words@).take(i as int),
                    decreases words@.len() - i,
                {
                    raw.push(Evt3 { data: words[i] as u16 });
                    i = i + 1;
                }
                proof {
                    assert(raw@ =~= as_evt3(words@));
                    lemma_run_evt3(d@, words@);
                }
                d.decode(raw.as_slice(), event_queue);
            },
        }
    }
}

/// The number of bytes gathered before they are decoded; a multiple of every
/// word size.
pub const READ_BUFFER_SIZE: usize = 512;

/// The framing state of a stream: the decoder, the bytes gathered since the
/// last decode, and the events decoded but not yet handed out.
///
/// The reading itself happens outside: the caller offers at most `space()`
/// bytes at a time to `push_bytes` (an empty offer meaning the end of the
/// stream), and takes events with `pop_event`.
pub struct EvtReader {
    decoder: DynamicDecoder,
    buffer: Vec<u8>,
    event_queue: VecDeque<Event>,
}

impl EvtReader {
    pub closed spec fn spec_decoder(self) -> DecoderState {
        self.decoder@
    }

    pub closed spec fn spec_buffer(self) -> Seq<u8> {
        self.buffer@
    }

    pub closed spec fn spec_queue(self) -> Seq<Event> {
        self.event_queue@
    }

    pub open spec fn wf(self) -> bool {
        &&& self.spec_decoder().wf()
        &&& self.spec_buffer().len() < READ_BUFFER_SIZE
    }

    pub fn new(decoder: DynamicDecoder) -> (r: Self)
        requires
            decoder@.wf(),
        ensures
            r.wf(),
            r.spec_decoder() == decoder@,
            r.spec_buffer() == Seq::<u8>::empty(),
            r.spec_queue() == Seq::<Event>::empty(),
    {
        EvtReader { decoder, buffer: Vec::new(), event_queue: VecDeque::new() }
    }

    /// How many bytes the next offer may hold.
    pub fn space(&self) -> (r: usize)
        requires
            self.wf(),
        ensures
            r == READ_BUFFER_SIZE - self.spec_buffer().len(),
    {
        READ_BUFFER_SIZE - self.buffer.len()
    }

    /// Hands out the oldest decoded event, if any.
    pub fn pop_event(&mut self) -> (r: Option<Event>)
        ensures
            final(self).spec_decoder() == old(self).spec_decoder(),
            final(self).spec_buffer() == old(self).spec_buffer(),
            old(self).spec_queue().len() == 0 ==> r is None && final(self).spec_queue()
                == old(self).spec_queue(),
            old(self).spec_queue().len() > 0 ==> r == Some(old(self).spec_queue()[0])
                && final(self).spec_queue() == old(self).spec_queue().drop_first(),
    {
        self.event_queue.pop_front()
    }

    /// Takes the bytes of one read. Returns `true`, changing nothing, when the
    /// offer is empty and no bytes are pending: the stream is exhausted.
    /// Otherwise the bytes are gathered; once the buffer is full, or on an
    /// empty offer (the end of the stream), the whole words gathered are
    /// decoded, their events queued, and the buffer emptied, a trailing
    /// partial word being dropped.
    pub fn push_bytes(&mut self, bytes: &[u8]) -> (exhausted: bool)
        requires
            old(self).wf(),
            bytes@.len() <= READ_BUFFER_SIZE - old(self).spec_buffer().len(),
        ensures
            final(self).wf(),
            exhausted == (bytes@.len() == 0 && old(self).spec_buffer().len() == 0),
            exhausted ==> *final(self) == *old(self),
            ({
                let all = old(self).spec_buffer() + bytes@;
                let decoded = old(self).spec_decoder().run(
                    le_words(all, old(self).spec_decoder().word_size()),
                );
                !exhausted ==> if bytes@.len() > 0 && all.len() < READ_BUFFER_SIZE {
                    &&& final(self).spec_buffer() == all
                    &&& final(self).spec_decoder() == old(self).spec_decoder()
                    &&& final(self).spec_queue() == old(self).spec_queue()
                } else {
                    &&& final(self).spec_buffer() == Seq::<u8>::empty()
                    &&& final(self).spec_decoder() == decoded.0
                    &&& final(self).spec_queue() == old(self).spec_queue() + decoded.1
                }
            }),
    {
        if bytes.len() == 0 && self.buffer.len() == 0 {
            return true;
        }
        let ghost buffer0 = self.buffer@;
        let ghost decoder0 = self.decoder;
        let ghost queue0 = self.event_queue@;
        let mut i: usize = 0;
        while i < bytes.len()
            invariant
                i <= bytes@.len(),
                self.decoder == decoder0,
                decoder0@.wf(),
                self.event_queue@ == queue0,
                buffer0.len() + bytes@.len() <= READ_BUFFER_SIZE,
                self.buffer@ =~= buffer0 + bytes@.take(i as int),
            decreases bytes@.len() - i,
        {
            self.buffer.push(bytes[i]);
            i = i + 1;
        }
        proof {
            assert(bytes@.take(i as int) =~= bytes@);
        }
        if bytes.len() > 0 && self.buffer.len() != READ_BUFFER_SIZE {
            return false;
        }
        self.decoder.decode_bytes(self.buffer.as_slice(), &mut self.event_queue);
        self.buffer.clear();
        false
    }
}

impl DecoderState {
    /// The timestamp that the events of raw word `w` carry when it is decoded
    /// in this state; `None` for a word that emits no timed event.
    pub open spec fn stamp(self, w: u64) -> Option<u64> {
        match self {
            DecoderState::Evt2(d) => d.stamp(Evt2 { data: w as u32 }),
            DecoderState::Evt21(d) => d.stamp(Evt21 { data: w }),
            DecoderState::Evt3(d) => d.stamp(Evt3 { data: w as u16 }),
        }
    }

    proof fn lemma_step_stamp(self, w: u64)
        ensures
            forall|k: int|
                0 <= k < self.step(w).1.len() && (#[trigger] self.step(w).1[k]).spec_timestamp() is Some
                    ==> self.stamp(w) == self.step(w).1[k].spec_timestamp(),
    {
        match self {
            DecoderState::Evt2(d) => d.lemma_step_stamp(Evt2 { data: w as u32 }),
            DecoderState::Evt21(d) => d.lemma_step_stamp(Evt21 { data: w }),
            DecoderState::Evt3(d) => d.lemma_step_stamp(Evt3 { data: w as u16 }),
        }
    }
}

/// The stamp of the `i`-th word of `ws`, decoded after the words before it.
pub open spec fn stamp_at(d: DecoderState, ws: Seq<u64>, i: int) -> Option<u64> {
    d.run(ws.take(i)).0.stamp(ws[i])
}

/// The words carry their timestamps in order: of two words that emit timed
/// events, the later one's timestamp is not the smaller.
pub open spec fn stamps_in_order(d: DecoderState, ws: Seq<u64>) -> bool {
    forall|i: int, j: int|
        0 <= i < j < ws.len() && (#[trigger] stamp_at(d, ws, i)) is Some && (#[trigger] stamp_at(
            d,
            ws,
            j,
        )) is Some ==> stamp_at(d, ws, i)->0 <= stamp_at(d, ws, j)->0
}

proof fn lemma_stamp_at_prefix(d: DecoderState, ws: Seq<u64>)
    requires
        ws.len() > 0,
    ensures
        forall|i: int|
            0 <= i < ws.len() - 1 ==> #[trigger] stamp_at(d, ws.drop_last(), i) == stamp_at(
                d,
                ws,
                i,
            ),
        ws.take(ws.len() - 1) == ws.drop_last(),
{
    assert forall|i: int| 0 <= i < ws.len() - 1 implies #[trigger] stamp_at(d, ws.drop_last(), i)
        == stamp_at(d, ws, i) by {
        assert(ws.drop_last().take(i) =~= ws.take(i));
    }
    assert(ws.take(ws.len() - 1) =~= ws.drop_last());
}

/// When no word's stamp exceeds `b`, no emitted timestamp does.
proof fn lemma_run_bounded(d: DecoderState, ws: Seq<u64>, b: u64)
    requires
        forall|i: int|
            0 <= i < ws.len() && (#[trigger] stamp_at(d, ws, i)) is Some ==> stamp_at(d, ws, i)->0
                <= b,
    ensures
        forall|k: int|
            0 <= k < d.run(ws).1.len() && (#[trigger] d.run(ws).1[k]).spec_timestamp() is Some
                ==> d.run(ws).1[k].spec_timestamp()->0 <= b,
    decreases ws.len(),
{
    if ws.len() > 0 {
        let p = ws.drop_last();
        lemma_stamp_at_prefix(d, ws);
        lemma_run_bounded(d, p, b);
        let dp = d.run(p).0;
        dp.lemma_step_stamp(ws.last());
        assert(stamp_at(d, ws, ws.len() - 1) == dp.stamp(ws.last()));
        let ep = d.run(p).1;
        let el = dp.step(ws.last()).1;
        assert forall|k: int|
            0 <= k < d.run(ws).1.len() && (#[trigger] d.run(ws).1[k]).spec_timestamp()
                is Some implies d.run(ws).1[k].spec_timestamp()->0 <= b by {
            if k < ep.len() {
                assert(d.run(ws).1[k] == ep[k]);
            } else {
                assert(d.run(ws).1[k] == el[k - ep.len()]);
            }
        }
    }
}

/// Time never runs backwards: when the words of a stream carry their
/// timestamps in order, the timestamps of the emitted events never decrease.
pub proof fn lemma_monotonic_time(d: DecoderState, ws: Seq<u64>)
    requires
        stamps_in_order(d, ws),
    ensures
        timestamps_nondecreasing(d.run(ws).1),
    decreases ws.len(),
{
    if ws.len() > 0 {
        let n = ws.len();
        let p = ws.drop_last();
        lemma_stamp_at_prefix(d, ws);
        assert(stamps_in_order(d, p));
        lemma_monotonic_time(d, p);
        let dp = d.run(p).0;
        dp.lemma_step_stamp(ws.last());
        let s = stamp_at(d, ws, n - 1);
        assert(s == dp.stamp(ws.last()));
        let ep = d.run(p).1;
        let el = dp.step(ws.last()).1;
        let e = d.run(ws).1;
        assert(e == ep + el);
        if s is Some {
            assert forall|i: int|
                0 <= i < p.len() && (#[trigger] stamp_at(d, p, i)) is Some implies stamp_at(
                d,
                p,
                i,
            )->0 <= s->0 by {
                assert(stamp_at(d, ws, i) == stamp_at(d, p, i));
            }
            lemma_run_bounded(d, p, s->0);
        }
        assert forall|i: int, j: int|
            0 <= i < j < e.len() && (#[trigger] e[i].spec_timestamp()) is Some && (
            #[trigger] e[j].spec_timestamp()) is Some implies e[i].spec_timestamp()->0
            <= e[j].spec_timestamp()->0 by {
            if j < ep.len() {
                assert(e[i] == ep[i] && e[j] == ep[j]);
            } else if i < ep.len() {
                assert(e[i] == ep[i] && e[j] == el[j - ep.len()]);
            } else {
                assert(e[i] == el[i - ep.len()] && e[j] == el[j - ep.len()]);
            }
        }
    }
}

/// No EVT2 trigger word in `ws` holds a value wider than one bit.
pub open spec fn no_wide_triggers(d: DecoderState, ws: Seq<u64>) -> bool {
    d is Evt2 ==> forall|i: int| 0 <= i < ws.len() ==> !(Evt2 { data: #[trigger] ws[i] as u32 }).is_wide_trigger()
}

/// Polarities are binary: every emitted event that has a polarity has
/// polarity 0 or 1, given no EVT2 trigger word with a wider value field.
pub proof fn lemma_binary_polarities(d: DecoderState, ws: Seq<u64>)
    requires
        d.wf(),
        no_wide_triggers(d, ws),
    ensures
        d.run(ws).0.wf(),
        (d is Evt2) == (d.run(ws).0 is Evt2),
        polarities_binary(d.run(ws).1),
    decreases ws.len(),
{
    if ws.len() > 0 {
        let p = ws.drop_last();
        assert(no_wide_triggers(d, p)) by {
            if d is Evt2 {
                assert forall|i: int| 0 <= i < p.len() implies !(Evt2 { data: #[trigger] p[i] as u32 }).is_wide_trigger() by {
                    assert(p[i] == ws[i]);
                }
            }
        }
        lemma_binary_polarities(d, p);
        let dp = d.run(p).0;
        let w = ws.last();
        match dp {
            DecoderState::Evt2(x) => {
                assert(Evt2 { data: ws[ws.len() - 1] as u32 } == Evt2 { data: w as u32 });
                x.lemma_step_polarity(Evt2 { data: w as u32 });
            },
            DecoderState::Evt21(x) => x.lemma_step_polarity(Evt21 { data: w }),
            DecoderState::Evt3(x) => x.lemma_step_wf(Evt3 { data: w as u16 }),
        }
        let ep = d.run(p).1;
        let el = dp.step(w).1;
        let e = d.run(ws).1;
        assert forall|i: int| 0 <= i < e.len() && (#[trigger] e[i].spec_polarity()) is Some implies e[i].spec_polarity()->0 <= 1 by {
            if i < ep.len() {
                assert(e[i] == ep[i]);
            } else {
                assert(e[i] == el[i - ep.len()]);
            }
        }
    }
}

} // verus!
