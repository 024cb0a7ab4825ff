use libreeb::bits::extract;
use libreeb::{Event, Evt2, Evt21, Evt21Decoder, Evt2Decoder, Evt3, Evt3Decoder};
use std::collections::VecDeque;

fn decode3(words: &[u16]) -> Vec<Event> {
    let raw: Vec<Evt3> = words.iter().map(|w| Evt3 { data: *w }).collect();
    let mut decoder = Evt3Decoder::new();
    let mut queue = VecDeque::new();
    decoder.decode(&raw, &mut queue);
    queue.into_iter().collect()
}

fn decode21(words: &[u64]) -> Vec<Event> {
    let raw: Vec<Evt21> = words.iter().map(|w| Evt21 { data: *w }).collect();
    let mut decoder = Evt21Decoder::new();
    let mut queue = VecDeque::new();
    decoder.decode(&raw, &mut queue);
    queue.into_iter().collect()
}

fn decode2(words: &[u32]) -> Vec<Event> {
    let raw: Vec<Evt2> = words.iter().map(|w| Evt2 { data: *w }).collect();
    let mut decoder = Evt2Decoder::new();
    let mut queue = VecDeque::new();
    decoder.decode(&raw, &mut queue);
    queue.into_iter().collect()
}

fn evt21_cd(pos: bool, x: u64, y: u64, time_low: u64, mask: u64) -> u64 {
    let ty: u64 = if pos { 1 } else { 0 };
    (ty << 60) | (time_low << 54) | (x << 43) | (y << 32) | mask
}

fn evt21_time_high(h: u64) -> u64 {
    (0x8u64 << 60) | (h << 32)
}

#[test]
fn evt3_single_pixel() {
    let events = decode3(&[0x8001, 0x6010, 0x000A, 0x280F]);
    assert_eq!(events, vec![Event::CD { x: 15, y: 10, p: 1, t: 4112 }]);
}

#[test]
fn evt3_vector_12() {
    let events = decode3(&[0x8001, 0x6000, 0x0005, 0x3802, 0x4005]);
    assert_eq!(
        events,
        vec![Event::CD { x: 2, y: 5, p: 1, t: 4096 }, Event::CD { x: 4, y: 5, p: 1, t: 4096 }]
    );
}

#[test]
fn evt21_valid_mask() {
    let events = decode21(&[evt21_time_high(2), evt21_cd(true, 100, 50, 3, 0b1011)]);
    assert_eq!(
        events,
        vec![
            Event::CD { x: 100, y: 50, p: 1, t: 131 },
            Event::CD { x: 101, y: 50, p: 1, t: 131 },
            Event::CD { x: 103, y: 50, p: 1, t: 131 },
        ]
    );
}

#[test]
fn evt2_trigger_carries_time_base() {
    let events = decode2(&[0x8000_0005, 0xA000_0701]);
    assert_eq!(events, vec![Event::ExternalTrigger { id: 7, p: 1, t: 320 }]);
}

#[test]
fn evt3_counter_wrap_adds_one_loop() {
    let events = decode3(&[0x8FFF, 0x8000, 0x6001, 0x0000, 0x2000]);
    assert_eq!(events, vec![Event::CD { x: 0, y: 0, p: 0, t: 16_777_217 }]);
}

#[test]
fn evt3_drops_events_before_time_base() {
    let events = decode3(&[0x0003, 0x2804, 0x8001, 0x6010, 0x000A, 0x280F]);
    assert_eq!(events.len(), 1);
    assert_eq!(events[0], Event::CD { x: 15, y: 10, p: 1, t: 4112 });
}

#[test]
fn evt3_time_wrap_counts_one_loop() {
    let mut decoder = Evt3Decoder::new();
    let mut queue = VecDeque::new();
    decoder.decode(&[Evt3 { data: 0x8FFF }], &mut queue);
    assert_eq!(decoder.time_base(), Some(0xFFF000));
    assert_eq!(decoder.time_high_loop_nb(), 0);
    decoder.decode(&[Evt3 { data: 0x8000 }], &mut queue);
    assert_eq!(decoder.time_base(), Some(16_777_216));
    assert_eq!(decoder.time_high_loop_nb(), 1);
    assert_eq!(decoder.time(), 16_777_216);
    assert!(queue.is_empty());
}

#[test]
fn evt3_small_backward_step_is_not_a_wrap() {
    let mut decoder = Evt3Decoder::new();
    let mut queue = VecDeque::new();
    decoder.decode(&[Evt3 { data: 0x8100 }, Evt3 { data: 0x80F0 }], &mut queue);
    assert_eq!(decoder.time_base(), Some(0x0F0 << 12));
    assert_eq!(decoder.time_high_loop_nb(), 0);
}

#[test]
fn evt3_vector_continues_after_width() {
    // base x=2, pol=1; VECT_12 with all bits; VECT_8 with bits 0 and 1
    let events = decode3(&[0x8001, 0x0007, 0x3802, 0x4FFF, 0x5003]);
    let xs: Vec<u16> = events.iter().map(|e| e.x().unwrap()).collect();
    let expected: Vec<u16> = (2..14).chain(14..16).collect();
    assert_eq!(xs, expected);
    assert!(events.iter().all(|e| e.y() == Some(7) && e.polarity() == Some(1)));
    assert!(events.iter().all(|e| e.timestamp() == Some(4096)));
}

#[test]
fn evt3_vector_8_reads_eight_bits_only() {
    let events = decode3(&[0x8001, 0x0001, 0x3000, 0x5F80]);
    assert_eq!(events, vec![Event::CD { x: 7, y: 1, p: 0, t: 4096 }]);
}

#[test]
fn evt3_trigger_and_unknown() {
    let events = decode3(&[0xA301, 0x8002, 0x6005, 0xA301, 0x7000]);
    assert_eq!(
        events,
        vec![Event::ExternalTrigger { id: 3, p: 1, t: 8197 }, Event::Unknown()]
    );
}

#[test]
fn evt21_negative_mask_edges() {
    let events = decode21(&[evt21_time_high(1), evt21_cd(false, 10, 20, 0, 0x8000_0001)]);
    assert_eq!(
        events,
        vec![Event::CD { x: 10, y: 20, p: 0, t: 64 }, Event::CD { x: 41, y: 20, p: 0, t: 64 }]
    );
}

#[test]
fn evt21_drops_before_base_and_reports_unknown() {
    let trigger = (0xAu64 << 60) | (5u64 << 54) | (9u64 << 40) | (1u64 << 32);
    let events = decode21(&[evt21_cd(true, 1, 1, 0, 1), trigger, (0xEu64 << 60), evt21_time_high(3), trigger]);
    assert_eq!(
        events,
        vec![Event::Unknown(), Event::ExternalTrigger { id: 9, p: 1, t: (3 << 6) | 5 }]
    );
}

#[test]
fn evt2_cd_events_and_drop_before_base() {
    let cd_on = (0x1u32 << 28) | (7u32 << 22) | (300u32 << 11) | 200;
    let cd_off = (300u32 << 11) | 201;
    let events = decode2(&[cd_on, 0x8000_0002, cd_on, cd_off, 0xE000_0000]);
    assert_eq!(
        events,
        vec![
            Event::CD { x: 300, y: 200, p: 1, t: 128 | 7 },
            Event::CD { x: 300, y: 201, p: 0, t: 128 },
            Event::Unknown(),
        ]
    );
}

#[test]
fn evt2_trigger_value_field_is_kept_raw() {
    let events = decode2(&[0x8000_0001, 0xA000_0102]);
    assert_eq!(events, vec![Event::ExternalTrigger { id: 1, p: 2, t: 64 }]);
}

#[test]
fn timestamps_never_decrease_on_an_ordered_stream() {
    let events = decode3(&[
        0x8001, 0x6001, 0x0002, 0x2001, 0x6005, 0x3800, 0x4003, 0x8002, 0x6000, 0x2802, 0x8FFF,
        0x8000, 0x6010, 0x2003,
    ]);
    let ts: Vec<u64> = events.iter().filter_map(|e| e.timestamp()).collect();
    assert_eq!(ts.len(), 5);
    assert!(ts.windows(2).all(|w| w[0] <= w[1]));
    assert_eq!(*ts.last().unwrap(), 16_777_216 + 16);
}

#[test]
fn polarities_are_binary() {
    let events = decode3(&[0x8001, 0x2800, 0x2000, 0x3800, 0x4FFF, 0x3000, 0x5FFF, 0xA001, 0xA000]);
    assert!(!events.is_empty());
    assert!(events.iter().all(|e| matches!(e.polarity(), Some(0) | Some(1))));
}

#[test]
fn extract_reads_bit_ranges() {
    assert_eq!(extract(0xABCD, 4, 11), 0xBC);
    assert_eq!(extract(u64::MAX, 0, 63), u64::MAX);
    assert_eq!(extract(0x8000_0000_0000_0000, 63, 63), 1);
    assert_eq!(extract(0xF0F0, 0, 3), 0);
}

#[test]
fn word_accessors() {
    let w = Evt3 { data: 0xA5F1 };
    assert_eq!(w.event_type(), 0xA);
    assert_eq!(w.trigger_id(), 5);
    assert_eq!(w.trigger_polarity(), 1);
    let w = Evt2 { data: 0xA000_1F03 };
    assert_eq!(w.trigger_channel_id(), 0x1F);
    assert_eq!(w.trigger_value(), 3);
    let w = Evt21 { data: evt21_cd(true, 2047, 2046, 63, 0xFFFF_FFFF) };
    assert_eq!((w.x(), w.y(), w.timestamp(), w.valid_mask()), (2047, 2046, 63, 0xFFFF_FFFF));
}

#[test]
fn event_accessors() {
    let cd = Event::CD { x: 1, y: 2, p: 1, t: 9 };
    assert_eq!((cd.x(), cd.y(), cd.polarity(), cd.timestamp()), (Some(1), Some(2), Some(1), Some(9)));
    let tr = Event::ExternalTrigger { id: 4, p: 0, t: 11 };
    assert_eq!((tr.x(), tr.y(), tr.polarity(), tr.timestamp()), (None, None, Some(0), Some(11)));
    let un = Event::Unknown();
    assert_eq!((un.x(), un.y(), un.polarity(), un.timestamp()), (None, None, None, None));
}
