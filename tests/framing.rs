use libreeb::{DynamicDecoder, Event, EvtReader, RawEventType, RawFileReaderError, READ_BUFFER_SIZE};

fn reader_for(format: RawEventType) -> EvtReader {
    EvtReader::new(DynamicDecoder::for_format(format).expect("format has a decoder"))
}

fn le16(words: &[u16]) -> Vec<u8> {
    words.iter().flat_map(|w| w.to_le_bytes()).collect()
}

/// Feeds `bytes` in reads of at most `chunk` bytes, then drains the reader.
fn run(reader: &mut EvtReader, bytes: &[u8], chunk: usize) -> Vec<Event> {
    let mut events = Vec::new();
    let mut pos = 0;
    loop {
        while let Some(e) = reader.pop_event() {
            events.push(e);
        }
        let n = chunk.min(reader.space()).min(bytes.len() - pos);
        let exhausted = reader.push_bytes(&bytes[pos..pos + n]);
        pos += n;
        if exhausted {
            break;
        }
    }
    events
}

#[test]
fn evt3_bytes_are_little_endian() {
    let mut reader = reader_for(RawEventType::Evt3);
    let events = run(&mut reader, &le16(&[0x8001, 0x6010, 0x000A, 0x280F]), 512);
    assert_eq!(events, vec![Event::CD { x: 15, y: 10, p: 1, t: 4112 }]);
}

#[test]
fn partial_reads_accumulate() {
    let bytes = le16(&[0x8001, 0x6010, 0x000A, 0x280F]);
    for chunk in 1..8 {
        let mut reader = reader_for(RawEventType::Evt3);
        let events = run(&mut reader, &bytes, chunk);
        assert_eq!(events, vec![Event::CD { x: 15, y: 10, p: 1, t: 4112 }]);
    }
}

#[test]
fn trailing_orphan_byte_is_dropped() {
    let mut bytes = le16(&[0x8001, 0x000A, 0x280F]);
    bytes.push(0x28);
    let mut reader = reader_for(RawEventType::Evt3);
    let events = run(&mut reader, &bytes, 512);
    assert_eq!(events, vec![Event::CD { x: 15, y: 10, p: 1, t: 4096 }]);
}

#[test]
fn full_buffer_decodes_before_end_of_stream() {
    let mut words = vec![0x8001u16];
    while words.len() < READ_BUFFER_SIZE / 2 {
        words.push(0x2000);
    }
    let mut reader = reader_for(RawEventType::Evt3);
    assert!(!reader.push_bytes(&le16(&words)));
    let mut count = 0;
    while reader.pop_event().is_some() {
        count += 1;
    }
    assert_eq!(count, READ_BUFFER_SIZE / 2 - 1);
    assert!(reader.push_bytes(&[]));
}

#[test]
fn empty_stream_is_exhausted_at_once() {
    let mut reader = reader_for(RawEventType::Evt21);
    assert_eq!(reader.space(), READ_BUFFER_SIZE);
    assert!(reader.push_bytes(&[]));
    assert!(reader.pop_event().is_none());
    assert!(reader.push_bytes(&[]));
}

#[test]
fn evt21_and_evt2_streams() {
    let mut bytes = Vec::new();
    bytes.extend_from_slice(&((0x8u64 << 60) | (2u64 << 32)).to_le_bytes());
    bytes.extend_from_slice(&((1u64 << 60) | (3u64 << 54) | (100u64 << 43) | (50u64 << 32) | 0b11).to_le_bytes());
    let mut reader = reader_for(RawEventType::Evt21);
    let events = run(&mut reader, &bytes, 5);
    assert_eq!(
        events,
        vec![Event::CD { x: 100, y: 50, p: 1, t: 131 }, Event::CD { x: 101, y: 50, p: 1, t: 131 }]
    );

    let mut bytes = Vec::new();
    bytes.extend_from_slice(&0x8000_0005u32.to_le_bytes());
    bytes.extend_from_slice(&0xA000_0701u32.to_le_bytes());
    let mut reader = reader_for(RawEventType::Evt2);
    let events = run(&mut reader, &bytes, 3);
    assert_eq!(events, vec![Event::ExternalTrigger { id: 7, p: 1, t: 320 }]);
}

#[test]
fn evt4_has_no_decoder() {
    match DynamicDecoder::for_format(RawEventType::Evt4) {
        Err(RawFileReaderError::DecoderNotImplemented(RawEventType::Evt4)) => {}
        _ => panic!("EVT4 must be reported as not implemented"),
    }
    assert!(matches!(DynamicDecoder::for_format(RawEventType::Evt3), Ok(DynamicDecoder::Evt3(_))));
    assert!(matches!(DynamicDecoder::for_format(RawEventType::Evt2), Ok(DynamicDecoder::Evt2(_))));
}
