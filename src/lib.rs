//! Decoding of event-camera RAW streams (EVT2, EVT2.1 and EVT3) into logical events.
//!
//! Each format has a raw word type with its bit-field accessors and a decoder
//! whose state carries the time base from word to word. `EvtReader` frames a
//! byte stream into words for a `DynamicDecoder`; `parse_header` reads the
//! format out of the textual header; `slice_events` groups decoded events.
pub mod bits;
pub mod error;
pub mod event;
pub mod evt2;
pub mod evt2_1;
pub mod evt3;
pub mod header;
pub mod reader;
pub mod slice;

pub use error::RawFileReaderError;
pub use event::Event;
pub use evt2::{Evt2, Evt2Decoder, Evt2State};
pub use evt2_1::{Evt21, Evt21Decoder, Evt21State};
pub use evt3::{Evt3, Evt3Decoder, Evt3State};
pub use header::{parse_header, CameraGeometry, Endianness, RawEventType, RawFileHeader};
pub use reader::{DecoderState, DynamicDecoder, EvtReader, READ_BUFFER_SIZE};
pub use slice::{slice_events, SliceBy};
