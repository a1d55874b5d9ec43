use dicom_stream::dataset::{Collector, Skipper, Stopper};
use dicom_stream::encoding::{ExplicitLittleEndian, ImplicitLittleEndian};
use dicom_stream::parser::data_set::{parse_full, DataSetParser};
use dicom_stream::parser::ParseState;
use dicom_stream::tag::Tag;

fn make_dataset() -> Vec<u8> {
    let mut bytes = vec![];
    bytes.extend_from_slice(&[0x02, 0x00, 0x00, 0x00, b'U', b'L', 4, 0, 0, 0, 0, 0]);
    bytes.extend_from_slice(&[0x02, 0x00, 0x01, 0x00, b'O', b'B', 0, 0, 2, 0, 0, 0, 0, 1]);
    bytes
}

/// An explicit-little-endian data set with short- and long-length headers
/// and a payload large enough to span many read windows.
fn make_large_dataset() -> Vec<u8> {
    let mut bytes = vec![];
    bytes.extend_from_slice(&[0x02, 0x00, 0x00, 0x00, b'U', b'L', 4, 0, 0x2C, 1, 0, 0]);
    bytes.extend_from_slice(&[0x08, 0x00, 0x08, 0x00, b'C', b'S', 6, 0]);
    bytes.extend_from_slice(b"ORIGIN");
    bytes.extend_from_slice(&[0xE0, 0x7F, 0x10, 0x00, b'O', b'B', 0, 0, 0x2C, 1, 0, 0]);
    for i in 0..300 {
        bytes.push((i % 251) as u8);
    }
    bytes
}

fn parse_ele_data_set(bytes: &[u8]) -> Result<(ParseState, usize), ()> {
    let mut handler = Collector::new();
    let mut parser = DataSetParser::<ExplicitLittleEndian>::default();
    let result = parser.parse(&mut handler, bytes).map_err(|_| ())?;
    Ok((result.state, result.bytes_consumed))
}

#[test]
fn parse_full_ok() {
    let bytes = make_large_dataset();
    let result = parse_ele_data_set(&bytes[..]);
    assert!(result.is_ok());
    assert_eq!(result.unwrap(), (ParseState::Completed, bytes.len()));
}

fn split_parse(bytes: &[u8], split_position: usize) -> Result<(), ()> {
    let mut handler = Collector::new();
    let mut parser = DataSetParser::<ExplicitLittleEndian>::default();
    let result = parser.parse(&mut handler, &bytes[0..split_position]).map_err(|_| ())?;
    let result2 = parser.parse(&mut handler, &bytes[result.bytes_consumed..]).map_err(|_| ())?;
    assert_eq!(result2.bytes_consumed, bytes.len() - result.bytes_consumed);
    Ok(())
}

#[test]
fn parse_partial_debug() {
    let bytes = make_large_dataset();
    let result = split_parse(&bytes, 13);
    assert!(result.is_ok());
}

#[test]
fn split_invariance_every_position() {
    let bytes = make_dataset();
    let mut oneshot = Collector::new();
    let whole = parse_full::<ExplicitLittleEndian, Collector>(&mut oneshot, &bytes).unwrap();
    assert_eq!(whole, (bytes.len(), false));
    let flat = |d: &Vec<Vec<u8>>| -> Vec<u8> { d.iter().flatten().cloned().collect() };
    for split in 0..=bytes.len() {
        let mut handler = Collector::new();
        let mut parser = DataSetParser::<ExplicitLittleEndian>::default();
        let r1 = parser.parse(&mut handler, &bytes[0..split]).unwrap();
        let r2 = parser.parse(&mut handler, &bytes[r1.bytes_consumed..]).unwrap();
        assert_eq!(r1.bytes_consumed + r2.bytes_consumed, bytes.len());
        assert_eq!(r2.state, ParseState::Completed);
        assert_eq!(handler.attributes.len(), oneshot.attributes.len());
        for (a, b) in handler.attributes.iter().zip(oneshot.attributes.iter()) {
            assert_eq!(a.tag, b.tag);
            assert_eq!(a.vr, b.vr);
            assert_eq!(a.length, b.length);
            assert_eq!(a.data_position, b.data_position);
        }
        assert_eq!(flat(&handler.data), flat(&oneshot.data));
    }
}

#[test]
fn two_attribute_end_to_end() {
    let bytes = make_dataset();
    let mut handler = Collector::new();
    let result = parse_full::<ExplicitLittleEndian, Collector>(&mut handler, &bytes).unwrap();
    assert_eq!(result, (26, false));
    assert_eq!(handler.attributes.len(), 2);
    assert_eq!(handler.data.len(), 2);
    assert_eq!(handler.data[0], vec![0, 0, 0, 0]);
    assert_eq!(handler.data[1], vec![0, 1]);
    assert_eq!(handler.attributes[0].data_position, 8);
    assert_eq!(handler.attributes[1].data_position, 24);
}

#[test]
fn cancellation_is_terminal() {
    let bytes = make_dataset();
    let mut handler = Stopper::new();
    let mut parser = DataSetParser::<ExplicitLittleEndian>::default();
    let first = parser.parse(&mut handler, &bytes).unwrap();
    assert_eq!(first.state, ParseState::Cancelled);
    assert_eq!(first.bytes_consumed, 8);
    let second = parser.parse(&mut handler, &bytes[first.bytes_consumed..]);
    assert!(second.is_err());
    let third = parser.parse(&mut handler, &[]);
    assert!(third.is_err());
    assert_eq!(handler.element_count, 1);
    assert_eq!(handler.data_count, 0);
}

#[test]
fn parse_full_reports_cancellation() {
    let bytes = make_dataset();
    let mut handler = Stopper::new();
    let result = parse_full::<ExplicitLittleEndian, Stopper>(&mut handler, &bytes).unwrap();
    assert_eq!(result, (8, true));
    assert_eq!(handler.element_count, 1);
}

#[test]
fn parse_full_rejects_truncated_input() {
    let bytes = make_dataset();
    let mut handler = Collector::new();
    let result = parse_full::<ExplicitLittleEndian, Collector>(&mut handler, &bytes[0..5]);
    assert!(result.is_err());
}

#[test]
fn streaming_skip_delivers_no_data() {
    let bytes = make_dataset();
    let mut handler = Skipper::new();
    let result = parse_full::<ExplicitLittleEndian, Skipper>(&mut handler, &bytes).unwrap();
    assert_eq!(result, (26, false));
    assert_eq!(handler.attributes.len(), 2);
    assert_eq!(handler.data_count, 0);
}

#[test]
fn implicit_encoding_stream() {
    let mut bytes = vec![8, 0, 8, 0, 4, 0, 0, 0];
    bytes.extend_from_slice(&[1, 2, 3, 4]);
    let mut handler = Collector::new();
    let result = parse_full::<ImplicitLittleEndian, Collector>(&mut handler, &bytes).unwrap();
    assert_eq!(result, (12, false));
    assert_eq!(handler.attributes.len(), 1);
    assert_eq!(handler.attributes[0].tag, Tag::new(8, 8));
    assert_eq!(handler.attributes[0].vr, [b'U', b'N']);
    assert_eq!(handler.attributes[0].length, 4);
    assert_eq!(handler.data.len(), 1);
    assert_eq!(handler.data[0], vec![1, 2, 3, 4]);
}

#[test]
fn zero_length_payload_has_no_data_callback() {
    let mut bytes = vec![8, 0, 8, 0, b'C', b'S', 0, 0];
    bytes.extend_from_slice(&[8, 0, 0x10, 0, b'C', b'S', 2, 0, b'H', b'I']);
    let mut handler = Collector::new();
    let result = parse_full::<ExplicitLittleEndian, Collector>(&mut handler, &bytes).unwrap();
    assert_eq!(result, (18, false));
    assert_eq!(handler.attributes.len(), 2);
    assert_eq!(handler.data.len(), 1);
    assert_eq!(handler.data[0], vec![b'H', b'I']);
}

#[test]
fn incomplete_header_consumes_nothing() {
    let bytes = make_dataset();
    let mut handler = Collector::new();
    let mut parser = DataSetParser::<ExplicitLittleEndian>::default();
    let result = parser.parse(&mut handler, &bytes[0..5]).unwrap();
    assert_eq!(result.state, ParseState::Incomplete);
    assert_eq!(result.bytes_consumed, 0);
    assert_eq!(handler.attributes.len(), 0);
}

#[test]
fn long_header_waits_for_twelve_bytes() {
    // 10 bytes of a long-length header: short guard passes, long guard must not.
    let bytes = vec![2, 0, 1, 0, b'O', b'B', 0, 0, 2, 0];
    let mut handler = Collector::new();
    let mut parser = DataSetParser::<ExplicitLittleEndian>::default();
    let result = parser.parse(&mut handler, &bytes).unwrap();
    assert_eq!(result.state, ParseState::Incomplete);
    assert_eq!(result.bytes_consumed, 0);
    assert_eq!(handler.attributes.len(), 0);
}

#[test]
fn large_payload_streams_in_fragments() {
    // Feed in 7-byte chunks, re-offering whatever a call leaves unconsumed.
    let bytes = make_large_dataset();
    let mut handler = Collector::new();
    let mut parser = DataSetParser::<ExplicitLittleEndian>::default();
    let mut pending: Vec<u8> = vec![];
    for chunk in bytes.chunks(7) {
        pending.extend_from_slice(chunk);
        let r = parser.parse(&mut handler, &pending).unwrap();
        pending.drain(0..r.bytes_consumed);
    }
    assert!(pending.is_empty());
    assert_eq!(handler.attributes.len(), 3);
    // Payloads may arrive in several fragments; their concatenation is the
    // payload bytes of the three attributes, in stream order.
    let delivered: Vec<u8> = handler.data.iter().flatten().cloned().collect();
    let mut expected: Vec<u8> = vec![0x2C, 1, 0, 0];
    expected.extend_from_slice(b"ORIGIN");
    for i in 0..300 {
        expected.push((i % 251) as u8);
    }
    assert_eq!(delivered, expected);
}
