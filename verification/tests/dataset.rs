use dicom_stream::dataset::{Collector, Parser, Skipper, Stopper};
use dicom_stream::tag::Tag;

fn make_dataset() -> Vec<u8> {
    let mut bytes = vec![];
    bytes.extend_from_slice(&[0x02, 0x00, 0x00, 0x00, b'U', b'L', 4, 0, 0, 0, 0, 0]);
    bytes.extend_from_slice(&[0x02, 0x00, 0x01, 0x00, b'O', b'B', 0, 0, 2, 0, 0, 0, 0, 1]);
    bytes
}

#[test]
fn full_parse() {
    let callback = Collector::new();
    let mut parser = Parser::<Collector>::new(callback);
    let bytes = make_dataset();
    parser.parse(&bytes);
    assert_eq!(parser.callback.attributes.len(), 2);
    assert_eq!(parser.callback.attributes[0].tag, Tag::new(2, 0));
    assert_eq!(parser.callback.attributes[0].vr, [b'U', b'L']);
    assert_eq!(parser.callback.attributes[0].length, 4);
    assert_eq!(parser.callback.attributes[1].tag, Tag::new(2, 1));
    assert_eq!(parser.callback.attributes[1].vr, [b'O', b'B']);
    assert_eq!(parser.callback.attributes[1].length, 2);
    assert_eq!(parser.callback.data.len(), 2);
    assert_eq!(parser.callback.data[0].len(), 4);
    assert_eq!(parser.callback.data[0][0], 0);
    assert_eq!(parser.callback.data[0][1], 0);
    assert_eq!(parser.callback.data[0][2], 0);
    assert_eq!(parser.callback.data[0][3], 0);
    assert_eq!(parser.callback.data[1].len(), 2);
    assert_eq!(parser.callback.data[1][0], 0);
    assert_eq!(parser.callback.data[1][1], 1);
}

#[test]
fn streaming_parse() {
    let callback = Collector::new();
    let mut parser = Parser::<Collector>::new(callback);
    let bytes = make_dataset();
    parser.parse(&bytes[0..5]);
    parser.parse(&bytes[5..9]);
    parser.parse(&bytes[9..19]);
    parser.parse(&bytes[19..]);
    assert_eq!(parser.callback.attributes.len(), 2);
    assert_eq!(parser.callback.attributes[0].tag, Tag::new(2, 0));
    assert_eq!(parser.callback.attributes[0].vr, [b'U', b'L']);
    assert_eq!(parser.callback.attributes[0].length, 4);
    assert_eq!(parser.callback.attributes[1].tag, Tag::new(2, 1));
    assert_eq!(parser.callback.attributes[1].vr, [b'O', b'B']);
    assert_eq!(parser.callback.attributes[1].length, 2);
    assert_eq!(parser.callback.data.len(), 2);
    assert_eq!(parser.callback.data[0].len(), 4);
    assert_eq!(parser.callback.data[0][0], 0);
    assert_eq!(parser.callback.data[0][1], 0);
    assert_eq!(parser.callback.data[0][2], 0);
    assert_eq!(parser.callback.data[0][3], 0);
    assert_eq!(parser.callback.data[1].len(), 2);
    assert_eq!(parser.callback.data[1][0], 0);
    assert_eq!(parser.callback.data[1][1], 1);
}

#[test]
fn parse_stops() {
    let callback = Stopper::new();
    let mut parser = Parser::<Stopper>::new(callback);
    let bytes = make_dataset();
    parser.parse(&bytes);
    assert_eq!(parser.callback.element_count, 1);
    assert_eq!(parser.callback.data_count, 0);
}

#[test]
fn buffered_parse_stays_stopped() {
    // Once stopped, later bytes are buffered but never decoded.
    let callback = Stopper::new();
    let mut parser = Parser::<Stopper>::new(callback);
    let bytes = make_dataset();
    parser.parse(&bytes[0..12]);
    parser.parse(&bytes[12..]);
    assert_eq!(parser.callback.element_count, 1);
    assert_eq!(parser.callback.data_count, 0);
}

#[test]
fn buffered_skip_delivers_no_data() {
    let callback = Skipper::new();
    let mut parser = Parser::<Skipper>::new(callback);
    let bytes = make_dataset();
    parser.parse(&bytes);
    assert_eq!(parser.callback.attributes.len(), 2);
    assert_eq!(parser.callback.data_count, 0);
}

#[test]
fn buffered_parse_byte_by_byte() {
    let callback = Collector::new();
    let mut parser = Parser::<Collector>::new(callback);
    let bytes = make_dataset();
    for i in 0..bytes.len() {
        parser.parse(&bytes[i..i + 1]);
    }
    assert_eq!(parser.callback.attributes.len(), 2);
    assert_eq!(parser.callback.data.len(), 2);
    assert_eq!(parser.callback.data[0], vec![0, 0, 0, 0]);
    assert_eq!(parser.callback.data[1], vec![0, 1]);
}
