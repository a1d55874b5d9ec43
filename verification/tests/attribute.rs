use dicom_stream::attribute::Attribute;
use dicom_stream::tag::Tag;

#[test]
fn ele_16_len() {
    let bytes = vec![8, 0, 8, 0, 0x43, 0x53, 0x16, 0x00];
    let attr = Attribute::ele(&bytes);
    assert_eq!(attr.tag, Tag::new(8, 8));
    assert_eq!(attr.vr[0], b'C');
    assert_eq!(attr.vr[1], b'S');
    assert_eq!(attr.length, 22);
}

#[test]
fn ele_32_len() {
    let bytes = vec![2, 0, 1, 0, 0x4F, 0x42, 0, 0, 2, 0, 0, 0];
    let attr = Attribute::ele(&bytes);
    assert_eq!(attr.tag, Tag::new(2, 1));
    assert_eq!(attr.vr[0], b'O');
    assert_eq!(attr.vr[1], b'B');
    assert_eq!(attr.length, 2);
}

#[test]
fn ile() {
    let bytes = vec![8, 0, 8, 0, 0x16, 0, 0, 0];
    let attr = Attribute::ile(&bytes);
    assert_eq!(attr.tag, Tag::new(8, 8));
    assert_eq!(attr.length, 22);
}

#[test]
fn ele_payload_offsets() {
    let short = Attribute::ele(&[8, 0, 8, 0, 0x43, 0x53, 0x16, 0x00]);
    assert_eq!(short.data_position, 8);
    let long = Attribute::ele(&[2, 0, 1, 0, 0x4F, 0x42, 0, 0, 2, 0, 0, 0]);
    assert_eq!(long.data_position, 12);
}

#[test]
fn ile_vr_is_unknown() {
    let attr = Attribute::ile(&[8, 0, 8, 0, 0x16, 0, 0, 0]);
    assert_eq!(attr.vr, [b'U', b'N']);
    assert_eq!(attr.data_position, 8);
}

#[test]
fn unknown_vr_code_takes_short_length_branch() {
    // An unrecognized code is decoded via the 16-bit length branch, by policy.
    let bytes = vec![8, 0, 8, 0, b'Z', b'Z', 0x2A, 0x00];
    let attr = Attribute::ele(&bytes);
    assert_eq!(attr.vr, [b'Z', b'Z']);
    assert_eq!(attr.length, 42);
    assert_eq!(attr.data_position, 8);
}

#[test]
fn ele_little_endian_lengths() {
    // 16-bit length 0x0201 and 32-bit length 0x04030201, little-endian.
    let short = Attribute::ele(&[1, 0, 2, 0, 0x43, 0x53, 0x01, 0x02]);
    assert_eq!(short.length, 0x0201);
    let long = Attribute::ele(&[1, 0, 2, 0, 0x4F, 0x57, 0, 0, 0x01, 0x02, 0x03, 0x04]);
    assert_eq!(long.length, 0x04030201);
}

#[test]
fn tag_ordering() {
    let a = Tag::new(2, 5);
    let b = Tag::new(3, 0);
    let c = Tag::new(3, 1);
    assert!(a.precedes(&b));
    assert!(b.precedes(&c));
    assert!(!c.precedes(&b));
    assert!(!a.precedes(&a));
}
