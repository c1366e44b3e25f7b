use ber::err::{Error, Kind};
use ber::tag::{Number, Payload, Tag, Type};
use ber::util::TrackedRead;

fn decode_err(bytes: Vec<u8>) -> Error {
    match Tag::read(&mut TrackedRead::new(bytes)) {
        Ok(t) => panic!("decoded {:?}", t),
        Err(e) => e,
    }
}

fn encode(tag: &Tag) -> Vec<u8> {
    let mut buf = Vec::new();
    tag.write(&mut buf);
    buf
}

fn primitive(number: Number, len: usize) -> Tag {
    Tag { number: number, offset: None, payload: Payload::Primitive(vec![0xAB; len]) }
}

#[test]
fn definite_constructed_reencodes_indefinite() {
    let input = vec![0x30, 0x05, 0x0C, 0x03, 0x64, 0x65, 0x66];
    let tag = Tag::read(&mut TrackedRead::new(input.clone())).unwrap();
    let out = encode(&tag);
    assert_ne!(out, input);
    assert_eq!(out, vec![0x30, 0x80, 0x0C, 0x03, 0x64, 0x65, 0x66, 0x00, 0x00]);
}

#[test]
fn indefinite_round_trip_nested() {
    let input = vec![
        0x30, 0x80, 0x31, 0x80, 0x02, 0x01, 0x05, 0x00, 0x00, 0x84, 0x00, 0x00, 0x00,
    ];
    let tag = Tag::read(&mut TrackedRead::new(input.clone())).unwrap();
    assert_eq!(encode(&tag), input);
}

#[test]
fn cursor_position_after_read() {
    let mut r = TrackedRead::new(vec![0x30, 0x80, 0x0C, 0x03, 0x64, 0x65, 0x66, 0x00, 0x00, 0x99]);
    Tag::read(&mut r).unwrap();
    assert_eq!(r.tell(), 9);
}

#[test]
fn number_boundary_inline_and_extended() {
    assert_eq!(encode(&primitive(Number::ContextSpecific(30), 0)), vec![0x9E, 0x00]);
    assert_eq!(encode(&primitive(Number::ContextSpecific(31), 0)), vec![0x9F, 0x1F, 0x00]);
    assert_eq!(encode(&primitive(Number::Application(128), 0)), vec![0x5F, 0x80, 0x01, 0x00]);
    assert_eq!(encode(&primitive(Number::Private(0x7F), 0)), vec![0xDF, 0x7F, 0x00]);
}

#[test]
fn number_round_trip() {
    for n in [0i64, 30, 31, 127, 128, 300, 1 << 20, (1i64 << 56) - 1] {
        let tag = primitive(Number::Application(n), 1);
        let back = Tag::read(&mut TrackedRead::new(encode(&tag))).unwrap();
        assert_eq!(back.number, Number::Application(n));
    }
}

#[test]
fn length_boundary_short_and_long() {
    let t = primitive(Number::Universal(Type::OctetString), 0x1E);
    assert_eq!(encode(&t)[..2], [0x04, 0x1E]);
    let t = primitive(Number::Universal(Type::OctetString), 0x1F);
    assert_eq!(encode(&t)[..3], [0x04, 0x81, 0x1F]);
    let t = primitive(Number::Universal(Type::OctetString), 255);
    assert_eq!(encode(&t)[..3], [0x04, 0x81, 0xFF]);
    let t = primitive(Number::Universal(Type::OctetString), 256);
    assert_eq!(encode(&t)[..4], [0x04, 0x82, 0x01, 0x00]);
    assert_eq!(encode(&t).len(), 4 + 256);
}

#[test]
fn length_round_trip() {
    for len in [0usize, 0x1E, 0x1F, 0x7F, 0x80, 255, 256, 70000] {
        let t = primitive(Number::Universal(Type::OctetString), len);
        let back = Tag::read(&mut TrackedRead::new(encode(&t))).unwrap();
        assert_eq!(back.payload, Payload::Primitive(vec![0xAB; len]));
    }
}

#[test]
fn long_length_overflow() {
    let e = decode_err(vec![0x04, 0x89, 0, 0, 0, 0, 0, 0, 0, 0, 0]);
    assert_eq!(e.kind, Kind::NumberOverflow);
    assert_eq!(e.offset, 2);
}

#[test]
fn extended_number_overflow() {
    let e = decode_err(vec![0x9F, 0xFF, 0xFF, 0xFF, 0xFF, 0xFF, 0xFF, 0xFF, 0xFF, 0x01, 0x00]);
    assert_eq!(e.kind, Kind::NumberOverflow);
    assert_eq!(e.offset, 9);
}

#[test]
fn indefinite_primitive_rejected() {
    let e = decode_err(vec![0x04, 0x80, 0x00, 0x00]);
    assert_eq!(e.kind, Kind::InvalidLength);
    assert_eq!(e.offset, 2);
}

#[test]
fn universal_escape_rejected() {
    let e = decode_err(vec![0x1F, 0x01, 0x00]);
    assert_eq!(e.kind, Kind::InvalidTypeAndFlavor);
    assert_eq!(e.offset, 1);
}

#[test]
fn unknown_universal_type_rejected() {
    let e = decode_err(vec![0x0E, 0x00]);
    assert_eq!(e.kind, Kind::UnknownType);
    assert_eq!(e.offset, 1);
}

#[test]
fn truncated_input_is_io_error() {
    let e = decode_err(vec![0x04, 0x05, 0x01]);
    assert_eq!(e.kind, Kind::Io);
    assert_eq!(e.offset, 2);
    let e = decode_err(vec![]);
    assert_eq!(e.kind, Kind::Io);
    assert_eq!(e.offset, 0);
    let e = decode_err(vec![0x30, 0x80, 0x04, 0x00]);
    assert_eq!(e.kind, Kind::Io);
    assert_eq!(e.offset, 4);
}

#[test]
fn definite_constructed_stops_at_length() {
    let input = vec![0x30, 0x03, 0x01, 0x01, 0xFF, 0x05, 0x00];
    let tag = Tag::read(&mut TrackedRead::new(input)).unwrap();
    match tag.payload {
        Payload::Constructed(children) => {
            assert_eq!(children.len(), 1);
            assert_eq!(children[0].number, Number::Universal(Type::Boolean));
        },
        Payload::Primitive(_) => panic!("expected a constructed payload"),
    }
}

#[test]
fn eoc_kept_inside_definite_payload() {
    let input = vec![0x30, 0x02, 0x00, 0x00];
    let tag = Tag::read(&mut TrackedRead::new(input)).unwrap();
    assert_eq!(
        tag.payload,
        Payload::Constructed(vec![Tag {
            number: Number::Universal(Type::Eoc),
            offset: Some(2),
            payload: Payload::Primitive(vec![]),
        }])
    );
}

#[test]
fn read_exact_and_read_u8() {
    let mut r = TrackedRead::new(vec![1, 2, 3]);
    assert_eq!(r.read_u8().unwrap(), 1);
    assert_eq!(r.read_exact(2).unwrap(), vec![2, 3]);
    assert_eq!(r.tell(), 3);
    let e = r.read_exact(1).unwrap_err();
    assert_eq!(e.kind, Kind::Io);
    assert_eq!(e.offset, 3);
}

#[test]
fn type_codes() {
    assert_eq!(Type::Sequence.code(), 16);
    assert_eq!(Type::from_code(17), Some(Type::SetOf));
    assert_eq!(Type::from_code(14), None);
    assert_eq!(Type::from_code(31), None);
}

#[test]
fn error_wrap_and_description() {
    let inner = Error::new(Kind::Io, 4, None);
    let outer = inner.wrap(Kind::InvalidLength, 7);
    assert_eq!(outer.kind, Kind::InvalidLength);
    assert_eq!(outer.offset, 7);
    assert_eq!(outer.cause.as_ref().unwrap().offset, 4);
    assert_eq!(outer.description(), "Indefinite length is only allowed for constructed tags");
}

#[test]
fn nesting_depth_limit() {
    let mut ok = Vec::new();
    for _ in 0..63 {
        ok.extend_from_slice(&[0x30, 0x80]);
    }
    for _ in 0..63 {
        ok.extend_from_slice(&[0x00, 0x00]);
    }
    let tag = Tag::read(&mut TrackedRead::new(ok.clone())).unwrap();
    assert_eq!(encode(&tag), ok);

    let mut deep = Vec::new();
    for _ in 0..64 {
        deep.extend_from_slice(&[0x30, 0x80]);
    }
    for _ in 0..64 {
        deep.extend_from_slice(&[0x00, 0x00]);
    }
    let e = decode_err(deep);
    assert_eq!(e.kind, Kind::DepthExceeded);
    assert_eq!(e.offset, 128);
}
