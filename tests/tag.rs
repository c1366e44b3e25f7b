use ber::tag::{Number, Payload, Tag, Type};
use ber::util::TrackedRead;

fn decode(bytes: Vec<u8>) -> Tag {
    Tag::read(&mut TrackedRead::new(bytes)).unwrap()
}

#[test]
fn test_ber_read_1() {
    let payload = vec![0x30, 0x80, 0x0C, 0x03, 0x64, 0x65, 0x66, 0x00, 0x00];
    let tag = decode(payload);

    println!("{:?}", tag);

    assert!(
        tag == Tag {
            number: Number::Universal(Type::Sequence),
            offset: Some(0),
            payload: Payload::Constructed(vec![Tag {
                number: Number::Universal(Type::Utf8String),
                offset: Some(2),
                payload: Payload::Primitive(vec![0x64, 0x65, 0x66]),
            }]),
        }
    );
}

#[test]
fn test_ber_write_1() {
    let payload = vec![0x30, 0x80, 0x0C, 0x03, 0x64, 0x65, 0x66, 0x00, 0x00];
    let tag = decode(payload.clone());

    let mut buf = Vec::<u8>::new();
    tag.write(&mut buf);
    assert!(buf == payload);
}

#[test]
fn test_ber_read_long_length() {
    let payload = vec![0x30, 0x80, 0x0C, 0x82, 0x00, 0x03, 0x64, 0x65, 0x66, 0x00, 0x00];
    let tag = decode(payload);

    println!("{:?}", tag);

    assert!(
        tag == Tag {
            number: Number::Universal(Type::Sequence),
            offset: Some(0),
            payload: Payload::Constructed(vec![Tag {
                number: Number::Universal(Type::Utf8String),
                offset: Some(2),
                payload: Payload::Primitive(vec![0x64, 0x65, 0x66]),
            }]),
        }
    );
}

#[test]
fn test_ber_write_long_length() {
    let payload = vec![0x30, 0x80, 0x0C, 0x03, 0x64, 0x65, 0x66, 0x00, 0x00];
    let tag = decode(payload.clone());

    let mut buf = Vec::<u8>::new();
    tag.write(&mut buf);
    assert!(buf == payload);
}

#[test]
fn test_ber_read_extended_number() {
    let payload = vec![0x30, 0x80, 0x9F, 0x7F, 0x81, 0x03, 0x64, 0x65, 0x66, 0x00, 0x00];
    let tag = decode(payload);

    println!("{:?}", tag);

    assert!(
        tag == Tag {
            number: Number::Universal(Type::Sequence),
            offset: Some(0),
            payload: Payload::Constructed(vec![Tag {
                number: Number::ContextSpecific(0x7F),
                offset: Some(2),
                payload: Payload::Primitive(vec![0x64, 0x65, 0x66]),
            }]),
        }
    );
}

#[test]
fn test_ber_write_extended_number() {
    let payload = vec![0x30, 0x80, 0x9F, 0x7F, 0x03, 0x64, 0x65, 0x66, 0x00, 0x00];
    let tag = decode(payload.clone());

    let mut buf = Vec::<u8>::new();
    tag.write(&mut buf);
    assert!(buf == payload);
}

#[test]
#[should_panic]
fn test_invalid_number() {
    let payload = vec![0x3F];
    let _tag = decode(payload.clone());
}
