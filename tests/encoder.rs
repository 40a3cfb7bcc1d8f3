use rosc::encoder::{encode, encode_string, pad, pad_bytes};
use rosc::osc_decoder::{decode, pad_four};
use rosc::types::{OscBundle, OscColor, OscError, OscMessage, OscMidiMessage, OscPacket, OscType};

fn message(addr: &str, args: Option<Vec<OscType>>) -> OscPacket {
    OscPacket::Message(OscMessage { addr: addr.to_string(), args })
}

#[test]
fn test_pad() {
    assert_eq!(4, pad(4));
    assert_eq!(8, pad(5));
    assert_eq!(8, pad(6));
    assert_eq!(8, pad(7));
}

#[test]
fn pad_examples_and_idempotence() {
    assert_eq!(0, pad(0));
    assert_eq!(4, pad(4));
    assert_eq!(8, pad(5));
    assert_eq!(12, pad(10));
    for n in 0u64..64 {
        let p = pad(n);
        assert_eq!(p % 4, 0);
        assert!(p >= n && p < n + 4);
        assert_eq!(pad(p), p);
        assert_eq!(pad_four(n), p);
    }
}

#[test]
fn pad_bytes_appends_zeros() {
    let mut v = vec![1u8, 2, 3, 4, 5];
    pad_bytes(&mut v);
    assert_eq!(v, vec![1, 2, 3, 4, 5, 0, 0, 0]);
    let mut w = vec![9u8; 4];
    pad_bytes(&mut w);
    assert_eq!(w, vec![9u8; 4]);
}

#[test]
fn encode_string_shapes() {
    assert_eq!(encode_string(""), vec![0, 0, 0, 0]);
    assert_eq!(encode_string("abc"), b"abc\0".to_vec());
    assert_eq!(encode_string("abcd"), b"abcd\0\0\0\0".to_vec());
    assert_eq!(encode_string("/ping"), b"/ping\0\0\0".to_vec());
    for s in ["", "a", "ab", "abc", "abcd", "héllo", "/greet/me"] {
        let e = encode_string(s);
        assert!(e.len() > 0 && e.len() % 4 == 0);
        assert_eq!(*e.last().unwrap(), 0);
    }
}

#[test]
fn greet_message_bytes() {
    let p = message("/greet/me", Some(vec![OscType::String("hi!".to_string())]));
    let bytes = encode(&p).unwrap();
    let mut expected = b"/greet/me\0\0\0".to_vec();
    expected.extend_from_slice(b",s\0\0");
    expected.extend_from_slice(b"hi!\0");
    assert_eq!(bytes.len(), 20);
    assert_eq!(bytes, expected);
    assert_eq!(decode(&bytes, bytes.len()).unwrap(), p);
}

#[test]
fn ping_message_bytes() {
    let p = message("/ping", None);
    let bytes = encode(&p).unwrap();
    let mut expected = b"/ping\0\0\0".to_vec();
    expected.extend_from_slice(b",\0\0\0");
    assert_eq!(bytes, expected);
    assert_eq!(bytes.len(), 12);
    assert_eq!(decode(&bytes, bytes.len()).unwrap(), p);
}

#[test]
fn scalar_payloads_are_big_endian() {
    let p = message(
        "/s",
        Some(vec![
            OscType::Int(-2),
            OscType::Long(0x0102030405060708),
            OscType::Float(1.5f32.to_bits()),
            OscType::Double(0.25f64.to_bits()),
            OscType::Char('A'),
            OscType::Time(1, 2),
            OscType::Midi(OscMidiMessage { port: 1, status: 2, data1: 3, data2: 4 }),
            OscType::Color(OscColor { red: 5, green: 6, blue: 7, alpha: 8 }),
            OscType::Bool(true),
            OscType::Bool(false),
            OscType::Nil,
            OscType::Inf,
        ]),
    );
    let bytes = encode(&p).unwrap();
    let mut expected = b"/s\0\0".to_vec();
    expected.extend_from_slice(b",ihfdctmrTFNI\0\0\0");
    expected.extend_from_slice(&[0xff, 0xff, 0xff, 0xfe]);
    expected.extend_from_slice(&[1, 2, 3, 4, 5, 6, 7, 8]);
    expected.extend_from_slice(&1.5f32.to_be_bytes());
    expected.extend_from_slice(&0.25f64.to_be_bytes());
    expected.extend_from_slice(&[0, 0, 0, 65]);
    expected.extend_from_slice(&[0, 0, 0, 1, 0, 0, 0, 2]);
    expected.extend_from_slice(&[1, 2, 3, 4, 5, 6, 7, 8]);
    assert_eq!(bytes, expected);
    assert_eq!(decode(&bytes, bytes.len()).unwrap(), p);
}

#[test]
fn blob_length_prefix_is_unpadded() {
    let p = message("/b", Some(vec![OscType::Blob(vec![1, 2, 3, 4, 5])]));
    let bytes = encode(&p).unwrap();
    let mut expected = b"/b\0\0,b\0\0".to_vec();
    expected.extend_from_slice(&[0, 0, 0, 5, 1, 2, 3, 4, 5, 0, 0, 0]);
    assert_eq!(bytes, expected);
    assert_eq!(decode(&bytes, bytes.len()).unwrap(), p);
}

#[test]
fn bundle_element_lengths() {
    let inner = message("/a", Some(vec![OscType::Int(7)]));
    let nested = OscPacket::Bundle(OscBundle { timetag: OscType::Time(3, 4), content: vec![] });
    let p = OscPacket::Bundle(OscBundle {
        timetag: OscType::Time(1, 2),
        content: vec![inner, nested],
    });
    let bytes = encode(&p).unwrap();
    let mut expected = b"#bundle\0".to_vec();
    expected.extend_from_slice(&[0, 0, 0, 1, 0, 0, 0, 2]);
    expected.extend_from_slice(&[0, 0, 0, 12]);
    expected.extend_from_slice(b"/a\0\0,i\0\0");
    expected.extend_from_slice(&[0, 0, 0, 7]);
    expected.extend_from_slice(&[0, 0, 0, 16]);
    expected.extend_from_slice(b"#bundle\0");
    expected.extend_from_slice(&[0, 0, 0, 3, 0, 0, 0, 4]);
    assert_eq!(bytes, expected);
    assert_eq!(decode(&bytes, bytes.len()).unwrap(), p);
}

#[test]
fn empty_bundle_has_no_trailing_bytes() {
    let p = OscPacket::Bundle(OscBundle { timetag: OscType::Time(0, 1), content: vec![] });
    let bytes = encode(&p).unwrap();
    assert_eq!(bytes.len(), 16);
    assert_eq!(decode(&bytes, bytes.len()).unwrap(), p);
}

#[test]
fn encode_errors() {
    let p = OscPacket::Bundle(OscBundle { timetag: OscType::Int(1), content: vec![] });
    assert_eq!(encode(&p), Err(OscError::BundleMissingTimeTag));
    let q = OscPacket::Bundle(OscBundle { timetag: OscType::Nil, content: vec![] });
    let r = OscPacket::Bundle(OscBundle { timetag: OscType::Time(0, 0), content: vec![q] });
    assert_eq!(encode(&r), Err(OscError::BundleMissingTimeTag));
}

#[test]
fn arrays_encode_their_elements() {
    let p = message(
        "/a",
        Some(vec![
            OscType::Int(5),
            OscType::Array(vec![OscType::Int(1), OscType::Array(vec![]), OscType::Bool(true), OscType::Char('z')]),
        ]),
    );
    let bytes = encode(&p).unwrap();
    let mut expected = b"/a\0\0".to_vec();
    expected.extend_from_slice(b",i[i[]Tc]\0\0\0");
    expected.extend_from_slice(&[0, 0, 0, 5, 0, 0, 0, 1, 0, 0, 0, 122]);
    assert_eq!(bytes, expected);
    let single = message("/a", Some(vec![OscType::Array(vec![OscType::Int(1)])]));
    let mut one = b"/a\0\0,[i]\0\0\0\0".to_vec();
    one.extend_from_slice(&[0, 0, 0, 1]);
    assert_eq!(encode(&single).unwrap(), one);
    assert_eq!(decode(&one, one.len()), Err(OscError::UnsupportedTypeTag('[')));
}
