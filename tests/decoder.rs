use rosc::encoder::encode;
use rosc::osc_decoder::{decode, read_osc_string};
use rosc::types::{OscError, OscMessage, OscPacket, OscType};

fn ints_message() -> Vec<u8> {
    let p = OscPacket::Message(OscMessage {
        addr: "/n".to_string(),
        args: Some(vec![OscType::Int(1), OscType::Long(2)]),
    });
    encode(&p).unwrap()
}

#[test]
fn truncated_fields_fail_with_truncated_value() {
    let bytes = ints_message();
    assert_eq!(bytes.len(), 4 + 4 + 4 + 8);
    assert_eq!(decode(&bytes, 10), Err(OscError::TruncatedValue(4, 2)));
    assert_eq!(decode(&bytes, 14), Err(OscError::TruncatedValue(8, 2)));
    assert_eq!(decode(&bytes, 19), Err(OscError::TruncatedValue(8, 7)));
    assert!(decode(&bytes, bytes.len()).is_ok());
    assert!(decode(&bytes, 1000).is_ok());
}

#[test]
fn truncated_blob_and_bundle() {
    let mut blob = b"/b\0\0,b\0\0".to_vec();
    blob.extend_from_slice(&[0, 0, 0, 9, 1, 2]);
    assert_eq!(decode(&blob, blob.len()), Err(OscError::TruncatedValue(9, 2)));
    let mut neg = b"/b\0\0,b\0\0".to_vec();
    neg.extend_from_slice(&[0xff, 0xff, 0xff, 0xff]);
    assert_eq!(decode(&neg, neg.len()), Err(OscError::NegativeOrOverflowingLength));
    let mut bundle = b"#bundle\0".to_vec();
    bundle.extend_from_slice(&[0, 0, 0, 0, 0, 0, 0, 0, 0, 0, 0, 40, 1]);
    assert_eq!(decode(&bundle, bundle.len()), Err(OscError::TruncatedValue(40, 1)));
    assert_eq!(decode(&bundle, 12), Err(OscError::TruncatedValue(8, 4)));
    assert_eq!(decode(&bundle, 18), Err(OscError::TruncatedValue(4, 2)));
    let mut huge = b"#bundle\0".to_vec();
    huge.extend_from_slice(&[0, 0, 0, 0, 0, 0, 0, 0, 0x80, 0, 0, 0, 1, 2]);
    assert_eq!(decode(&huge, huge.len()), Err(OscError::TruncatedValue(0x8000_0000, 2)));
}

#[test]
fn decode_errors() {
    assert_eq!(decode(b"xyz\0", 4), Err(OscError::MalformedPacket("unknown leading byte".to_string())));
    assert!(matches!(decode(b"", 0), Err(OscError::MalformedPacket(_))));
    assert_eq!(decode(b"/abc", 4), Err(OscError::UnterminatedString));
    assert_eq!(decode(b"/\xff\0\0,\0\0\0", 8), Err(OscError::InvalidUtf8));
    assert!(matches!(decode(b"/a\0\0s\0\0\0", 8), Err(OscError::MalformedPacket(_))));
    assert_eq!(decode(b"/a\0\0,q\0\0", 8), Err(OscError::UnsupportedTypeTag('q')));
    assert!(matches!(decode(b"#bundlX\0\0\0\0\0\0\0\0\0", 16), Err(OscError::MalformedPacket(_))));
    assert!(matches!(
        decode(b"/a\0\0,c\0\0\0\0\xd8\0", 12),
        Err(OscError::MalformedPacket(_))
    ));
}

#[test]
fn read_string_skips_padding() {
    let buf = b"ab\0\0cdef\0\0\0\0";
    assert_eq!(read_osc_string(buf, 0), Ok(("ab".to_string(), 4)));
    assert_eq!(read_osc_string(buf, 4), Ok(("cdef".to_string(), 12)));
    assert_eq!(read_osc_string(b"abc", 0), Err(OscError::UnterminatedString));
}

#[test]
fn round_trip_examples() {
    let packets = vec![
        OscPacket::Message(OscMessage { addr: "/x/y".to_string(), args: None }),
        OscPacket::Message(OscMessage {
            addr: "/a".to_string(),
            args: Some(vec![OscType::String("héllo".to_string()), OscType::Blob(vec![]), OscType::Char('é')]),
        }),
    ];
    for p in packets {
        let bytes = encode(&p).unwrap();
        assert_eq!(decode(&bytes, bytes.len()).unwrap(), p);
    }
}
