use osc::{strchr, Argument, Error, Message};


fn wire(msg: &Message) -> Vec<u8> {
    msg.serialize()
}

#[test]
fn serialize_no_args() {
    let msg = Message {
        path: "/test_msg",
        arguments: vec![],
    };

    assert_eq!(wire(&msg), "/test_msg\0\0\0,\0\0\0".as_bytes());
}

#[test]
fn serialize_i32() {
    let msg = Message {
        path: "/test_msg",
        arguments: vec![Argument::from(42)],
    };

    assert_eq!(wire(&msg), "/test_msg\0\0\0,i\0\0\0\0\0\x2A".as_bytes());
}

#[test]
fn serialize_f32() {
    let msg = Message {
        path: "/test_msg",
        arguments: vec![Argument::f((0.0 as f32).to_bits())],
    };

    assert_eq!(wire(&msg), "/test_msg\0\0\0,f\0\0\0\0\0\0".as_bytes());
}

#[test]
fn serialize_str() {
    let msg = Message {
        path: "/test_msg",
        arguments: vec![Argument::from("testing")],
    };

    assert_eq!(wire(&msg), "/test_msg\0\0\0,s\0\0testing\0".as_bytes());
}

#[test]
fn deserialize_no_args() {
    let buf = "/test_msg\0\0\0,\0\0\0".as_bytes();
    let msg = Message::deserialize(buf).unwrap();

    assert_eq!(msg.path, "/test_msg");
    assert!(msg.arguments.len() == 0);
}

#[test]
fn deserialize_i32() {
    let buf = "/test_msg\0\0\0,i\0\0\0\0\0\x2A".as_bytes();
    let msg = Message::deserialize(buf).unwrap();

    assert_eq!(msg.path, "/test_msg");
    assert!(msg.arguments.len() == 1);

    assert!(match msg.arguments[0] {
        Argument::i(v) => v == 42,
        _ => false,
    });
}

#[test]
fn deserialize_f32() {
    let buf = "/test_msg\0\0\0,f\0\0\0\0\0\0".as_bytes();
    let msg = Message::deserialize(buf).unwrap();

    assert_eq!(msg.path, "/test_msg");
    assert!(msg.arguments.len() == 1);

    assert!(match msg.arguments[0] {
        Argument::f(v) => f32::from_bits(v) == 0.0,
        _ => false,
    });
}

#[test]
fn deserialize_string() {
    let buf = "/test_msg\0\0\0,s\0\0testing\0".as_bytes();
    let msg = Message::deserialize(buf).unwrap();

    assert_eq!(msg.path, "/test_msg");
    assert!(msg.arguments.len() == 1);

    assert!(match msg.arguments[0] {
        Argument::s(v) => v == "testing",
        _ => false,
    });
}

fn sample() -> Message<'static> {
    Message {
        path: "/test_msg",
        arguments: vec![
            Argument::i(42),
            Argument::f((0.0 as f32).to_bits()),
            Argument::s("testing"),
        ],
    }
}

const SAMPLE_WIRE: &str = "/test_msg\0\0\0,ifs\0\0\0\0\0\0\0\x2A\0\0\0\0testing\0";

#[test]
fn serialize_mixed_arguments_exact_bytes() {
    assert_eq!(sample().serialize(), SAMPLE_WIRE.as_bytes());
}

#[test]
fn deserialize_mixed_arguments() {
    let msg = Message::deserialize(SAMPLE_WIRE.as_bytes()).unwrap();
    assert_eq!(msg.path, "/test_msg");
    assert_eq!(msg.arguments.len(), 3);
    assert!(matches!(msg.arguments[0], Argument::i(42)));
    assert!(matches!(msg.arguments[1], Argument::f(b) if f32::from_bits(b) == 0.0));
    assert!(matches!(msg.arguments[2], Argument::s("testing")));
}

#[test]
fn round_trip_keeps_path_and_arguments() {
    let msg = Message {
        path: "/a/b/c",
        arguments: vec![
            Argument::s(""),
            Argument::i(-7),
            Argument::s("abcd"),
            Argument::f((-1.5 as f32).to_bits()),
            Argument::s("héllo wörld"),
            Argument::i(i32::MIN),
        ],
    };
    let bytes = msg.serialize();
    let back = Message::deserialize(&bytes).unwrap();
    assert_eq!(back.path, msg.path);
    assert_eq!(back.arguments.len(), msg.arguments.len());
    for (a, b) in back.arguments.iter().zip(msg.arguments.iter()) {
        match (a, b) {
            (Argument::i(x), Argument::i(y)) => assert_eq!(x, y),
            (Argument::f(x), Argument::f(y)) => assert_eq!(x, y),
            (Argument::s(x), Argument::s(y)) => assert_eq!(x, y),
            _ => panic!("argument kinds differ"),
        }
    }
}

#[test]
fn string_padding_always_adds_a_nul() {
    for (text, len) in [("", 4), ("a", 4), ("abc", 4), ("abcd", 8), ("abcdefg", 8), ("abcdefgh", 12)] {
        let mut out = Vec::new();
        Argument::s(text).serialize(&mut out);
        assert_eq!(out.len(), len);
        assert_eq!(out.len() % 4, 0);
        assert!(out.len() > text.len());
        assert_eq!(&out[..text.len()], text.as_bytes());
        assert!(out[text.len()..].iter().all(|b| *b == 0));
    }
}

#[test]
fn every_proper_prefix_is_truncated_or_unterminated() {
    let bytes = sample().serialize();
    for k in 0..bytes.len() {
        let r = Message::deserialize(&bytes[..k]);
        assert!(
            matches!(r, Err(Error::TruncatedBuffer) | Err(Error::UnterminatedString)),
            "prefix of {} bytes",
            k
        );
    }
}

#[test]
fn integer_is_big_endian() {
    let mut out = Vec::new();
    Argument::i(0x01020304).serialize(&mut out);
    assert_eq!(out, vec![1, 2, 3, 4]);
    let mut out = Vec::new();
    Argument::i(-2).serialize(&mut out);
    assert_eq!(out, vec![0xFF, 0xFF, 0xFF, 0xFE]);
    let mut out = Vec::new();
    Argument::f((1.0 as f32).to_bits()).serialize(&mut out);
    assert_eq!(out, vec![0x3F, 0x80, 0, 0]);
}

#[test]
fn argument_decode_advances_cursor() {
    let buf: &[u8] = &[0, 0, 1, 0, b'h', b'i', 0, 0, 0xFF];
    let mut slice = buf;
    assert!(matches!(Argument::deserialize('i', &mut slice), Ok(Argument::i(256))));
    assert_eq!(slice.len(), 5);
    assert!(matches!(Argument::deserialize('s', &mut slice), Ok(Argument::s("hi"))));
    assert_eq!(slice, &[0xFF]);
}

#[test]
fn float_decodes_bit_pattern() {
    let buf: &[u8] = &[0x40, 0x49, 0x0F, 0xDB];
    let mut slice = buf;
    match Argument::deserialize('f', &mut slice) {
        Ok(Argument::f(bits)) => assert_eq!(f32::from_bits(bits), std::f32::consts::PI),
        _ => panic!("expected a float"),
    }
    assert!(slice.is_empty());
}

#[test]
fn error_truncated_integer() {
    let buf: &[u8] = &[0, 0, 1];
    let mut slice = buf;
    assert!(matches!(Argument::deserialize('i', &mut slice), Err(Error::TruncatedBuffer)));
    assert_eq!(slice.len(), 3);
    let mut slice = buf;
    assert!(matches!(Argument::deserialize('f', &mut slice), Err(Error::TruncatedBuffer)));
}

#[test]
fn error_truncated_padding() {
    let buf: &[u8] = b"ab\0";
    let mut slice = buf;
    assert!(matches!(Argument::deserialize('s', &mut slice), Err(Error::TruncatedBuffer)));
}

#[test]
fn error_unterminated_string() {
    let buf: &[u8] = b"abcd";
    let mut slice = buf;
    assert!(matches!(Argument::deserialize('s', &mut slice), Err(Error::UnterminatedString)));
    assert!(matches!(Message::deserialize(b""), Err(Error::UnterminatedString)));
}

#[test]
fn error_invalid_utf8() {
    let buf: &[u8] = &[0xFF, 0xFE, 0, 0];
    let mut slice = buf;
    assert!(matches!(Argument::deserialize('s', &mut slice), Err(Error::InvalidUtf8)));
    assert!(matches!(
        Message::deserialize(b"/a\0\0,s\0\0\xC3\0\0\0"),
        Err(Error::InvalidUtf8)
    ));
}

#[test]
fn error_unknown_type_tag() {
    let buf: &[u8] = &[0, 0, 0, 0];
    let mut slice = buf;
    assert!(matches!(Argument::deserialize('x', &mut slice), Err(Error::UnknownTypeTag)));
    assert!(matches!(
        Message::deserialize(b"/test_msg\0\0\0,TF\0"),
        Err(Error::UnknownTypeTag)
    ));
}

#[test]
fn error_malformed_type_tag_string() {
    assert!(matches!(
        Message::deserialize(b"/test_msg\0\0\0i\0\0\0\0\0\0\x2A"),
        Err(Error::MalformedTypeTagString)
    ));
    assert!(matches!(
        Message::deserialize(b"/test_msg\0\0\0\0\0\0\0"),
        Err(Error::MalformedTypeTagString)
    ));
}

#[test]
fn trailing_bytes_are_ignored() {
    let msg = Message::deserialize(b"/x\0\0,i\0\0\0\0\0\x05\xAA\xBB").unwrap();
    assert_eq!(msg.path, "/x");
    assert!(matches!(msg.arguments[..], [Argument::i(5)]));
}

#[test]
fn typetags_per_kind() {
    assert_eq!(Argument::i(1).typetag(), 'i');
    assert_eq!(Argument::f(0).typetag(), 'f');
    assert_eq!(Argument::s("x").typetag(), 's');
}

#[test]
fn strchr_finds_first_occurrence() {
    assert_eq!(strchr(b"ab\0c\0", 0), Some(2));
    assert_eq!(strchr(b"abc", 0), None);
    assert_eq!(strchr(b"", 0), None);
    assert_eq!(strchr(b"xyx", b'x'), Some(0));
}

#[test]
fn argument_from_values() {
    assert!(matches!(Argument::from(3), Argument::i(3)));
    assert!(matches!(Argument::from("x"), Argument::s("x")));
}
