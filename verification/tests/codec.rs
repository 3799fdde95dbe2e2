use chat_server::cursor::Cursor;
use chat_server::error::{CursorError, ParseError};
use chat_server::frame::Frame;
use chat_server::rw::WriteFrame;

fn encoded(frame: &Frame) -> Vec<u8> {
    let mut out: Vec<u8> = Vec::new();
    out.write_frame(frame).unwrap();
    out
}

#[test]
fn test_check() {
    let mut src = Cursor::new(":100\r\n".as_bytes());

    assert!(Frame::check(&mut src).is_ok());
}

#[test]
fn string_check() {
    let mut src = Cursor::new("+I love Rust\r\n".as_bytes());

    assert!(Frame::check(&mut src).is_ok());
}

#[test]
fn error_check() {
    let mut src = Cursor::new("-NOT FOUND\r\n".as_bytes());

    assert!(Frame::check(&mut src).is_ok());
}

#[test]
fn integer_check() {
    let mut src = Cursor::new(":123\r\n".as_bytes());

    assert!(Frame::check(&mut src).is_ok());
}

#[test]
fn bulk_string_check() {
    // Seven bytes of payload under a declared length of four.
    let mut src = Cursor::new("$4\r\n∆íoo\r\n".as_bytes());

    assert_eq!(Frame::check(&mut src), Err(ParseError::SizeMismatch(4)));
}

#[test]
fn bulk_string_of_declared_length_check() {
    let mut src = Cursor::new("$4\r\nƒoo\r\n".as_bytes());

    assert!(Frame::check(&mut src).is_ok());
    assert_eq!(src.position(), 10);
}

#[test]
fn arr_check() {
    let mut src = Cursor::new("*2\r\n+hello\r\n:100\r\n".as_bytes());

    assert!(Frame::check(&mut src).is_ok());
}

#[test]
fn invalid_frame() {
    let mut src = Cursor::new("<100\r\n".as_bytes());

    assert!(Frame::check(&mut src).is_err());
}

#[test]
fn string_decode_check() {
    let mut src = Cursor::new("+I love Rust\r\n".as_bytes());

    assert!(Frame::decode(&mut src).is_ok());
}

#[test]
fn error_decode_check() {
    let mut src = Cursor::new("-NOT FOUND\r\n".as_bytes());

    assert!(Frame::decode(&mut src).is_ok());
}

#[test]
fn integerdecode_check() {
    let mut src = Cursor::new(":123\r\n".as_bytes());

    assert!(Frame::decode(&mut src).is_ok());
}

#[test]
fn bulk_stringdecode_check() {
    let mut src = Cursor::new("$4\r\naaoo\r\n".as_bytes());

    assert!(Frame::decode(&mut src).is_ok());
}

#[test]
fn arrdecode_check() {
    let mut src = Cursor::new("*2\r\n+hello\r\n:100\r\n".as_bytes());

    assert!(Frame::decode(&mut src).is_ok());
}

#[test]
fn invaliddecode_frame() {
    let mut src = Cursor::new("<100\r\n".as_bytes());

    assert!(Frame::decode(&mut src).is_err());
}

#[test]
fn decode_gives_each_variant() {
    let mut src = Cursor::new("+I love Rust\r\n".as_bytes());
    assert_eq!(Frame::decode(&mut src), Ok(Frame::Simple("I love Rust")));

    let mut src = Cursor::new("-NOT FOUND\r\n".as_bytes());
    assert_eq!(Frame::decode(&mut src), Ok(Frame::Errors("NOT FOUND")));

    let mut src = Cursor::new(":-123\r\n".as_bytes());
    assert_eq!(Frame::decode(&mut src), Ok(Frame::Integer(-123)));

    let mut src = Cursor::new("$4\r\naaoo\r\n".as_bytes());
    assert_eq!(Frame::decode(&mut src), Ok(Frame::BulkString("aaoo".as_bytes())));

    let mut src = Cursor::new("*2\r\n+hello\r\n:100\r\n".as_bytes());
    assert_eq!(
        Frame::decode(&mut src),
        Ok(Frame::Vecs(vec![Frame::Simple("hello"), Frame::Integer(100)]))
    );
}

#[test]
fn decode_keeps_text_beyond_ascii() {
    let mut src = Cursor::new("+héllo wörld ✓\r\n".as_bytes());
    assert_eq!(Frame::decode(&mut src), Ok(Frame::Simple("héllo wörld ✓")));
}

#[test]
fn text_that_is_not_utf8_is_refused() {
    let bytes: [u8; 5] = [b'+', 0xff, 0xfe, b'\r', b'\n'];
    let mut src = Cursor::new(&bytes);
    assert!(matches!(Frame::check(&mut src), Err(ParseError::Utf8(_))));
    assert_eq!(src.position(), 0);

    let mut src = Cursor::new(&bytes);
    assert!(matches!(Frame::decode(&mut src), Err(ParseError::Utf8(_))));
    assert_eq!(src.position(), 0);
}

#[test]
fn check_and_decode_stop_after_the_frame() {
    let bytes = ":100\r\n+next\r\n".as_bytes();
    let mut src = Cursor::new(bytes);
    assert!(Frame::check(&mut src).is_ok());
    assert_eq!(src.position(), 6);
    assert_eq!(Frame::decode(&mut src), Ok(Frame::Simple("next")));
    assert_eq!(src.position(), 13);
}

#[test]
fn unknown_tag_gives_frame_type_from_both() {
    let mut src = Cursor::new("<100\r\n".as_bytes());
    assert_eq!(Frame::check(&mut src), Err(ParseError::FrameType(b'<')));
    let mut src = Cursor::new("<100\r\n".as_bytes());
    assert_eq!(Frame::decode(&mut src), Err(ParseError::FrameType(b'<')));
}

#[test]
fn bulk_length_mismatch_gives_size_mismatch_from_both() {
    let mut src = Cursor::new("$2\r\nabcd\r\n".as_bytes());
    assert_eq!(Frame::check(&mut src), Err(ParseError::SizeMismatch(2)));
    assert_eq!(src.position(), 0);
    let mut src = Cursor::new("$2\r\nabcd\r\n".as_bytes());
    assert_eq!(Frame::decode(&mut src), Err(ParseError::SizeMismatch(2)));
    assert_eq!(src.position(), 0);
}

#[test]
fn bulk_shorter_than_declared_waits_for_more() {
    let mut src = Cursor::new("$4\r\nab\r\n".as_bytes());
    assert_eq!(
        Frame::check(&mut src),
        Err(ParseError::Cursor(CursorError::Underflow))
    );
    let mut src = Cursor::new("$4\r\nab\r\n".as_bytes());
    assert_eq!(
        Frame::decode(&mut src),
        Err(ParseError::Cursor(CursorError::Underflow))
    );
}

#[test]
fn bulk_payload_may_hold_line_breaks() {
    let mut src = Cursor::new("$6\r\na\r\nb\r\n\r\n".as_bytes());
    assert!(Frame::check(&mut src).is_ok());
    let mut src = Cursor::new("$6\r\na\r\nb\r\n\r\n".as_bytes());
    assert_eq!(
        Frame::decode(&mut src),
        Ok(Frame::BulkString("a\r\nb\r\n".as_bytes()))
    );
}

#[test]
fn empty_bulk_and_empty_array() {
    let mut src = Cursor::new("$0\r\n\r\n".as_bytes());
    assert_eq!(Frame::decode(&mut src), Ok(Frame::BulkString(&[])));
    let mut src = Cursor::new("*0\r\n".as_bytes());
    assert_eq!(Frame::decode(&mut src), Ok(Frame::Vecs(vec![])));
}

#[test]
fn array_with_fewer_frames_than_declared_waits_for_more() {
    let mut src = Cursor::new("*2\r\n+a\r\n".as_bytes());
    assert_eq!(
        Frame::check(&mut src),
        Err(ParseError::Cursor(CursorError::Underflow))
    );
    assert_eq!(src.position(), 0);
    let mut src = Cursor::new("*2\r\n+a\r\n".as_bytes());
    assert_eq!(
        Frame::decode(&mut src),
        Err(ParseError::Cursor(CursorError::Underflow))
    );
}

#[test]
fn array_with_a_refused_frame_gives_size_mismatch_of_its_count() {
    let inputs = [
        "*2\r\n+a\r\n<x\r\n",
        "*2\r\n<x\r\n+a\r\n",
        "*2\r\n+a\r\n?",
        "*2\r\n+a\r\n:1x\r\n",
        "*2\r\n+a\r\n$1\r\nabc",
    ];
    for input in inputs {
        let mut src = Cursor::new(input.as_bytes());
        assert_eq!(Frame::check(&mut src), Err(ParseError::SizeMismatch(2)));
        assert_eq!(src.position(), 0);
        let mut src = Cursor::new(input.as_bytes());
        assert_eq!(Frame::decode(&mut src), Err(ParseError::SizeMismatch(2)));
        assert_eq!(src.position(), 0);
    }
    let bytes: [u8; 10] = [b'*', b'1', b'\r', b'\n', b'+', 0xff, b'\r', b'\n', b'+', b'a'];
    let mut src = Cursor::new(&bytes);
    assert_eq!(Frame::check(&mut src), Err(ParseError::SizeMismatch(1)));
}

#[test]
fn nested_array_with_a_refused_frame_gives_the_outer_count() {
    let mut src = Cursor::new("*3\r\n:1\r\n*2\r\n+a\r\n<x\r\n:2\r\n".as_bytes());
    assert_eq!(Frame::check(&mut src), Err(ParseError::SizeMismatch(3)));
    let mut src = Cursor::new("*3\r\n:1\r\n*2\r\n+a\r\n<x\r\n:2\r\n".as_bytes());
    assert_eq!(Frame::decode(&mut src), Err(ParseError::SizeMismatch(3)));
}

#[test]
fn array_whose_last_frame_has_not_wholly_arrived_waits_for_more() {
    for input in ["*2\r\n+a\r\n+b", "*2\r\n+a\r\n$5\r\nab", "*2\r\n*1\r\n", "*2\r\n+a\r\n*1\r\n:"] {
        let mut src = Cursor::new(input.as_bytes());
        assert_eq!(
            Frame::check(&mut src),
            Err(ParseError::Cursor(CursorError::Underflow))
        );
        let mut src = Cursor::new(input.as_bytes());
        assert_eq!(
            Frame::decode(&mut src),
            Err(ParseError::Cursor(CursorError::Underflow))
        );
    }
}

#[test]
fn array_decodes_exactly_the_declared_count() {
    let mut src = Cursor::new("*2\r\n+a\r\n+b\r\n+c\r\n".as_bytes());
    let frame = Frame::decode(&mut src).unwrap();
    assert_eq!(frame.as_array().unwrap().len(), 2);
    assert_eq!(src.position(), 12);
}

#[test]
fn nested_arrays_decode() {
    let mut src = Cursor::new("*2\r\n*1\r\n:1\r\n*2\r\n$1\r\nx\r\n-e\r\n".as_bytes());
    assert_eq!(
        Frame::decode(&mut src),
        Ok(Frame::Vecs(vec![
            Frame::Vecs(vec![Frame::Integer(1)]),
            Frame::Vecs(vec![Frame::BulkString(b"x"), Frame::Errors("e")]),
        ]))
    );
}

#[test]
fn bad_numerals_are_out_of_range() {
    for input in [":12a\r\n", ":\r\n", ":-\r\n", ":+5\r\n", ":9223372036854775808\r\n", ": 5\r\n"] {
        let mut src = Cursor::new(input.as_bytes());
        assert_eq!(
            Frame::check(&mut src),
            Err(ParseError::Cursor(CursorError::OutOfRange))
        );
    }
    for input in ["$-1\r\n", "*x\r\n", "$18446744073709551616\r\n"] {
        let mut src = Cursor::new(input.as_bytes());
        assert_eq!(
            Frame::decode(&mut src),
            Err(ParseError::Cursor(CursorError::OutOfRange))
        );
    }
}

#[test]
fn integers_at_the_ends_of_the_range() {
    let mut src = Cursor::new(":9223372036854775807\r\n".as_bytes());
    assert_eq!(Frame::decode(&mut src), Ok(Frame::Integer(i64::MAX)));
    let mut src = Cursor::new(":-9223372036854775808\r\n".as_bytes());
    assert_eq!(Frame::decode(&mut src), Ok(Frame::Integer(i64::MIN)));
    let mut src = Cursor::new(":-9223372036854775809\r\n".as_bytes());
    assert_eq!(
        Frame::decode(&mut src),
        Err(ParseError::Cursor(CursorError::OutOfRange))
    );
    let mut src = Cursor::new(":007\r\n".as_bytes());
    assert_eq!(Frame::decode(&mut src), Ok(Frame::Integer(7)));
}

#[test]
fn input_that_ends_early_underflows() {
    for input in ["", "+", "+abc", "+abc\r", ":12", "$3\r\nab", "$3\r\nabc\r", "*1\r\n"] {
        let mut src = Cursor::new(input.as_bytes());
        assert_eq!(
            Frame::check(&mut src),
            Err(ParseError::Cursor(CursorError::Underflow))
        );
        assert_eq!(src.position(), 0);
    }
}

#[test]
fn encoding_writes_the_wire_form() {
    assert_eq!(encoded(&Frame::Simple("OK")), b"+OK\r\n");
    assert_eq!(encoded(&Frame::Errors("NOT FOUND")), b"-NOT FOUND\r\n");
    assert_eq!(encoded(&Frame::Integer(0)), b":0\r\n");
    assert_eq!(encoded(&Frame::Integer(-42)), b":-42\r\n");
    assert_eq!(encoded(&Frame::Integer(i64::MIN)), b":-9223372036854775808\r\n");
    assert_eq!(encoded(&Frame::Integer(i64::MAX)), b":9223372036854775807\r\n");
    assert_eq!(encoded(&Frame::BulkString(b"afoo")), b"$4\r\nafoo\r\n");
    assert_eq!(encoded(&Frame::BulkString(b"")), b"$0\r\n\r\n");
    assert_eq!(
        encoded(&Frame::BulkString(b"0123456789")),
        b"$10\r\n0123456789\r\n"
    );
    assert_eq!(encoded(&Frame::Vecs(vec![])), b"*0\r\n");
    assert_eq!(
        encoded(&Frame::Vecs(vec![Frame::Simple("hello"), Frame::Integer(100)])),
        b"*2\r\n+hello\r\n:100\r\n"
    );
}

#[test]
fn encoding_appends_to_the_sink() {
    let mut out: Vec<u8> = b"abc".to_vec();
    assert!(out.write_frame(&Frame::Integer(7)).is_ok());
    assert_eq!(out, b"abc:7\r\n");
}

#[test]
fn encode_then_check_and_decode_gives_the_frame_back() {
    let frames = vec![
        Frame::Simple("hello world"),
        Frame::Simple(""),
        Frame::Simple("line\nfeed alone"),
        Frame::Errors("ERR ünïcode"),
        Frame::Integer(-987654321),
        Frame::BulkString(b"\x00\xff\r\n\r\n"),
        Frame::Vecs(vec![
            Frame::Simple("MSG"),
            Frame::Vecs(vec![Frame::Simple("ann"), Frame::Simple(": "), Frame::Simple("hi")]),
            Frame::BulkString(b""),
            Frame::Vecs(vec![]),
        ]),
    ];
    for frame in &frames {
        let bytes = encoded(frame);
        let mut src = Cursor::new(&bytes);
        assert!(Frame::check(&mut src).is_ok());
        assert_eq!(src.position(), bytes.len() as u64);
        let mut src = Cursor::new(&bytes);
        assert_eq!(Frame::decode(&mut src).as_ref(), Ok(frame));
        assert_eq!(src.position(), bytes.len() as u64);
    }
}

#[test]
fn text_with_a_line_break_does_not_come_back() {
    let bytes = encoded(&Frame::Simple("a\r\nb"));
    let mut src = Cursor::new(&bytes);
    assert_eq!(Frame::decode(&mut src), Ok(Frame::Simple("a")));
}

#[test]
fn as_array_is_some_for_arrays_only() {
    let array = Frame::Vecs(vec![Frame::Integer(1), Frame::Simple("x")]);
    assert_eq!(
        array.as_array(),
        Some(&[Frame::Integer(1), Frame::Simple("x")][..])
    );
    assert_eq!(Frame::Simple("x").as_array(), None);
    assert_eq!(Frame::Errors("x").as_array(), None);
    assert_eq!(Frame::Integer(1).as_array(), None);
    assert_eq!(Frame::BulkString(b"x").as_array(), None);
}

#[test]
fn errors_are_made_from_their_parts() {
    assert_eq!(
        ParseError::from(CursorError::Underflow),
        ParseError::Cursor(CursorError::Underflow)
    );
    assert_eq!(ParseError::from(7u64), ParseError::SizeMismatch(7));
    assert_eq!(ParseError::from(b'<'), ParseError::FrameType(b'<'));
    let bad = std::str::from_utf8(&[0xff]).unwrap_err();
    assert_eq!(ParseError::from(bad), ParseError::Utf8(bad));
}

#[test]
fn later_bytes_change_neither_a_whole_frame_nor_a_refusal() {
    let whole = "*2\r\n+MSG\r\n+hi\r\n";
    let refused = ["?x\r\n", ":1x\r\n", "$1\r\nabc", "*2\r\n+a\r\n:z\r\n"];
    for more in ["", "+", "\r\n", "*9\r\n+more\r\n"] {
        let longer = format!("{whole}{more}");
        let mut src = Cursor::new(longer.as_bytes());
        assert_eq!(
            Frame::decode(&mut src),
            Ok(Frame::Vecs(vec![Frame::Simple("MSG"), Frame::Simple("hi")]))
        );
        assert_eq!(src.position(), whole.len() as u64);
        for bad in refused {
            let mut src = Cursor::new(bad.as_bytes());
            let verdict = Frame::check(&mut src);
            assert!(verdict.is_err());
            let longer = format!("{bad}{more}");
            let mut src = Cursor::new(longer.as_bytes());
            assert_eq!(Frame::check(&mut src), verdict);
        }
    }
}
