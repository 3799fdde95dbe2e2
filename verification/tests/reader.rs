use chat_server::connection::{command, same_text, Connection};
use chat_server::error::{CursorError, IoFailure, ParseError, ReadError};
use chat_server::frame::Frame;
use chat_server::rw::FrameReader;
use std::io::Read;

/// Reads the stream once and hands the reader what came.
fn pump<R: Read>(reader: &mut FrameReader<R>) {
    let mut chunk = [0u8; 256];
    let outcome = reader.get_mut().read(&mut chunk);
    match outcome {
        Ok(n) => reader.feed(Ok(&chunk[..n])),
        Err(_) => reader.feed(Err(IoFailure::Other)),
    }
}

#[test]
fn test_read_frame() {
    let data = "+Hello, world!\r\n".as_bytes();

    let mut reader = FrameReader::new(data);
    pump(&mut reader);
    let result = reader.read_frame().unwrap();
    assert_eq!(result.frame(), Frame::Simple("Hello, world!"));
}

#[test]
fn test_read_frame_2() {
    let data = ":100\r\n".as_bytes();

    let mut reader = FrameReader::new(data);
    pump(&mut reader);
    let result = reader.read_frame().unwrap();
    assert_eq!(result.frame(), Frame::Integer(100));
}

#[test]
fn test_read_frame_3() {
    let data = "-NOT FOUND\r\n".as_bytes();

    let mut reader = FrameReader::new(data);
    pump(&mut reader);
    let result = reader.read_frame().unwrap();
    assert_eq!(result.frame(), Frame::Errors("NOT FOUND"));
}

#[test]
fn test_read_frame_4() {
    let data = "$4\r\nafoo\r\n".as_bytes();

    let mut reader = FrameReader::new(data);
    pump(&mut reader);
    let result = reader.read_frame().unwrap();
    let control = "afoo".as_bytes();
    assert_eq!(result.frame(), Frame::BulkString(control));
}

#[test]
fn test_read_frame_5() {
    let data = "*2\r\n+hello\r\n:100\r\n".as_bytes();

    let mut reader = FrameReader::new(data);
    pump(&mut reader);
    let result = reader.read_frame().unwrap();
    let vec: Vec<Frame> = vec![Frame::Simple("hello"), Frame::Integer(100)];
    assert_eq!(result.frame(), Frame::Vecs(vec));
}

#[test]
fn buffer_is_empty_once_the_guard_is_gone() {
    let mut reader = FrameReader::new(());
    reader.feed(Ok(b"*2\r\n+hello\r\n:100\r\n"));
    assert_eq!(reader.buffer().len(), 18);
    {
        let guard = reader.read_frame().unwrap();
        assert_eq!(
            guard.frame(),
            Frame::Vecs(vec![Frame::Simple("hello"), Frame::Integer(100)])
        );
    }
    assert_eq!(reader.buffer(), b"");
}

#[test]
fn frame_is_taken_even_if_never_decoded() {
    let mut reader = FrameReader::new(());
    reader.feed(Ok(b":1\r\n:2\r\n"));
    {
        let _guard = reader.read_frame().unwrap();
    }
    assert_eq!(reader.buffer(), b":2\r\n");
    assert_eq!(reader.read_frame().unwrap().frame(), Frame::Integer(2));
    assert_eq!(reader.buffer(), b"");
    assert!(matches!(
        reader.read_frame(),
        Err(ReadError::Io(IoFailure::WouldBlock))
    ));
}

#[test]
fn frame_may_be_decoded_twice_and_is_taken_once() {
    let mut reader = FrameReader::new(());
    reader.feed(Ok(b"+a\r\n+b\r\n"));
    {
        let guard = reader.read_frame().unwrap();
        assert_eq!(guard.frame(), Frame::Simple("a"));
        assert_eq!(guard.frame(), Frame::Simple("a"));
    }
    assert_eq!(reader.buffer(), b"+b\r\n");
}

#[test]
fn partial_frame_is_pending_until_the_rest_arrives() {
    let mut reader = FrameReader::new(());
    reader.feed(Ok(b"*2\r\n+MSG\r\n+h"));
    assert!(matches!(
        reader.read_frame(),
        Err(ReadError::Io(IoFailure::WouldBlock))
    ));
    assert_eq!(reader.buffer(), b"*2\r\n+MSG\r\n+h");
    reader.feed(Err(IoFailure::WouldBlock));
    reader.feed(Ok(b""));
    assert!(matches!(
        reader.read_frame(),
        Err(ReadError::Io(IoFailure::WouldBlock))
    ));
    reader.feed(Ok(b"i\r\n:5\r\n"));
    assert_eq!(
        reader.read_frame().unwrap().frame(),
        Frame::Vecs(vec![Frame::Simple("MSG"), Frame::Simple("hi")])
    );
    assert_eq!(reader.buffer(), b":5\r\n");
}

#[test]
fn array_with_a_refused_frame_is_a_parse_error_and_a_partial_one_is_pending() {
    let mut reader = FrameReader::new(());
    reader.feed(Ok(b"*2\r\n+a\r\n"));
    assert!(matches!(
        reader.read_frame(),
        Err(ReadError::Io(IoFailure::WouldBlock))
    ));
    reader.feed(Ok(b"<x\r\n"));
    match reader.read_frame() {
        Err(ReadError::Parse(e)) => assert_eq!(e, ParseError::SizeMismatch(2)),
        _ => panic!("a parse error was due"),
    }
    assert_eq!(reader.buffer(), b"*2\r\n+a\r\n<x\r\n");
}

#[test]
fn malformed_bytes_give_the_parse_error_and_stay() {
    let mut reader = FrameReader::new(());
    reader.feed(Ok(b"<100\r\n"));
    match reader.read_frame() {
        Err(ReadError::Parse(e)) => assert_eq!(e, ParseError::FrameType(b'<')),
        _ => panic!("a parse error was due"),
    }
    assert_eq!(reader.buffer(), b"<100\r\n");

    let mut reader = FrameReader::new(());
    reader.feed(Ok(b":1x\r\n"));
    match reader.read_frame() {
        Err(ReadError::Parse(e)) => assert_eq!(e, ParseError::Cursor(CursorError::OutOfRange)),
        _ => panic!("a parse error was due"),
    }
}

#[test]
fn failed_stream_gives_its_failure_whatever_is_buffered() {
    let mut reader = FrameReader::new(());
    reader.feed(Ok(b":1\r\n"));
    reader.feed(Err(IoFailure::WriteZero));
    assert!(matches!(
        reader.read_frame(),
        Err(ReadError::Io(IoFailure::WriteZero))
    ));
    assert_eq!(reader.buffer(), b":1\r\n");
    assert!(matches!(
        reader.read_frame(),
        Err(ReadError::Io(IoFailure::WriteZero))
    ));

    let mut reader = FrameReader::new(());
    reader.feed(Err(IoFailure::Other));
    assert!(matches!(
        reader.read_frame(),
        Err(ReadError::Io(IoFailure::Other))
    ));
}

#[test]
fn reader_keeps_its_stream() {
    let mut reader = FrameReader::new(5u32);
    *reader.get_mut() += 1;
    reader.feed(Ok(b":1\r\n"));
    assert_eq!(*reader.get_mut(), 6);
    assert_eq!(reader.buffer(), b":1\r\n");
}

#[test]
fn read_errors_are_made_from_their_parts() {
    assert!(matches!(
        ReadError::from(ParseError::FrameType(1)),
        ReadError::Parse(ParseError::FrameType(1))
    ));
    assert!(matches!(
        ReadError::from(IoFailure::WouldBlock),
        ReadError::Io(IoFailure::WouldBlock)
    ));
}

#[test]
fn texts_are_compared_by_content() {
    assert!(same_text("JOIN", "JOIN"));
    assert!(same_text("", ""));
    assert!(same_text("héllo", "héllo"));
    assert!(!same_text("JOIN", "JOIn"));
    assert!(!same_text("JOIN", "JOINS"));
    assert!(!same_text("", "x"));
}

#[test]
fn command_gives_the_text_after_its_word() {
    let join = Frame::Vecs(vec![Frame::Simple("JOIN"), Frame::Simple("ann")]);
    assert_eq!(command(&join, "JOIN"), Some("ann"));
    assert_eq!(command(&join, "MSG"), None);
    let three = Frame::Vecs(vec![Frame::Simple("JOIN"), Frame::Simple("a"), Frame::Simple("b")]);
    assert_eq!(command(&three, "JOIN"), None);
    let one = Frame::Vecs(vec![Frame::Simple("JOIN")]);
    assert_eq!(command(&one, "JOIN"), None);
    let bulk = Frame::Vecs(vec![Frame::Simple("JOIN"), Frame::BulkString(b"ann")]);
    assert_eq!(command(&bulk, "JOIN"), None);
    let error = Frame::Vecs(vec![Frame::Errors("JOIN"), Frame::Simple("ann")]);
    assert_eq!(command(&error, "JOIN"), None);
    assert_eq!(command(&Frame::Simple("JOIN"), "JOIN"), None);
}

#[test]
fn handshake_admits_a_join_request() {
    let made = Connection::establish("stream", 7, Ok(b"*2\r\n+JOIN\r\n+ann\r\n"));
    let mut connection = made.unwrap();
    assert_eq!(connection.name, "ann");
    assert_eq!(connection.id, 7);
    assert_eq!(*connection.reader.get_mut(), "stream");
    assert_eq!(connection.reader.buffer(), b"");
}

#[test]
fn handshake_keeps_what_follows_the_request() {
    let made = Connection::establish((), 0, Ok(b"*2\r\n+JOIN\r\n+bob\r\n*2\r\n+MSG\r\n+hi\r\n"));
    let mut connection = made.unwrap();
    assert_eq!(connection.name, "bob");
    assert_eq!(connection.reader.buffer(), b"*2\r\n+MSG\r\n+hi\r\n");
    assert_eq!(
        connection.reader.read_frame().unwrap().frame(),
        Frame::Vecs(vec![Frame::Simple("MSG"), Frame::Simple("hi")])
    );
}

#[test]
fn handshake_turns_away_anything_else() {
    let refused: [&[u8]; 9] = [
        b"*2\r\n+HELLO\r\n+ann\r\n",
        b"*2\r\n+join\r\n+ann\r\n",
        b"*1\r\n+JOIN\r\n",
        b"*3\r\n+JOIN\r\n+ann\r\n+x\r\n",
        b"*2\r\n+JOIN\r\n$3\r\nann\r\n",
        b"+JOIN\r\n",
        b"*2\r\n+JOIN\r\n+an",
        b"<nonsense\r\n",
        b"",
    ];
    for bytes in refused {
        assert!(Connection::establish((), 0, Ok(bytes)).is_none());
    }
    assert!(Connection::establish((), 0, Err(IoFailure::WouldBlock)).is_none());
    assert!(Connection::establish((), 0, Err(IoFailure::WriteZero)).is_none());
    assert!(Connection::establish((), 0, Err(IoFailure::Other)).is_none());
}
