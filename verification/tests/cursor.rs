use chat_server::cursor;
use chat_server::cursor::{byte, integer, size, slice, Cursor};
use chat_server::decimal::{parse_i64, parse_u64, push_i64, push_u64};
use chat_server::error::CursorError;

#[test]
fn cursor_starts_at_zero_and_moves() {
    let data = b"abc";
    let mut src = Cursor::new(data);
    assert_eq!(src.position(), 0);
    assert_eq!(src.get_ref(), b"abc");
    src.set_position(2);
    assert_eq!(src.position(), 2);
    assert_eq!(byte(&mut src), Ok(b'c'));
    assert_eq!(src.position(), 3);
    assert_eq!(byte(&mut src), Err(CursorError::Underflow));
    assert_eq!(src.position(), 3);
}

#[test]
fn cursor_past_the_end_has_nothing_left() {
    let mut src = Cursor::new(b"abc");
    src.set_position(10);
    assert_eq!(byte(&mut src), Err(CursorError::Underflow));
    assert_eq!(slice(&mut src, 0), Ok(&b""[..]));
    assert_eq!(cursor::line(&mut src), Err(CursorError::Underflow));
    assert_eq!(src.position(), 10);
}

#[test]
fn slice_takes_exactly_what_is_asked() {
    let mut src = Cursor::new(b"hello world");
    assert_eq!(slice(&mut src, 5), Ok(&b"hello"[..]));
    assert_eq!(src.position(), 5);
    assert_eq!(slice(&mut src, 7), Err(CursorError::Underflow));
    assert_eq!(src.position(), 5);
    assert_eq!(slice(&mut src, 6), Ok(&b" world"[..]));
    assert_eq!(slice(&mut src, u64::MAX), Err(CursorError::Underflow));
}

#[test]
fn line_ends_at_the_first_cr_lf() {
    let mut src = Cursor::new(b"one\r\ntwo\rx\ny\r\n\r\nrest");
    assert_eq!(cursor::line(&mut src), Ok(&b"one"[..]));
    assert_eq!(src.position(), 5);
    assert_eq!(cursor::line(&mut src), Ok(&b"two\rx\ny"[..]));
    assert_eq!(src.position(), 14);
    assert_eq!(cursor::line(&mut src), Ok(&b""[..]));
    assert_eq!(src.position(), 16);
    assert_eq!(cursor::line(&mut src), Err(CursorError::Underflow));
    assert_eq!(src.position(), 16);
}

#[test]
fn size_reads_an_unsigned_line() {
    let mut src = Cursor::new(b"42\r\n18446744073709551615\r\n18446744073709551616\r\n");
    assert_eq!(size(&mut src), Ok(42));
    assert_eq!(size(&mut src), Ok(u64::MAX));
    let at = src.position();
    assert_eq!(size(&mut src), Err(CursorError::OutOfRange));
    assert_eq!(src.position(), at);
    let mut src = Cursor::new(b"-1\r\n");
    assert_eq!(size(&mut src), Err(CursorError::OutOfRange));
    let mut src = Cursor::new(b"12");
    assert_eq!(size(&mut src), Err(CursorError::Underflow));
}

#[test]
fn integer_reads_a_signed_line() {
    let mut src = Cursor::new(b"-17\r\n0\r\n-0\r\n1x\r\n");
    assert_eq!(integer(&mut src), Ok(-17));
    assert_eq!(integer(&mut src), Ok(0));
    assert_eq!(integer(&mut src), Ok(0));
    let at = src.position();
    assert_eq!(integer(&mut src), Err(CursorError::OutOfRange));
    assert_eq!(src.position(), at);
}

#[test]
fn numerals_are_read() {
    assert_eq!(parse_u64(b"0"), Some(0));
    assert_eq!(parse_u64(b"000123"), Some(123));
    assert_eq!(parse_u64(b"18446744073709551615"), Some(u64::MAX));
    assert_eq!(parse_u64(b"18446744073709551616"), None);
    assert_eq!(parse_u64(b"99999999999999999999999"), None);
    assert_eq!(parse_u64(b""), None);
    assert_eq!(parse_u64(b"12 "), None);
    assert_eq!(parse_u64(b"-1"), None);
    assert_eq!(parse_i64(b"-1"), Some(-1));
    assert_eq!(parse_i64(b"9223372036854775807"), Some(i64::MAX));
    assert_eq!(parse_i64(b"9223372036854775808"), None);
    assert_eq!(parse_i64(b"-9223372036854775808"), Some(i64::MIN));
    assert_eq!(parse_i64(b"-9223372036854775809"), None);
    assert_eq!(parse_i64(b"-"), None);
    assert_eq!(parse_i64(b"--1"), None);
    assert_eq!(parse_i64(b""), None);
}

#[test]
fn numerals_are_written() {
    let mut out: Vec<u8> = Vec::new();
    push_u64(&mut out, 0);
    out.push(b' ');
    push_u64(&mut out, 10);
    out.push(b' ');
    push_u64(&mut out, u64::MAX);
    out.push(b' ');
    push_i64(&mut out, -5);
    out.push(b' ');
    push_i64(&mut out, i64::MIN);
    assert_eq!(out, b"0 10 18446744073709551615 -5 -9223372036854775808");
}

#[test]
fn written_numerals_read_back() {
    for v in [0u64, 1, 9, 10, 99, 100, 12345678901234567890, u64::MAX] {
        let mut out: Vec<u8> = Vec::new();
        push_u64(&mut out, v);
        assert_eq!(parse_u64(&out), Some(v));
    }
    for v in [0i64, -1, 1, i64::MIN, i64::MAX, -1000000007] {
        let mut out: Vec<u8> = Vec::new();
        push_i64(&mut out, v);
        assert_eq!(parse_i64(&out), Some(v));
    }
}
