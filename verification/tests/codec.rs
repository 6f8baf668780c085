use ping_counter::codec::{Codec, Flush, Frame};
use ping_counter::error::ConnectionError;
use ping_counter::line::Line;

fn expect_line(codec: &mut Codec, text: &[u8]) {
    match codec.next_line() {
        Ok(Frame::Line(line)) => assert_eq!(line.as_bytes(), text),
        other => panic!("expected a line, got {:?}", other),
    }
}

#[test]
fn new_codec_has_nothing_to_give() {
    let mut codec = Codec::new();
    assert!(matches!(codec.next_line(), Ok(Frame::Pending)));
    assert!(codec.ready());
    assert_eq!(codec.pending(), b"");
}

#[test]
fn decodes_a_buffered_line_without_its_delimiter() {
    let mut codec = Codec::new();
    codec.feed(b"hello\n");
    expect_line(&mut codec, b"hello");
    assert!(matches!(codec.next_line(), Ok(Frame::Pending)));
}

#[test]
fn a_partial_line_waits_for_its_delimiter() {
    let mut codec = Codec::new();
    codec.feed(b"pi");
    assert!(matches!(codec.next_line(), Ok(Frame::Pending)));
    codec.feed(b"ng");
    assert!(matches!(codec.next_line(), Ok(Frame::Pending)));
    codec.feed(b"\nrest");
    expect_line(&mut codec, b"ping");
    assert!(matches!(codec.next_line(), Ok(Frame::Pending)));
    codec.feed(b"\n");
    expect_line(&mut codec, b"rest");
}

#[test]
fn several_lines_of_one_read_come_out_in_order() {
    let mut codec = Codec::new();
    codec.feed(b"one\ntwo\n\nfour\n");
    expect_line(&mut codec, b"one");
    expect_line(&mut codec, b"two");
    expect_line(&mut codec, b"");
    expect_line(&mut codec, b"four");
    assert!(matches!(codec.next_line(), Ok(Frame::Pending)));
}

#[test]
fn an_empty_line_is_a_line() {
    let mut codec = Codec::new();
    codec.feed(b"\n");
    expect_line(&mut codec, b"");
}

#[test]
fn only_one_delimiter_is_stripped() {
    let mut codec = Codec::new();
    codec.feed(b"a\r\n");
    expect_line(&mut codec, b"a\r");
}

#[test]
fn text_beyond_ascii_is_decoded() {
    let mut codec = Codec::new();
    codec.feed("z\u{e9}ro \u{4e16}\u{754c} \u{1f980}\n".as_bytes());
    expect_line(&mut codec, "z\u{e9}ro \u{4e16}\u{754c} \u{1f980}".as_bytes());
}

#[test]
fn the_stream_ends_after_its_last_line() {
    let mut codec = Codec::new();
    codec.feed(b"bye\n");
    codec.exhaust();
    expect_line(&mut codec, b"bye");
    assert!(matches!(codec.next_line(), Ok(Frame::End)));
    assert!(matches!(codec.next_line(), Ok(Frame::End)));
}

#[test]
fn an_empty_stream_ends_at_once() {
    let mut codec = Codec::new();
    codec.exhaust();
    assert!(matches!(codec.next_line(), Ok(Frame::End)));
}

#[test]
fn a_stream_that_ends_inside_a_line_fails() {
    let mut codec = Codec::new();
    codec.feed(b"whole\nhal");
    codec.exhaust();
    expect_line(&mut codec, b"whole");
    assert!(matches!(codec.next_line(), Err(ConnectionError::Io)));
}

#[test]
fn a_frame_that_is_not_utf8_is_malformed() {
    let mut codec = Codec::new();
    codec.feed(&[0xff, 0xfe, b'\n']);
    assert!(matches!(codec.next_line(), Err(ConnectionError::MalformedFrame)));
}

#[test]
fn a_truncated_scalar_is_malformed() {
    let mut codec = Codec::new();
    codec.feed(&[b'a', 0xe4, 0xb8, b'\n']);
    assert!(matches!(codec.next_line(), Err(ConnectionError::MalformedFrame)));
}

#[test]
fn an_overlong_encoding_is_malformed() {
    let mut codec = Codec::new();
    codec.feed(&[0xc0, 0x80, b'\n']);
    assert!(matches!(codec.next_line(), Err(ConnectionError::MalformedFrame)));
}

#[test]
fn a_surrogate_is_malformed() {
    let mut codec = Codec::new();
    codec.feed(&[0xed, 0xa0, 0x80, b'\n']);
    assert!(matches!(codec.next_line(), Err(ConnectionError::MalformedFrame)));
}

#[test]
fn a_scalar_beyond_the_last_code_point_is_malformed() {
    let mut codec = Codec::new();
    codec.feed(&[0xf4, 0x90, 0x80, 0x80, b'\n']);
    assert!(matches!(codec.next_line(), Err(ConnectionError::MalformedFrame)));
}

#[test]
fn a_stray_continuation_byte_is_malformed() {
    let mut codec = Codec::new();
    codec.feed(&[b'o', b'k', 0x80, b'\n']);
    assert!(matches!(codec.next_line(), Err(ConnectionError::MalformedFrame)));
}

#[test]
fn the_first_and_last_scalars_of_each_width_are_text() {
    let mut codec = Codec::new();
    let text = "\u{0}\u{7f}\u{80}\u{7ff}\u{800}\u{d7ff}\u{e000}\u{ffff}\u{10000}\u{10ffff}";
    codec.feed(text.as_bytes());
    codec.feed(b"\n");
    expect_line(&mut codec, text.as_bytes());
}

#[test]
fn a_malformed_frame_is_gone_after_the_error() {
    let mut codec = Codec::new();
    codec.feed(&[0xc0, b'\n', b'o', b'k', b'\n']);
    assert!(matches!(codec.next_line(), Err(ConnectionError::MalformedFrame)));
    expect_line(&mut codec, b"ok");
}

#[test]
fn malformed_bytes_without_delimiter_are_only_pending() {
    let mut codec = Codec::new();
    codec.feed(&[0xff, 0xff]);
    assert!(matches!(codec.next_line(), Ok(Frame::Pending)));
}

#[test]
fn accept_queues_the_line_and_one_delimiter() {
    let mut codec = Codec::new();
    assert!(codec.accept(&Line::decimal(12)));
    assert_eq!(codec.pending(), b"12\n");
    assert!(!codec.ready());
}

#[test]
fn accept_queues_text_beyond_ascii_unchanged() {
    let mut reader = Codec::new();
    reader.feed("gr\u{fc}n\n".as_bytes());
    let line = match reader.next_line() {
        Ok(Frame::Line(line)) => line,
        other => panic!("expected a line, got {:?}", other),
    };
    let mut codec = Codec::new();
    assert!(codec.accept(&line));
    assert_eq!(codec.pending(), "gr\u{fc}n\n".as_bytes());
}

#[test]
fn accept_is_refused_while_bytes_are_pending() {
    let mut codec = Codec::new();
    assert!(codec.accept(&Line::decimal(1)));
    assert!(!codec.accept(&Line::decimal(2)));
    assert_eq!(codec.pending(), b"1\n");
    assert_eq!(codec.flush(1), Ok(Flush::More));
    assert!(!codec.accept(&Line::decimal(2)));
    assert_eq!(codec.pending(), b"\n");
    assert_eq!(codec.flush(1), Ok(Flush::Done));
    assert!(codec.accept(&Line::decimal(2)));
    assert_eq!(codec.pending(), b"2\n");
}

#[test]
fn flush_in_one_write() {
    let mut codec = Codec::new();
    codec.accept(&Line::decimal(345));
    assert_eq!(codec.flush(4), Ok(Flush::Done));
    assert_eq!(codec.pending(), b"");
    assert!(codec.ready());
}

#[test]
fn flush_resumes_where_the_last_write_stopped() {
    let mut codec = Codec::new();
    codec.accept(&Line::decimal(123456));
    assert_eq!(codec.flush(2), Ok(Flush::More));
    assert_eq!(codec.pending(), b"3456\n");
    assert_eq!(codec.flush(4), Ok(Flush::More));
    assert_eq!(codec.pending(), b"\n");
    assert_eq!(codec.flush(1), Ok(Flush::Done));
    assert_eq!(codec.pending(), b"");
}

#[test]
fn flush_one_byte_at_a_time_sends_every_byte_once() {
    let mut codec = Codec::new();
    codec.accept(&Line::decimal(9876543210));
    let mut wire = Vec::new();
    let mut writes = 0;
    loop {
        wire.push(codec.pending()[0]);
        writes += 1;
        match codec.flush(1) {
            Ok(Flush::More) => {}
            Ok(Flush::Done) => break,
            Err(e) => panic!("flush failed: {:?}", e),
        }
    }
    assert_eq!(wire, b"9876543210\n");
    assert_eq!(writes, 11);
}

#[test]
fn a_write_of_no_byte_is_a_failure() {
    let mut codec = Codec::new();
    codec.accept(&Line::decimal(5));
    assert_eq!(codec.flush(0), Err(ConnectionError::Io));
    assert_eq!(codec.pending(), b"5\n");
}

#[test]
fn a_write_of_more_than_was_pending_is_a_failure() {
    let mut codec = Codec::new();
    codec.accept(&Line::decimal(5));
    assert_eq!(codec.flush(3), Err(ConnectionError::Io));
    assert_eq!(codec.pending(), b"5\n");
}

#[test]
fn a_write_with_nothing_pending_is_a_failure() {
    let mut codec = Codec::new();
    assert_eq!(codec.flush(1), Err(ConnectionError::Io));
    assert_eq!(codec.flush(0), Err(ConnectionError::Io));
}

#[test]
fn reading_and_writing_do_not_disturb_each_other() {
    let mut codec = Codec::new();
    codec.feed(b"in");
    codec.accept(&Line::decimal(1));
    codec.feed(b"put\n");
    assert_eq!(codec.pending(), b"1\n");
    expect_line(&mut codec, b"input");
    assert_eq!(codec.pending(), b"1\n");
}
