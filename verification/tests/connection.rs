use ping_counter::connection::{Connection, Interest, Io, Polled, State};
use ping_counter::error::ConnectionError;

fn read(text: &str) -> Io {
    Io::Read(text.as_bytes().to_vec())
}

const WAITING: Polled = Polled { progress: false, error: None };
const MOVED: Polled = Polled { progress: true, error: None };

#[test]
fn a_fresh_connection_waits_for_a_line() {
    let conn = Connection::new(17);
    assert_eq!(conn.id(), 17);
    assert!(matches!(conn.state(), State::ReceivingLine));
    assert_eq!(conn.interest(), Interest::Read);
    assert!(!conn.is_closed());
    assert_eq!(conn.pending(), b"");
}

#[test]
fn ping_raises_the_counter_and_queues_the_new_count() {
    let mut conn = Connection::new(0);
    let mut pings = 41;
    assert_eq!(conn.poll(&mut pings, &read("ping\n")), MOVED);
    assert_eq!(pings, 42);
    assert!(matches!(conn.state(), State::Flushing));
    assert_eq!(conn.interest(), Interest::Write);
    assert_eq!(conn.pending(), b"42\n");
}

#[test]
fn the_connection_reads_again_once_the_reply_is_written() {
    let mut conn = Connection::new(0);
    let mut pings = 0;
    conn.poll(&mut pings, &read("ping\n"));
    assert_eq!(conn.poll(&mut pings, &Io::Wrote(2)), MOVED);
    assert!(matches!(conn.state(), State::ReceivingLine));
    assert_eq!(conn.interest(), Interest::Read);
    assert_eq!(conn.pending(), b"");
    assert_eq!(pings, 1);
}

#[test]
fn wrong_case_and_longer_words_get_no_reply() {
    let mut conn = Connection::new(0);
    let mut pings = 3;
    assert_eq!(conn.poll(&mut pings, &read("pingx\n")), MOVED);
    assert_eq!(pings, 3);
    assert_eq!(conn.pending(), b"");
    assert!(matches!(conn.state(), State::ReceivingLine));
    assert_eq!(conn.poll(&mut pings, &read("PING\n")), MOVED);
    assert_eq!(pings, 3);
    assert_eq!(conn.pending(), b"");
    assert!(matches!(conn.state(), State::ReceivingLine));
}

#[test]
fn lines_other_than_ping_are_dropped_one_after_the_other() {
    let mut conn = Connection::new(0);
    let mut pings = 0;
    conn.poll(&mut pings, &read("hello\n\nping pong\n ping\nPing\n"));
    assert_eq!(pings, 0);
    assert_eq!(conn.pending(), b"");
    assert_eq!(conn.interest(), Interest::Read);
}

#[test]
fn a_ping_behind_other_lines_is_found_in_the_same_poll() {
    let mut conn = Connection::new(0);
    let mut pings = 9;
    conn.poll(&mut pings, &read("a\nb\nping\n"));
    assert_eq!(pings, 10);
    assert_eq!(conn.pending(), b"10\n");
}

#[test]
fn a_socket_that_asks_to_wait_changes_nothing() {
    let mut conn = Connection::new(0);
    let mut pings = 5;
    assert_eq!(conn.poll(&mut pings, &Io::WouldBlock), WAITING);
    assert_eq!(pings, 5);
    assert_eq!(conn.interest(), Interest::Read);
    conn.poll(&mut pings, &read("ping\n"));
    assert_eq!(conn.poll(&mut pings, &Io::WouldBlock), WAITING);
    assert_eq!(conn.pending(), b"6\n");
    assert!(matches!(conn.state(), State::Flushing));
    assert_eq!(pings, 6);
}

#[test]
fn a_ping_may_arrive_in_pieces() {
    let mut conn = Connection::new(0);
    let mut pings = 0;
    assert_eq!(conn.poll(&mut pings, &read("pi")), MOVED);
    assert_eq!(pings, 0);
    assert_eq!(conn.poll(&mut pings, &read("ng")), MOVED);
    assert_eq!(pings, 0);
    assert_eq!(conn.poll(&mut pings, &read("\n")), MOVED);
    assert_eq!(pings, 1);
    assert_eq!(conn.pending(), b"1\n");
}

#[test]
fn the_second_ping_of_one_read_waits_for_the_first_reply() {
    let mut conn = Connection::new(0);
    let mut pings = 0;
    conn.poll(&mut pings, &read("ping\nping\n"));
    assert_eq!(pings, 1);
    assert_eq!(conn.pending(), b"1\n");
    conn.poll(&mut pings, &Io::Wrote(2));
    assert_eq!(pings, 2);
    assert_eq!(conn.pending(), b"2\n");
    assert!(matches!(conn.state(), State::Flushing));
    conn.poll(&mut pings, &Io::Wrote(2));
    assert_eq!(pings, 2);
    assert!(matches!(conn.state(), State::ReceivingLine));
}

#[test]
fn a_reply_is_written_in_full_one_byte_at_a_time() {
    let mut conn = Connection::new(0);
    let mut pings = 1234566;
    conn.poll(&mut pings, &read("ping\n"));
    let mut wire = Vec::new();
    while conn.interest() == Interest::Write {
        wire.push(conn.pending()[0]);
        assert_eq!(conn.poll(&mut pings, &Io::Wrote(1)), MOVED);
    }
    assert_eq!(wire, b"1234567\n");
    assert!(matches!(conn.state(), State::ReceivingLine));
    assert_eq!(pings, 1234567);
}

#[test]
fn a_reply_survives_a_socket_that_keeps_asking_to_wait() {
    let mut conn = Connection::new(0);
    let mut pings = 99;
    conn.poll(&mut pings, &read("ping\n"));
    let mut wire = Vec::new();
    while conn.interest() == Interest::Write {
        assert_eq!(conn.poll(&mut pings, &Io::WouldBlock), WAITING);
        wire.push(conn.pending()[0]);
        conn.poll(&mut pings, &Io::Wrote(1));
    }
    assert_eq!(wire, b"100\n");
    assert_eq!(pings, 100);
}

#[test]
fn the_end_of_the_stream_closes_the_connection() {
    let mut conn = Connection::new(0);
    let mut pings = 0;
    assert_eq!(conn.poll(&mut pings, &Io::Read(vec![])), MOVED);
    assert!(conn.is_closed());
    assert!(matches!(conn.state(), State::Closed));
    assert_eq!(conn.interest(), Interest::Nothing);
}

#[test]
fn the_end_of_the_stream_inside_a_line_is_an_io_error() {
    let mut conn = Connection::new(0);
    let mut pings = 0;
    conn.poll(&mut pings, &read("pin"));
    assert_eq!(
        conn.poll(&mut pings, &Io::Read(vec![])),
        Polled { progress: true, error: Some(ConnectionError::Io) }
    );
    assert!(conn.is_closed());
    assert_eq!(pings, 0);
}

#[test]
fn a_failed_socket_closes_the_connection() {
    let mut conn = Connection::new(0);
    let mut pings = 0;
    assert_eq!(
        conn.poll(&mut pings, &Io::Failed),
        Polled { progress: true, error: Some(ConnectionError::Io) }
    );
    assert!(conn.is_closed());
}

#[test]
fn a_failed_write_abandons_the_reply() {
    let mut conn = Connection::new(0);
    let mut pings = 0;
    conn.poll(&mut pings, &read("ping\n"));
    assert_eq!(
        conn.poll(&mut pings, &Io::Failed),
        Polled { progress: true, error: Some(ConnectionError::Io) }
    );
    assert!(conn.is_closed());
    assert_eq!(pings, 1);
}

#[test]
fn malformed_bytes_close_the_connection() {
    let mut conn = Connection::new(0);
    let mut pings = 7;
    assert_eq!(
        conn.poll(&mut pings, &Io::Read(vec![0xff, b'\n'])),
        Polled { progress: true, error: Some(ConnectionError::MalformedFrame) }
    );
    assert!(conn.is_closed());
    assert_eq!(pings, 7);
}

#[test]
fn a_ping_before_malformed_bytes_is_still_answered() {
    let mut conn = Connection::new(0);
    let mut pings = 0;
    let mut bytes = b"ping\n".to_vec();
    bytes.extend_from_slice(&[0x80, b'\n']);
    assert_eq!(conn.poll(&mut pings, &Io::Read(bytes)), MOVED);
    assert_eq!(pings, 1);
    assert_eq!(conn.pending(), b"1\n");
    assert_eq!(
        conn.poll(&mut pings, &Io::Wrote(2)),
        Polled { progress: true, error: Some(ConnectionError::MalformedFrame) }
    );
    assert!(conn.is_closed());
}

#[test]
fn a_write_of_no_byte_closes_the_connection() {
    let mut conn = Connection::new(0);
    let mut pings = 0;
    conn.poll(&mut pings, &read("ping\n"));
    assert_eq!(
        conn.poll(&mut pings, &Io::Wrote(0)),
        Polled { progress: true, error: Some(ConnectionError::Io) }
    );
    assert!(conn.is_closed());
}

#[test]
fn an_outcome_that_was_not_asked_for_closes_the_connection() {
    let mut reading = Connection::new(0);
    let mut pings = 0;
    assert_eq!(
        reading.poll(&mut pings, &Io::Wrote(1)),
        Polled { progress: true, error: Some(ConnectionError::Io) }
    );
    assert!(reading.is_closed());

    let mut writing = Connection::new(1);
    writing.poll(&mut pings, &read("ping\n"));
    assert_eq!(
        writing.poll(&mut pings, &read("ping\n")),
        Polled { progress: true, error: Some(ConnectionError::Io) }
    );
    assert!(writing.is_closed());
    assert_eq!(pings, 1);
}

#[test]
fn a_closed_connection_stays_closed() {
    let mut conn = Connection::new(0);
    let mut pings = 0;
    conn.poll(&mut pings, &Io::Read(vec![]));
    assert!(conn.is_closed());
    assert_eq!(conn.poll(&mut pings, &read("ping\n")), WAITING);
    assert_eq!(conn.poll(&mut pings, &Io::Wrote(1)), WAITING);
    assert_eq!(conn.poll(&mut pings, &Io::Failed), WAITING);
    assert_eq!(conn.poll(&mut pings, &Io::WouldBlock), WAITING);
    assert!(conn.is_closed());
    assert_eq!(pings, 0);
    assert_eq!(conn.pending(), b"");
}

#[test]
fn lines_buffered_before_the_end_are_still_answered() {
    let mut conn = Connection::new(0);
    let mut pings = 0;
    conn.poll(&mut pings, &read("ping\nping\n"));
    conn.poll(&mut pings, &Io::Wrote(2));
    assert_eq!(conn.pending(), b"2\n");
    conn.poll(&mut pings, &Io::Wrote(2));
    assert_eq!(conn.interest(), Interest::Read);
    conn.poll(&mut pings, &Io::Read(vec![]));
    assert!(conn.is_closed());
    assert_eq!(pings, 2);
}

/// Runs one connection over `input`, read in pieces of `chunk` bytes and
/// written in pieces of at most `take` bytes, and returns what went out.
fn converse(input: &[u8], chunk: usize, take: usize, pings: &mut u64) -> Vec<u8> {
    let mut conn = Connection::new(0);
    let mut wire = Vec::new();
    let mut rest = input;
    loop {
        match conn.interest() {
            Interest::Read => {
                let n = chunk.min(rest.len());
                conn.poll(pings, &Io::Read(rest[..n].to_vec()));
                rest = &rest[n..];
            }
            Interest::Write => {
                let n = take.min(conn.pending().len());
                wire.extend_from_slice(&conn.pending()[..n]);
                conn.poll(pings, &Io::Wrote(n));
            }
            Interest::Nothing => return wire,
        }
    }
}

#[test]
fn the_replies_do_not_depend_on_how_the_bytes_travel() {
    let input = b"ping\nfoo\nping\n\nping\nPING\npingping\nping\n";
    for chunk in 1..=input.len() {
        for take in 1..=4 {
            let mut pings = 0;
            assert_eq!(converse(input, chunk, take, &mut pings), b"1\n2\n3\n4\n");
            assert_eq!(pings, 4);
        }
    }
}

#[test]
fn one_reply_for_each_ping_whatever_the_counter_was() {
    let mut pings = 9_999_997;
    let out = converse(b"ping\nping\nping\nping\n", 3, 2, &mut pings);
    assert_eq!(out, b"9999998\n9999999\n10000000\n10000001\n");
    assert_eq!(pings, 10_000_001);
}

#[test]
fn a_stream_without_ping_is_never_answered() {
    let mut pings = 5;
    let out = converse(b"hello\npong\nPING\n ping\nping \n\n", 4, 1, &mut pings);
    assert_eq!(out, b"");
    assert_eq!(pings, 5);
}
