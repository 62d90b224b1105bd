use rkvs::conn::Connection;
use rkvs::Command;

#[test]
fn ingest_whole_line() {
    let mut c = Connection::new();
    let cmds = c.ingest(b"PUT a 1\n");
    assert_eq!(cmds, vec![Command::Put(b"a".to_vec(), b"1".to_vec())]);
}

#[test]
fn ingest_split_line() {
    // Splitting the stream at an arbitrary read boundary yields the same
    // commands as one delivery.
    let mut c = Connection::new();
    let first = c.ingest(b"PUT a");
    assert!(first.is_empty());
    let second = c.ingest(b" 1\n");
    assert_eq!(second, vec![Command::Put(b"a".to_vec(), b"1".to_vec())]);
}

#[test]
fn ingest_byte_by_byte() {
    let mut c = Connection::new();
    let mut all = Vec::new();
    for b in b"GET x\nGET y\n" {
        all.extend(c.ingest(&[*b]));
    }
    assert_eq!(
        all,
        vec![Command::Get(b"x".to_vec()), Command::Get(b"y".to_vec())]
    );
}

#[test]
fn ingest_keeps_partial_frame() {
    let mut c = Connection::new();
    let cmds = c.ingest(b"GET x\nGET y");
    assert_eq!(cmds, vec![Command::Get(b"x".to_vec())]);
    let cmds = c.ingest(b"\n");
    assert_eq!(cmds, vec![Command::Get(b"y".to_vec())]);
}

#[test]
fn ingest_nothing_is_spurious() {
    // A wakeup that delivered no bytes extracts nothing and loses nothing.
    let mut c = Connection::new();
    let cmds = c.ingest(b"GET x");
    assert!(cmds.is_empty());
    let cmds = c.ingest(b"");
    assert!(cmds.is_empty());
    let cmds = c.ingest(b"\n");
    assert_eq!(cmds, vec![Command::Get(b"x".to_vec())]);
}

#[test]
fn ingest_empty_frame_is_malformed() {
    let mut c = Connection::new();
    let cmds = c.ingest(b"\n\n");
    assert_eq!(cmds, vec![Command::Malformed, Command::Malformed]);
}

#[test]
fn ingest_suppresses_readable() {
    let mut c = Connection::new();
    c.arm_readable();
    assert!(c.interest().readable);
    c.ingest(b"GET x\n");
    assert!(!c.interest().readable);
    c.arm_readable();
    assert!(c.interest().readable);
}

#[test]
fn enqueue_appends_delimiter_and_arms_writable() {
    let mut c = Connection::new();
    assert!(!c.interest().writable);
    c.enqueue_response(b"OK");
    assert_eq!(c.pending_output(), b"OK\n".to_vec());
    assert!(c.interest().writable);
}

#[test]
fn partial_write_completes_exactly_once() {
    // A drain interrupted after 2 of 6 bytes, then a drain of the rest:
    // every byte leaves once, none duplicated, none dropped.
    let mut c = Connection::new();
    c.enqueue_response(b"hello");
    let queued = c.pending_output();
    assert_eq!(queued, b"hello\n".to_vec());

    let mut wire = Vec::new();
    wire.extend_from_slice(&queued[..2]);
    c.consume_written(2);
    assert!(c.interest().writable);
    assert_eq!(c.pending_output(), b"llo\n".to_vec());

    let rest = c.pending_output();
    wire.extend_from_slice(&rest);
    c.consume_written(rest.len());
    assert_eq!(wire, b"hello\n".to_vec());
    assert!(c.pending_output().is_empty());
    assert!(!c.interest().writable);
}

#[test]
fn full_write_clears_writable() {
    let mut c = Connection::new();
    c.enqueue_response(b"blue");
    let n = c.pending_output().len();
    c.consume_written(n);
    assert!(!c.interest().writable);
    assert!(c.pending_output().is_empty());
}
