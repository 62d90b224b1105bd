use rkvs::conn::Connection;
use rkvs::registry::Registry;

#[test]
fn registry_insert_and_remove() {
    let mut r = Registry::new();
    let h = r.insert(Connection::new());
    assert!(r.contains(h));
    assert!(r.remove(h).is_some());
    assert!(!r.contains(h));
    assert!(r.remove(h).is_none());
}

#[test]
fn registry_handles_unique() {
    let mut r = Registry::new();
    let a = r.insert(Connection::new());
    let b = r.insert(Connection::new());
    assert_ne!(a, b);
    r.remove(a);
    let c = r.insert(Connection::new());
    assert_ne!(a, c);
    assert_ne!(b, c);
}

#[test]
fn registry_keeps_connection_state() {
    let mut r = Registry::new();
    let mut conn = Connection::new();
    conn.enqueue_response(b"hi");
    let h = r.insert(conn);
    assert_eq!(r.pending_of(h), Some(b"hi\n".to_vec()));
    assert!(r.interest_of(h).unwrap().writable);
    let back = r.remove(h).unwrap();
    assert_eq!(back.pending_output(), b"hi\n".to_vec());
}
