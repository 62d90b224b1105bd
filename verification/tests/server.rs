use rkvs::server::{route_event, Action, Server};

#[test]
fn end_to_end_scenario() {
    let mut srv = Server::new();
    let h = srv.on_accept();

    assert!(srv.on_data(h, b"PUT color blue\n"));
    assert_eq!(srv.pending_output(h), Some(b"OK\n".to_vec()));
    let n = srv.pending_output(h).unwrap().len();
    assert!(srv.on_written(h, n));
    assert!(srv.rearm_readable(h));

    assert!(srv.on_data(h, b"GET color\n"));
    assert_eq!(srv.pending_output(h), Some(b"blue\n".to_vec()));
    let n = srv.pending_output(h).unwrap().len();
    assert!(srv.on_written(h, n));
    assert!(srv.rearm_readable(h));

    assert!(srv.on_data(h, b"GET size\n"));
    assert_eq!(srv.pending_output(h), Some(b"ERR not found\n".to_vec()));
    let n = srv.pending_output(h).unwrap().len();
    assert!(srv.on_written(h, n));
    assert!(srv.rearm_readable(h));

    assert!(srv.on_data(h, b"DELETE color\n"));
    assert_eq!(srv.pending_output(h), Some(b"ERR invalid command\n".to_vec()));
    let n = srv.pending_output(h).unwrap().len();
    assert!(srv.on_written(h, n));

    assert!(srv.drop_connection(h));

    // The server keeps accepting after a disconnect.
    let h2 = srv.on_accept();
    assert_ne!(h, h2);
    assert!(srv.on_data(h2, b"GET color\n"));
    assert_eq!(srv.pending_output(h2), Some(b"blue\n".to_vec()));
}

#[test]
fn teardown_isolation() {
    let mut srv = Server::new();
    let x = srv.on_accept();
    let y = srv.on_accept();

    assert!(srv.on_data(y, b"PUT color blue\n"));
    assert_eq!(srv.pending_output(y), Some(b"OK\n".to_vec()));

    // An induced fatal error on X tears X down and nothing else.
    assert!(srv.drop_connection(x));
    assert_eq!(srv.pending_output(x), None);

    // Y's pending response is intact, and the store still answers via Y.
    assert_eq!(srv.pending_output(y), Some(b"OK\n".to_vec()));
    let n = srv.pending_output(y).unwrap().len();
    assert!(srv.on_written(y, n));
    assert!(srv.rearm_readable(y));
    assert!(srv.on_data(y, b"GET color\n"));
    assert_eq!(srv.pending_output(y), Some(b"blue\n".to_vec()));
}

#[test]
fn stale_handle_is_ignored() {
    let mut srv = Server::new();
    let h = srv.on_accept();
    assert!(srv.drop_connection(h));
    // A readiness event for the removed handle, still in flight from the
    // same poll batch, resolves to nothing.
    assert!(!srv.on_data(h, b"GET color\n"));
    assert!(!srv.on_written(h, 0));
    assert!(!srv.rearm_readable(h));
    assert!(!srv.drop_connection(h));
    assert_eq!(srv.interest_of(h), None);
}

#[test]
fn handles_are_not_reused() {
    let mut srv = Server::new();
    let a = srv.on_accept();
    srv.drop_connection(a);
    let b = srv.on_accept();
    assert_ne!(a, b);
}

#[test]
fn multiple_commands_one_batch() {
    let mut srv = Server::new();
    let h = srv.on_accept();
    assert!(srv.on_data(h, b"PUT a 1\nGET a\nGET b\n"));
    assert_eq!(
        srv.pending_output(h),
        Some(b"OK\n1\nERR not found\n".to_vec())
    );
}

#[test]
fn partial_write_through_server() {
    let mut srv = Server::new();
    let h = srv.on_accept();
    assert!(srv.on_data(h, b"PUT a 1\n"));
    assert!(srv.interest_of(h).unwrap().writable);
    assert!(srv.on_written(h, 1));
    assert_eq!(srv.pending_output(h), Some(b"K\n".to_vec()));
    assert!(srv.interest_of(h).unwrap().writable);
    assert!(srv.on_written(h, 2));
    assert_eq!(srv.pending_output(h), Some(Vec::new()));
    assert!(!srv.interest_of(h).unwrap().writable);
}

#[test]
fn interest_lifecycle() {
    let mut srv = Server::new();
    let h = srv.on_accept();
    let it = srv.interest_of(h).unwrap();
    assert!(it.readable && !it.writable && it.hangup);
    srv.on_data(h, b"GET a\n");
    let it = srv.interest_of(h).unwrap();
    assert!(!it.readable && it.writable);
    srv.rearm_readable(h);
    assert!(srv.interest_of(h).unwrap().readable);
}

#[test]
fn route_listener_readable() {
    assert_eq!(route_event(1, 1, true, false), vec![Action::Accept]);
}

#[test]
fn route_client_readable_and_writable() {
    assert_eq!(
        route_event(1, 7, true, true),
        vec![Action::ReadConn(7), Action::WriteConn(7)]
    );
}

#[test]
fn route_listener_writable_ignored() {
    assert_eq!(route_event(1, 1, false, true), Vec::<Action>::new());
}

#[test]
fn route_client_writable() {
    assert_eq!(route_event(1, 9, false, true), vec![Action::WriteConn(9)]);
}
