use kvserver::server::{Action, ConnTable, Event, ServerState};

#[test]
fn conn_table_tracks_without_duplicates() {
    let mut t = ConnTable::new();
    assert_eq!(t.len(), 0);
    t.insert(4);
    t.insert(5);
    t.insert(4);
    assert_eq!(t.len(), 2);
    assert!(t.contains(4));
    assert!(t.contains(5));
    assert!(!t.contains(6));
    assert_eq!(t.fd_at(0), 4);
    assert_eq!(t.fd_at(1), 5);
    assert!(t.remove(4));
    assert!(!t.remove(4));
    assert_eq!(t.len(), 1);
    assert!(t.contains(5));
}

#[test]
fn watch_list_is_listener_plus_connections() {
    let mut t = ConnTable::new();
    t.insert(7);
    t.insert(9);
    assert_eq!(t.watch_fds(3), vec![3, 7, 9]);
    let empty = ConnTable::new();
    assert_eq!(empty.watch_fds(3), vec![3]);
}

#[test]
fn accepting_grows_the_table_and_disturbs_nothing() {
    let mut s = ServerState::new();
    for fd in [5, 6, 7] {
        assert!(matches!(s.step(Event::Accepted { fd }), Action::Idle));
    }
    assert_eq!(s.conns.len(), 3);
    assert!(matches!(s.step(Event::Accepted { fd: 8 }), Action::Idle));
    assert_eq!(s.conns.len(), 4);
    for fd in [5, 6, 7, 8] {
        assert!(s.conns.contains(fd));
    }
}

#[test]
fn ticks_and_failures_change_nothing() {
    let mut s = ServerState::new();
    s.step(Event::Accepted { fd: 5 });
    assert!(matches!(s.step(Event::Tick), Action::Idle));
    assert!(matches!(s.step(Event::PollFailed), Action::Idle));
    assert!(matches!(s.step(Event::AcceptFailed), Action::Idle));
    assert_eq!(s.conns.len(), 1);
    assert!(s.conns.contains(5));
}

#[test]
fn input_replies_on_the_same_descriptor() {
    let mut s = ServerState::new();
    s.step(Event::Accepted { fd: 5 });
    match s.step(Event::Input { fd: 5, data: b"SET k v\n".to_vec() }) {
        Action::Reply { fd, data } => {
            assert_eq!(fd, 5);
            assert_eq!(data, b"OK\n".to_vec());
        }
        _ => panic!("expected a reply"),
    }
    match s.step(Event::Input { fd: 5, data: b"GET k\n".to_vec() }) {
        Action::Reply { fd, data } => {
            assert_eq!(fd, 5);
            assert_eq!(data, b"v\n".to_vec());
        }
        _ => panic!("expected a reply"),
    }
    assert!(s.conns.contains(5));
}

#[test]
fn quit_closes_and_unregisters_the_connection() {
    let mut s = ServerState::new();
    s.step(Event::Accepted { fd: 5 });
    s.step(Event::Accepted { fd: 6 });
    match s.step(Event::Input { fd: 5, data: b"QUIT\n".to_vec() }) {
        Action::Close { fd } => assert_eq!(fd, 5),
        _ => panic!("expected a close"),
    }
    assert!(!s.conns.contains(5));
    assert!(s.conns.contains(6));
}

#[test]
fn broken_connections_are_dropped_silently() {
    let mut s = ServerState::new();
    s.step(Event::Accepted { fd: 5 });
    s.step(Event::Accepted { fd: 6 });
    match s.step(Event::Gone { fd: 6 }) {
        Action::Close { fd } => assert_eq!(fd, 6),
        _ => panic!("expected a close"),
    }
    assert!(s.conns.contains(5));
    assert!(!s.conns.contains(6));
}

#[test]
fn two_clients_see_one_serialized_store() {
    let mut s = ServerState::new();
    s.step(Event::Accepted { fd: 5 });
    s.step(Event::Accepted { fd: 6 });
    // client 5 writes; client 6 reads the same store, one command at a time
    match s.step(Event::Input { fd: 5, data: b"SET shared 1\n".to_vec() }) {
        Action::Reply { data, .. } => assert_eq!(data, b"OK\n".to_vec()),
        _ => panic!("expected a reply"),
    }
    match s.step(Event::Input { fd: 6, data: b"INCR shared\n".to_vec() }) {
        Action::Reply { fd, data } => {
            assert_eq!(fd, 6);
            assert_eq!(data, b"2\n".to_vec());
        }
        _ => panic!("expected a reply"),
    }
    match s.step(Event::Input { fd: 5, data: b"GET shared\n".to_vec() }) {
        Action::Reply { fd, data } => {
            assert_eq!(fd, 5);
            assert_eq!(data, b"2\n".to_vec());
        }
        _ => panic!("expected a reply"),
    }
}
