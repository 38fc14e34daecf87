use chat_server::registry::{Delivery, Registry};
use chat_server::session::{Session, SessionState};

fn to(recipient: &[u8], sink: u64, payload: &[u8]) -> Delivery {
    Delivery { recipient: recipient.to_vec(), sink, payload: payload.to_vec() }
}

fn joined(registry: &mut Registry, name: &[u8], sink: u64) -> Session {
    let mut s = Session::new(sink, 1024);
    s.begin();
    let mut line = name.to_vec();
    line.push(b'\n');
    let out = s.on_bytes(registry, &line);
    assert_eq!(out.len(), 1);
    assert_eq!(s.state(), SessionState::Active);
    s
}

#[test]
fn a_new_session_is_connecting_and_nameless() {
    let s = Session::new(5, 1024);
    assert_eq!(s.state(), SessionState::Connecting);
    assert_eq!(s.sink(), 5);
    assert_eq!(s.username(), None);
    assert!(!s.is_reading());
}

#[test]
fn begin_starts_registration_once() {
    let mut s = Session::new(5, 1024);
    s.begin();
    assert_eq!(s.state(), SessionState::Registering);
    assert!(s.is_reading());
    s.begin();
    assert_eq!(s.state(), SessionState::Registering);
}

#[test]
fn bytes_before_begin_are_ignored() {
    let mut r = Registry::new();
    let mut s = Session::new(5, 1024);
    assert_eq!(s.on_bytes(&mut r, b"alice\n"), vec![]);
    assert_eq!(s.state(), SessionState::Connecting);
    assert!(r.is_empty());
    s.begin();
    assert_eq!(s.on_bytes(&mut r, b"bob\n"), vec![to(b"bob", 5, b"Hello, bob!")]);
}

#[test]
fn the_first_frame_registers_and_is_greeted() {
    let mut r = Registry::new();
    let mut s = Session::new(5, 1024);
    s.begin();
    let out = s.on_bytes(&mut r, b"  alice \n");
    assert_eq!(out, vec![to(b"alice", 5, b"Hello, alice!")]);
    assert_eq!(s.state(), SessionState::Active);
    assert_eq!(s.username(), Some(&b"alice".to_vec()));
    assert_eq!(r.lookup(b"alice"), Some(5));
}

#[test]
fn a_name_split_over_reads_registers_once_complete() {
    let mut r = Registry::new();
    let mut s = Session::new(5, 1024);
    s.begin();
    assert_eq!(s.on_bytes(&mut r, b"ali"), vec![]);
    assert_eq!(s.state(), SessionState::Registering);
    assert!(r.is_empty());
    assert_eq!(s.on_bytes(&mut r, b"ce\nhi"), vec![to(b"alice", 5, b"Hello, alice!")]);
    assert_eq!(s.state(), SessionState::Active);
    assert_eq!(s.on_bytes(&mut r, b"\n"), vec![]);
}

#[test]
fn a_taken_name_is_told_so_and_never_joins() {
    let mut r = Registry::new();
    let _alice = joined(&mut r, b"alice", 1);
    let mut s = Session::new(2, 1024);
    s.begin();
    let out = s.on_bytes(&mut r, b"alice\n");
    assert_eq!(out, vec![to(b"", 2, b"username unavailable")]);
    assert_eq!(s.state(), SessionState::Closing);
    assert_eq!(s.username(), None);
    assert_eq!(r.list(), vec![b"alice".to_vec()]);
    assert_eq!(r.lookup(b"alice"), Some(1));
    assert_eq!(s.close(&mut r), vec![]);
    assert_eq!(s.state(), SessionState::Closed);
    assert_eq!(r.lookup(b"alice"), Some(1));
}

#[test]
fn a_blank_name_is_told_unavailable() {
    let mut r = Registry::new();
    let mut s = Session::new(2, 1024);
    s.begin();
    assert_eq!(s.on_bytes(&mut r, b"   \n"), vec![to(b"", 2, b"username unavailable")]);
    assert_eq!(s.state(), SessionState::Closing);
    assert!(r.is_empty());
}

#[test]
fn frames_after_a_refusal_are_not_handled() {
    let mut r = Registry::new();
    let _alice = joined(&mut r, b"alice", 1);
    let mut s = Session::new(2, 1024);
    s.begin();
    let out = s.on_bytes(&mut r, b"alice\nhello all\n");
    assert_eq!(out, vec![to(b"", 2, b"username unavailable")]);
    assert_eq!(s.on_bytes(&mut r, b"more\n"), vec![]);
    assert_eq!(s.state(), SessionState::Closing);
}

#[test]
fn the_whole_conversation() {
    let mut r = Registry::new();
    let mut alice = Session::new(1, 1024);
    let mut bob = Session::new(2, 1024);
    alice.begin();
    bob.begin();
    assert_eq!(alice.on_bytes(&mut r, b"alice\n"), vec![to(b"alice", 1, b"Hello, alice!")]);
    assert_eq!(bob.on_bytes(&mut r, b"bob\n"), vec![to(b"bob", 2, b"Hello, bob!")]);

    assert_eq!(alice.on_bytes(&mut r, b"hi\n"), vec![to(b"bob", 2, b"alice: hi")]);
    assert_eq!(
        bob.on_bytes(&mut r, b"@alice secret\n"),
        vec![to(b"alice", 1, b"*pm from bob: secret")]
    );
    assert_eq!(
        alice.on_bytes(&mut r, b"/\n"),
        vec![to(b"alice", 1, b"Connected clients: alice, bob")]
    );

    assert_eq!(bob.on_bytes(&mut r, b"disconnect\n"), vec![]);
    assert_eq!(bob.state(), SessionState::Closing);
    assert_eq!(bob.close(&mut r), vec![]);
    assert_eq!(bob.state(), SessionState::Closed);
    assert_eq!(bob.username(), None);
    assert_eq!(r.lookup(b"bob"), None);
    assert_eq!(r.list(), vec![b"alice".to_vec()]);

    let mut again = Session::new(3, 1024);
    again.begin();
    assert_eq!(again.on_bytes(&mut r, b"bob\n"), vec![to(b"bob", 3, b"Hello, bob!")]);
    assert_eq!(r.lookup(b"bob"), Some(3));
    assert_eq!(r.list(), vec![b"alice".to_vec(), b"bob".to_vec()]);
}

#[test]
fn several_commands_in_one_read_are_handled_in_order() {
    let mut r = Registry::new();
    let _bob = joined(&mut r, b"bob", 2);
    let mut s = Session::new(1, 1024);
    s.begin();
    let out = s.on_bytes(&mut r, b"alice\none\n@bob two\n@dave three\n/\n");
    assert_eq!(
        out,
        vec![
            to(b"alice", 1, b"Hello, alice!"),
            to(b"bob", 2, b"alice: one"),
            to(b"bob", 2, b"*pm from alice: two"),
            to(b"alice", 1, b"User not found"),
            to(b"alice", 1, b"Connected clients: bob, alice"),
        ]
    );
    assert_eq!(s.state(), SessionState::Active);
}

#[test]
fn a_direct_message_to_nobody_is_answered_and_the_session_goes_on() {
    let mut r = Registry::new();
    let _bob = joined(&mut r, b"bob", 2);
    let mut alice = joined(&mut r, b"alice", 1);
    assert_eq!(alice.on_bytes(&mut r, b"@dave hi\n"), vec![to(b"alice", 1, b"User not found")]);
    assert_eq!(alice.state(), SessionState::Active);
    assert_eq!(alice.on_bytes(&mut r, b"still here\n"), vec![to(b"bob", 2, b"alice: still here")]);
}

#[test]
fn frames_after_a_disconnect_are_not_handled() {
    let mut r = Registry::new();
    let _bob = joined(&mut r, b"bob", 2);
    let mut alice = joined(&mut r, b"alice", 1);
    let out = alice.on_bytes(&mut r, b"bye\ndisconnect\nlate\n");
    assert_eq!(out, vec![to(b"bob", 2, b"alice: bye")]);
    assert_eq!(alice.state(), SessionState::Closing);
    assert_eq!(alice.on_bytes(&mut r, b"later\n"), vec![]);
    assert_eq!(r.lookup(b"alice"), Some(1));
    alice.close(&mut r);
    assert_eq!(r.lookup(b"alice"), None);
}

#[test]
fn an_oversized_frame_closes_the_session_only() {
    let mut r = Registry::new();
    let mut bob = joined(&mut r, b"bob", 2);
    let mut alice = Session::new(1, 8);
    alice.begin();
    assert_eq!(alice.on_bytes(&mut r, b"alice\n"), vec![to(b"alice", 1, b"Hello, alice!")]);
    let out = alice.on_bytes(&mut r, b"short\nmuch too long\nnext\n");
    assert_eq!(out, vec![to(b"bob", 2, b"alice: short")]);
    assert_eq!(alice.state(), SessionState::Closing);
    alice.close(&mut r);
    assert_eq!(alice.state(), SessionState::Closed);
    assert_eq!(r.list(), vec![b"bob".to_vec()]);
    assert_eq!(bob.state(), SessionState::Active);
    assert_eq!(bob.on_bytes(&mut r, b"/\n"), vec![to(b"bob", 2, b"Connected clients: bob")]);
}

#[test]
fn an_oversized_name_closes_before_registration() {
    let mut r = Registry::new();
    let mut s = Session::new(1, 4);
    s.begin();
    assert_eq!(s.on_bytes(&mut r, b"alice"), vec![]);
    assert_eq!(s.state(), SessionState::Closing);
    assert!(r.is_empty());
}

#[test]
fn the_end_of_the_stream_closes_and_frees_the_name() {
    let mut r = Registry::new();
    let mut alice = joined(&mut r, b"alice", 1);
    alice.on_bytes(&mut r, b"half a li");
    alice.on_disconnect();
    assert_eq!(alice.state(), SessionState::Closing);
    assert_eq!(r.lookup(b"alice"), Some(1));
    assert_eq!(alice.close(&mut r), vec![]);
    assert_eq!(alice.state(), SessionState::Closed);
    assert_eq!(r.lookup(b"alice"), None);
    assert!(r.register(b"alice", 9).is_ok());
}

#[test]
fn a_stream_that_ends_before_any_name_closes_cleanly() {
    let mut r = Registry::new();
    let mut s = Session::new(1, 1024);
    s.on_disconnect();
    assert_eq!(s.state(), SessionState::Closing);
    s.close(&mut r);
    assert_eq!(s.state(), SessionState::Closed);

    let mut t = Session::new(2, 1024);
    t.begin();
    t.on_disconnect();
    t.close(&mut r);
    assert_eq!(t.state(), SessionState::Closed);
    assert!(r.is_empty());
}

#[test]
fn close_acts_only_on_a_closing_session() {
    let mut r = Registry::new();
    let mut alice = joined(&mut r, b"alice", 1);
    assert_eq!(alice.close(&mut r), vec![]);
    assert_eq!(alice.state(), SessionState::Active);
    assert_eq!(r.lookup(b"alice"), Some(1));
}

#[test]
fn closed_is_terminal() {
    let mut r = Registry::new();
    let _bob = joined(&mut r, b"bob", 2);
    let mut alice = joined(&mut r, b"alice", 1);
    alice.on_disconnect();
    alice.close(&mut r);
    assert_eq!(alice.state(), SessionState::Closed);

    alice.begin();
    assert_eq!(alice.state(), SessionState::Closed);
    assert_eq!(alice.on_bytes(&mut r, b"hi\n"), vec![]);
    assert_eq!(alice.on_frame(&mut r, b"hi"), vec![]);
    alice.on_disconnect();
    assert_eq!(alice.state(), SessionState::Closed);
    assert_eq!(alice.close(&mut r), vec![]);
    assert_eq!(alice.state(), SessionState::Closed);
    assert_eq!(r.list(), vec![b"bob".to_vec()]);
}

#[test]
fn closing_twice_does_not_remove_a_newcomer() {
    let mut r = Registry::new();
    let mut alice = joined(&mut r, b"alice", 1);
    alice.on_disconnect();
    alice.close(&mut r);
    let _newcomer = joined(&mut r, b"alice", 7);
    alice.on_disconnect();
    alice.close(&mut r);
    assert_eq!(r.lookup(b"alice"), Some(7));
}

#[test]
fn on_frame_handles_one_frame() {
    let mut r = Registry::new();
    let _bob = joined(&mut r, b"bob", 2);
    let mut s = Session::new(1, 1024);
    s.begin();
    assert_eq!(s.on_frame(&mut r, b"alice"), vec![to(b"alice", 1, b"Hello, alice!")]);
    assert_eq!(s.on_frame(&mut r, b"hi"), vec![to(b"bob", 2, b"alice: hi")]);
    assert_eq!(s.on_frame(&mut r, b"disconnect"), vec![]);
    assert_eq!(s.state(), SessionState::Closing);
    assert_eq!(s.on_frame(&mut r, b"hi"), vec![]);
}

#[test]
fn a_broadcast_does_not_come_back_to_its_sender() {
    let mut r = Registry::new();
    let _bob = joined(&mut r, b"bob", 2);
    let _carol = joined(&mut r, b"carol", 3);
    let mut alice = joined(&mut r, b"alice", 1);
    let out = alice.on_bytes(&mut r, b"hello\n");
    assert_eq!(out, vec![to(b"bob", 2, b"alice: hello"), to(b"carol", 3, b"alice: hello")]);
    assert!(out.iter().all(|d| d.sink != 1));
}
