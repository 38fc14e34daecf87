use chat_server::message::{classify, Message};
use chat_server::registry::{Delivery, RegistrationHandle, Registry};
use chat_server::router::{route, RouteError, Routed};

fn three() -> (Registry, RegistrationHandle, RegistrationHandle, RegistrationHandle) {
    let mut r = Registry::new();
    let alice = r.register(b"alice", 1).unwrap();
    let bob = r.register(b"bob", 2).unwrap();
    let carol = r.register(b"carol", 3).unwrap();
    (r, alice, bob, carol)
}

fn to(recipient: &[u8], sink: u64, payload: &[u8]) -> Delivery {
    Delivery { recipient: recipient.to_vec(), sink, payload: payload.to_vec() }
}

#[test]
fn a_broadcast_goes_to_everyone_but_the_sender() {
    let (r, alice, _, _) = three();
    let got = route(&r, &alice, &Message::Broadcast { text: b"hi".to_vec() });
    assert_eq!(
        got,
        Ok(Routed {
            reply: None,
            deliveries: vec![to(b"bob", 2, b"alice: hi"), to(b"carol", 3, b"alice: hi")],
            close: false,
        })
    );
}

#[test]
fn a_broadcast_from_the_only_client_reaches_nobody() {
    let mut r = Registry::new();
    let alice = r.register(b"alice", 1).unwrap();
    let got = route(&r, &alice, &classify(b"anyone?"));
    assert_eq!(got, Ok(Routed { reply: None, deliveries: vec![], close: false }));
}

#[test]
fn a_direct_message_goes_to_its_target_alone() {
    let (r, _, bob, _) = three();
    let got = route(&r, &bob, &classify(b"@alice secret"));
    assert_eq!(
        got,
        Ok(Routed {
            reply: None,
            deliveries: vec![to(b"alice", 1, b"*pm from bob: secret")],
            close: false,
        })
    );
}

#[test]
fn a_direct_message_to_oneself_is_delivered() {
    let (r, alice, _, _) = three();
    let got = route(&r, &alice, &classify(b"@alice note")).unwrap();
    assert_eq!(got.deliveries, vec![to(b"alice", 1, b"*pm from alice: note")]);
}

#[test]
fn a_direct_message_to_nobody_fails_and_delivers_nothing() {
    let (r, alice, _, _) = three();
    assert_eq!(route(&r, &alice, &classify(b"@dave hi")), Err(RouteError::UserNotFound));
    assert_eq!(route(&r, &alice, &classify(b"@Bob hi")), Err(RouteError::UserNotFound));
    assert_eq!(route(&r, &alice, &classify(b"@ hi")), Err(RouteError::UserNotFound));
}

#[test]
fn a_direct_message_target_is_trimmed() {
    let (r, alice, _, _) = three();
    let message = Message::Direct { target: b" bob\t".to_vec(), text: b"x".to_vec() };
    let got = route(&r, &alice, &message).unwrap();
    assert_eq!(got.deliveries, vec![to(b"bob", 2, b"*pm from alice: x")]);
}

#[test]
fn a_directory_query_is_answered_to_the_sender_alone() {
    let (r, _, _, carol) = three();
    let got = route(&r, &carol, &Message::ListUsers);
    assert_eq!(
        got,
        Ok(Routed {
            reply: Some(b"Connected clients: alice, bob, carol".to_vec()),
            deliveries: vec![],
            close: false,
        })
    );
}

#[test]
fn a_disconnect_asks_to_close_and_for_nothing_else() {
    let (r, alice, _, _) = three();
    let got = route(&r, &alice, &Message::Disconnect);
    assert_eq!(got, Ok(Routed { reply: None, deliveries: vec![], close: true }));
    assert_eq!(r.len(), 3);
}

#[test]
fn routing_leaves_the_registry_as_it_was() {
    let (r, alice, _, _) = three();
    let before = r.list();
    let _ = route(&r, &alice, &classify(b"hi"));
    let _ = route(&r, &alice, &classify(b"@bob hi"));
    let _ = route(&r, &alice, &classify(b"/"));
    let _ = route(&r, &alice, &classify(b"disconnect"));
    assert_eq!(r.list(), before);
}
