//! Router: what the registry is asked, and who is written to, for one command
//! from one registered client.
//!
//! Routing reads the registry and writes nothing. It returns the deliveries
//! to make: each is one write attempt to one client, so no command costs
//! more than one write per registered client.

use vstd::prelude::*;
use crate::message::{Message, MessageView};
use crate::notice::{broadcast_line, private_line, listing, broadcast_envelope, private_envelope,
    listing_line};
use crate::registry::{Registry, RegistrationHandle, Member, Delivery, DeliveryView, delivery_views,
    fan_out, sink_of, is_registered, names};
use crate::text::{trimmed, trim};

verus! {

/// Why a command reached nobody.
#[derive(Clone, Copy, Debug, PartialEq, Eq, Structural)]
pub enum RouteError {
    /// The target of a direct message is not registered.
    UserNotFound,
}

/// What a command asks for.
#[derive(Clone, Debug, PartialEq, Eq)]
pub struct Routed {
    /// A line for the sender alone.
    pub reply: Option<Vec<u8>>,
    /// The writes to make to other clients' sinks, in order.
    pub deliveries: Vec<Delivery>,
    /// Whether the sender's session is to close.
    pub close: bool,
}

/// A [`Routed`] as contracts see it.
pub struct RoutedView {
    pub reply: Option<Seq<u8>>,
    pub deliveries: Seq<DeliveryView>,
    pub close: bool,
}

impl View for Routed {
    type V = RoutedView;

    open spec fn view(&self) -> RoutedView {
        RoutedView {
            reply: match self.reply {
                Some(line) => Some(line@),
                None => None,
            },
            deliveries: delivery_views(self.deliveries@),
            close: self.close,
        }
    }
}

/// The view of the result of [`route`].
pub open spec fn route_view(r: Result<Routed, RouteError>) -> Result<RoutedView, RouteError> {
    match r {
        Ok(routed) => Ok(routed@),
        Err(e) => Err(e),
    }
}

/// What `message` from the client registered as `sender` asks for, with
/// `ms` registered.
///
/// - A broadcast goes to everyone but the sender, as `<sender>: <text>`.
/// - A direct message goes to its target alone, as `*pm from <sender>: <text>`,
///   or fails with `UserNotFound` if the target is not registered.
/// - A directory query is answered to the sender alone.
/// - A disconnect asks for the session to close, and for nothing else.
pub open spec fn routed(ms: Seq<Member>, sender: Seq<u8>, message: MessageView) -> Result<
    RoutedView,
    RouteError,
> {
    match message {
        MessageView::Broadcast { text } => Ok(
            RoutedView {
                reply: None,
                deliveries: fan_out(ms, broadcast_line(sender, text), trimmed(sender)),
                close: false,
            },
        ),
        MessageView::Direct { target, text } => match sink_of(ms, trimmed(target)) {
            Some(sink) => Ok(
                RoutedView {
                    reply: None,
                    deliveries: seq![
                        DeliveryView {
                            recipient: trimmed(target),
                            sink,
                            payload: private_line(sender, text),
                        },
                    ],
                    close: false,
                },
            ),
            None => Err(RouteError::UserNotFound),
        },
        MessageView::ListUsers => Ok(
            RoutedView { reply: Some(listing(names(ms))), deliveries: Seq::empty(), close: false },
        ),
        MessageView::Disconnect => Ok(
            RoutedView { reply: None, deliveries: Seq::empty(), close: true },
        ),
    }
}

/// Routes `message` from the client registered as `sender`.
pub fn route(registry: &Registry, sender: &RegistrationHandle, message: &Message) -> (r: Result<
    Routed,
    RouteError,
>)
    ensures
        route_view(r) == routed(registry.members(), sender@, message@),
{
    let from = sender.username().as_slice();
    match message {
        Message::Broadcast { text } => {
            let line = broadcast_envelope(from, text.as_slice());
            let deliveries = registry.broadcast(line.as_slice(), from);
            Ok(Routed { reply: None, deliveries, close: false })
        },
        Message::Direct { target, text } => {
            match registry.lookup(target.as_slice()) {
                Some(sink) => {
                    let mut deliveries: Vec<Delivery> = Vec::new();
                    deliveries.push(
                        Delivery {
                            recipient: trim(target.as_slice()),
                            sink,
                            payload: private_envelope(from, text.as_slice()),
                        },
                    );
                    assert(delivery_views(deliveries@) =~= seq![
                        DeliveryView {
                            recipient: trimmed(target@),
                            sink,
                            payload: private_line(sender@, text@),
                        },
                    ]);
                    Ok(Routed { reply: None, deliveries, close: false })
                },
                None => Err(RouteError::UserNotFound),
            }
        },
        Message::ListUsers => {
            let users = registry.list();
            let deliveries: Vec<Delivery> = Vec::new();
            assert(delivery_views(deliveries@) =~= Seq::<DeliveryView>::empty());
            Ok(Routed { reply: Some(listing_line(&users)), deliveries, close: false })
        },
        Message::Disconnect => {
            let deliveries: Vec<Delivery> = Vec::new();
            assert(delivery_views(deliveries@) =~= Seq::<DeliveryView>::empty());
            Ok(Routed { reply: None, deliveries, close: true })
        },
    }
}

/// A direct message to a name that nobody holds fails with `UserNotFound`:
/// no delivery is made to anyone.
pub proof fn lemma_direct_to_nobody(
    ms: Seq<Member>,
    sender: Seq<u8>,
    target: Seq<u8>,
    text: Seq<u8>,
)
    requires
        !is_registered(ms, trimmed(target)),
    ensures
        routed(ms, sender, MessageView::Direct { target, text }) == Err::<RoutedView, RouteError>(
            RouteError::UserNotFound,
        ),
{
}

} // verus!
