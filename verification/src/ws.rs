//! The session relay: what one session's loop does about each event. The
//! loop itself, with its sockets and channels, runs outside this library.

use crate::encoding::{
    lemma_joined_take, member, object, push_member, quoted, quoted_bytes, CLOSE_BRACE,
    OPEN_BRACE,
};
use vstd::prelude::*;
use vstd::utf8::encode_utf8;

verus! {

/// A message that one session sends to another.
#[derive(Clone, Debug, PartialEq, Eq)]
pub struct WSMessage {
    pub from: String,
    pub to: String,
    pub payload: String,
}

/// A message as a value: what contracts say of a `WSMessage`.
pub struct WSMessageView {
    pub from: Seq<char>,
    pub to: Seq<char>,
    pub payload: Seq<char>,
}

impl View for WSMessage {
    type V = WSMessageView;

    open spec fn view(&self) -> WSMessageView {
        WSMessageView { from: self.from@, to: self.to@, payload: self.payload@ }
    }
}

/// The members of a message's encoding, in their fixed order.
pub open spec fn message_members(message: WSMessageView) -> Seq<Seq<u8>> {
    seq![
        member("from", quoted(encode_utf8(message.from))),
        member("to", quoted(encode_utf8(message.to))),
        member("payload", quoted(encode_utf8(message.payload))),
    ]
}

/// The encoding of a message: one JSON object.
pub open spec fn message_encoding(message: WSMessageView) -> Seq<u8> {
    object(message_members(message))
}

/// What happened on a session.
#[derive(Clone, Debug, PartialEq, Eq)]
pub enum SocketEvent {
    /// A frame arrived from the session's socket: the relay message that it
    /// holds, or nothing if it holds none.
    Frame(Option<WSMessage>),
    /// The socket was closed or failed.
    SocketClosed,
    /// Another session relayed this text to the session.
    Relayed(String),
    /// The session's relay channel was closed.
    ChannelClosed,
    /// Text could not be delivered to the session's socket.
    DeliveryFailed,
}

/// What the session's loop does next.
#[derive(Clone, Debug, PartialEq, Eq)]
pub enum SocketAction {
    /// Hand `text` to the session `to`, if it is connected.
    Forward { to: String, text: Vec<u8> },
    /// Send the text to the session's own socket.
    Deliver(String),
    /// Wait for the next event.
    Continue,
    /// Leave the loop and forget the session.
    Close,
}

/// Whether `action` is what the loop does about `event`: a relay message is
/// forwarded to the session it names, encoded anew; a frame without one is
/// passed over; relayed text is delivered; and the loop ends when the socket
/// or the channel is closed or a delivery fails.
pub open spec fn decides(event: SocketEvent, action: SocketAction) -> bool {
    match event {
        SocketEvent::Frame(Some(message)) => action matches SocketAction::Forward { to, text }
            && to@ == message@.to && text@ == message_encoding(message@),
        SocketEvent::Frame(None) => action is Continue,
        SocketEvent::Relayed(relayed) => action matches SocketAction::Deliver(text) && text@
            == relayed@,
        SocketEvent::SocketClosed => action is Close,
        SocketEvent::ChannelClosed => action is Close,
        SocketEvent::DeliveryFailed => action is Close,
    }
}

impl WSMessage {
    /// The encoding of this message.
    pub fn encode(&self) -> (out: Vec<u8>)
        ensures
            out@ == message_encoding(self@),
    {
        let ghost members = message_members(self@);
        let mut out: Vec<u8> = Vec::new();
        out.push(OPEN_BRACE);
        let from = quoted_bytes(self.from.as_str());
        push_member(&mut out, true, "from", from.as_slice());
        proof {
            lemma_joined_take(members, 0);
        }
        let to = quoted_bytes(self.to.as_str());
        push_member(&mut out, false, "to", to.as_slice());
        proof {
            lemma_joined_take(members, 1);
        }
        let payload = quoted_bytes(self.payload.as_str());
        push_member(&mut out, false, "payload", payload.as_slice());
        proof {
            lemma_joined_take(members, 2);
            assert(members.take(3) =~= members);
        }
        out.push(CLOSE_BRACE);
        out
    }
}

/// What the session's loop does about `event`.
pub fn relay_step(event: &SocketEvent) -> (action: SocketAction)
    ensures
        decides(*event, action),
{
    match event {
        SocketEvent::Frame(Some(message)) => SocketAction::Forward {
            to: message.to.clone(),
            text: message.encode(),
        },
        SocketEvent::Frame(None) => SocketAction::Continue,
        SocketEvent::Relayed(text) => SocketAction::Deliver(text.clone()),
        SocketEvent::SocketClosed => SocketAction::Close,
        SocketEvent::ChannelClosed => SocketAction::Close,
        SocketEvent::DeliveryFailed => SocketAction::Close,
    }
}

} // verus!
