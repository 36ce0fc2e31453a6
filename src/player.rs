use vstd::prelude::*;

use crate::message::FromPlayerMessage;

verus! {

/// One frame read from a connection, as the connection adapter sees it.
#[derive(Debug, PartialEq, Eq)]
pub enum Inbound {
    /// A text frame, with the client message it decodes to, if any.
    Text { decoded: Option<FromPlayerMessage> },
    /// A frame of another kind (binary, ping, ...).
    Other,
    /// The stream ended, or reading failed.
    Closed,
}

/// What the adapter does with a frame read before the handshake is done.
#[derive(Debug, PartialEq, Eq)]
pub enum HandshakeStep {
    /// The handshake is done: the connection belongs to this player.
    Admit { name: String },
    /// The frame is discarded; the adapter reads the next one.
    KeepReading,
    /// The connection never becomes a player.
    Abandon,
}

/// What the adapter does with a frame read after the handshake.
#[derive(Debug, PartialEq, Eq)]
pub enum InboundAction {
    /// Hand the message on to the room.
    Forward { message: FromPlayerMessage },
    /// A junk frame: nothing to do.
    Ignore,
    /// The connection is gone: stop, and tell the room.
    Stop,
}

/// The handshake decision for one frame: an `Initialize` admits the player,
/// any other message or a non-text frame is discarded, and a frame that does
/// not decode, or the end of the stream, abandons the connection.
pub fn handshake_step(frame: Inbound) -> (step: HandshakeStep)
    ensures
        match frame {
            Inbound::Text { decoded: Some(FromPlayerMessage::Initialize { name }) } => step == (HandshakeStep::Admit { name }),
            Inbound::Text { decoded: Some(_) } => step is KeepReading,
            Inbound::Text { decoded: None } => step is Abandon,
            Inbound::Other => step is KeepReading,
            Inbound::Closed => step is Abandon,
        },
{
    match frame {
        Inbound::Text { decoded: Some(FromPlayerMessage::Initialize { name }) } => HandshakeStep::Admit { name },
        Inbound::Text { decoded: Some(_) } => HandshakeStep::KeepReading,
        Inbound::Text { decoded: None } => HandshakeStep::Abandon,
        Inbound::Other => HandshakeStep::KeepReading,
        Inbound::Closed => HandshakeStep::Abandon,
    }
}

/// The decision for one frame after the handshake: a decoded message goes
/// to the room, a frame that is not text or does not decode is ignored, and
/// the end of the stream stops the adapter.
pub fn inbound_step(frame: Inbound) -> (action: InboundAction)
    ensures
        match frame {
            Inbound::Text { decoded: Some(message) } => action == (InboundAction::Forward { message }),
            Inbound::Text { decoded: None } => action is Ignore,
            Inbound::Other => action is Ignore,
            Inbound::Closed => action is Stop,
        },
{
    match frame {
        Inbound::Text { decoded: Some(message) } => InboundAction::Forward { message },
        Inbound::Text { decoded: None } => InboundAction::Ignore,
        Inbound::Other => InboundAction::Ignore,
        Inbound::Closed => InboundAction::Stop,
    }
}

/// The message the adapter hands the room once its connection has stopped,
/// for the player called `name`.
pub fn disconnect_notice(name: String) -> (r: (String, FromPlayerMessage))
    ensures
        r.0@ == name@,
        r.1 is Disconnect,
{
    (name, FromPlayerMessage::Disconnect)
}


/// What the adapter's run loop serviced in one turn, and how it went.
#[derive(Debug, PartialEq, Eq)]
pub enum Turn {
    /// A frame was read and acted on; `forwarded` tells whether the room's
    /// channel took a forwarded message.
    Inbound { action: InboundAction, forwarded: bool },
    /// The room's queue for this player gave a message (with whether it was
    /// encoded and written), or was closed (`None`).
    Outbound { written: Option<bool> },
}

/// Whether the run loop goes on after a turn: it stops when the stream
/// ended, a forward to the room failed, a write failed, or the room's queue
/// for this player was closed.
pub fn keeps_running(turn: &Turn) -> (r: bool)
    ensures
        r == match turn {
            Turn::Inbound { action: InboundAction::Forward { .. }, forwarded } => *forwarded,
            Turn::Inbound { action: InboundAction::Ignore, .. } => true,
            Turn::Inbound { action: InboundAction::Stop, .. } => false,
            Turn::Outbound { written: Some(ok) } => *ok,
            Turn::Outbound { written: None } => false,
        },
{
    match turn {
        Turn::Inbound { action: InboundAction::Forward { .. }, forwarded } => *forwarded,
        Turn::Inbound { action: InboundAction::Ignore, .. } => true,
        Turn::Inbound { action: InboundAction::Stop, .. } => false,
        Turn::Outbound { written: Some(ok) } => *ok,
        Turn::Outbound { written: None } => false,
    }
}

} // verus!
