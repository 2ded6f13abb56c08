//! The decisions of the two ends of a room: the host, whose game the room
//! shows, and the player who joins it. Each end runs two pipes through the
//! relay, one for the server status and one for the game, and forwards
//! between the relay and the local game.
use crate::decimal::{parse_bounded, parse_bounded_u32, port_or_zero};
use crate::mcpe::{announced_port, pong_fields, semicolons};
use crate::protocol::{Identity, Identity2, Operate};
use crate::server::Endpoint;
use vstd::prelude::*;

verus! {

/// The player's end of a room.
pub struct Client;

/// The host's end of a room.
pub struct Host;

/// 127.0.0.1.
pub const LOCALHOST: u32 = 0x7f00_0001;

/// The port on which a Minecraft Bedrock server answers pings.
pub const GAME_PORT: u16 = 19132;

/// Where the host's own game answers pings.
pub open spec fn host_game() -> Endpoint {
    Endpoint { ip: LOCALHOST, port: GAME_PORT }
}

/// Where a datagram goes next.
#[derive(Clone, Copy, Debug, PartialEq, Eq, Structural)]
pub enum Forward {
    /// Through the relay to the other end.
    ToRelay,
    /// To this local endpoint.
    To(Endpoint),
    /// Nowhere.
    Drop,
}

/// The player's game pipe: the first datagram from this machine names the
/// local game; from then on its datagrams go to the relay and the relay's go
/// to it.
pub fn client_game_step(local: &mut Option<Endpoint>, from: Endpoint, relay: Endpoint) -> (f: Forward)
    ensures
        match *old(local) {
            None => if from.ip == LOCALHOST {
                *final(local) == Some(from) && f == Forward::ToRelay
            } else {
                *final(local) == *old(local) && f == Forward::Drop
            },
            Some(l) => *final(local) == *old(local) && f == (if from == l {
                Forward::ToRelay
            } else if from == relay {
                Forward::To(l)
            } else {
                Forward::Drop
            }),
        },
{
    match *local {
        None => {
            if from.ip == LOCALHOST {
                *local = Some(from);
                Forward::ToRelay
            } else {
                Forward::Drop
            }
        },
        Some(l) => {
            if from == l {
                Forward::ToRelay
            } else if from == relay {
                Forward::To(l)
            } else {
                Forward::Drop
            }
        },
    }
}

/// What the player's status pipe does with a datagram.
#[derive(Clone, Copy, Debug, PartialEq, Eq, Structural)]
pub enum InfoStep {
    /// Send it through the relay.
    ToRelay,
    /// It is the host's pong: rewrite it to announce the player's game pipe
    /// and send the result to this local endpoint.
    Rewrite(Endpoint),
    /// Nowhere.
    Drop,
}

/// The player's status pipe: the first datagram from another address than
/// the relay's names the local game; from then on its datagrams go to the
/// relay, and the relay's are pongs to rewrite for it.
pub fn client_info_step(local: &mut Option<Endpoint>, from: Endpoint, relay: Endpoint) -> (s: InfoStep)
    ensures
        match *old(local) {
            None => if from.ip != relay.ip {
                *final(local) == Some(from) && s == InfoStep::ToRelay
            } else {
                *final(local) == *old(local) && s == InfoStep::Drop
            },
            Some(l) => *final(local) == *old(local) && s == (if from == l {
                InfoStep::ToRelay
            } else if from == relay {
                InfoStep::Rewrite(l)
            } else {
                InfoStep::Drop
            }),
        },
{
    match *local {
        None => {
            if from.ip != relay.ip {
                *local = Some(from);
                InfoStep::ToRelay
            } else {
                InfoStep::Drop
            }
        },
        Some(l) => {
            if from == l {
                InfoStep::ToRelay
            } else if from == relay {
                InfoStep::Rewrite(l)
            } else {
                InfoStep::Drop
            }
        },
    }
}

/// What the host's status pipe does with a datagram.
#[derive(Clone, Copy, Debug, PartialEq, Eq, Structural)]
pub enum HostInfoStep {
    /// The first pong of the local game: hand this game port to the game
    /// pipe, then send the datagram through the relay.
    Announce(u16),
    /// Send it through the relay.
    ToRelay,
    /// Send it to the local game.
    ToLocal,
    /// A first pong that cannot be read: pass over it.
    Skip,
    /// From an unknown address: pass over it, worth a log line.
    Unknown,
}

/// The host's status pipe, for a datagram received into `buf` (the whole
/// receive buffer is read as the pong) from `from`, while the game port has
/// or has not yet been handed on.
pub fn host_info_step(from: Endpoint, relay: Endpoint, awaiting_port: bool, buf: &[u8]) -> (s:
    HostInfoStep)
    ensures
        from == host_game() && awaiting_port && semicolons(buf@) >= 12 ==> s
            == HostInfoStep::Announce(port_or_zero(pong_fields(buf@)[3])),
        from == host_game() && awaiting_port && semicolons(buf@) < 12 ==> s == HostInfoStep::Skip,
        from == host_game() && !awaiting_port ==> s == HostInfoStep::ToRelay,
        from != host_game() && from == relay ==> s == HostInfoStep::ToLocal,
        from != host_game() && from != relay ==> s == HostInfoStep::Unknown,
{
    let local = Endpoint { ip: LOCALHOST, port: GAME_PORT };
    if from == local {
        if awaiting_port {
            match announced_port(buf) {
                None => HostInfoStep::Skip,
                Some(port) => HostInfoStep::Announce(port),
            }
        } else {
            HostInfoStep::ToRelay
        }
    } else if from == relay {
        HostInfoStep::ToLocal
    } else {
        HostInfoStep::Unknown
    }
}

/// The host's game pipe, once the local game's port is known: the game's
/// datagrams go to the relay and the relay's to the game; others nowhere.
pub fn host_game_step(from: Endpoint, relay: Endpoint, local: Endpoint) -> (f: Forward)
    ensures
        f == (if from == local {
            Forward::ToRelay
        } else if from == relay {
            Forward::To(local)
        } else {
            Forward::Drop
        }),
{
    if from == local {
        Forward::ToRelay
    } else if from == relay {
        Forward::To(local)
    } else {
        Forward::Drop
    }
}

/// Why the host could not open a room.
#[derive(Clone, Copy, Debug, PartialEq, Eq, Structural)]
pub enum HostError {
    /// The server refused to open a room.
    Refused,
    /// The server answered something else than a room.
    InvalidReply,
}

/// The server's answer to the host's request for a room.
pub fn host_greeting(reply: Option<Operate>) -> (r: Result<Identity, HostError>)
    ensures
        (reply matches Some(Operate::Opened(id)) ==> r == Ok::<Identity, HostError>(id)),
        reply == Some(Operate::OperationFailed) ==> r == Err::<Identity, HostError>(
            HostError::Refused,
        ),
        !(reply matches Some(Operate::Opened(_))) && reply != Some(Operate::OperationFailed) ==> r
            == Err::<Identity, HostError>(HostError::InvalidReply),
{
    match reply {
        Some(Operate::OperationFailed) => Err(HostError::Refused),
        Some(Operate::Opened(id)) => Ok(id),
        _ => Err(HostError::InvalidReply),
    }
}

/// A message of the server to the host while the room is open: the pipes of
/// a player who joins, or anything else, which is answered with a refusal.
pub fn host_control(msg: Option<Operate>) -> (r: Option<(Identity2, Identity2)>)
    ensures
        (msg matches Some(Operate::ConnectToMe(a, b)) ==> r == Some((a, b))),
        !(msg matches Some(Operate::ConnectToMe(_, _))) ==> r is None,
{
    match msg {
        Some(Operate::ConnectToMe(a, b)) => Some((a, b)),
        _ => None,
    }
}

/// The server's answer to a player who asks to join a room.
#[derive(Clone, Copy, Debug, PartialEq, Eq, Structural)]
pub enum ClientGreeting {
    /// Dial these two pipes.
    Pipes(Identity2, Identity2),
    /// No such room.
    WrongRoom,
    /// Anything else.
    ServerTrouble,
}

/// Sorts the server's answer to a player's request to join.
pub fn client_greeting(reply: Option<Operate>) -> (r: ClientGreeting)
    ensures
        (reply matches Some(Operate::ConnectToMe(a, b)) ==> r == ClientGreeting::Pipes(a, b)),
        reply == Some(Operate::OperationFailed) ==> r == ClientGreeting::WrongRoom,
        !(reply matches Some(Operate::ConnectToMe(_, _))) && reply != Some(
            Operate::OperationFailed,
        ) ==> r == ClientGreeting::ServerTrouble,
{
    match reply {
        Some(Operate::ConnectToMe(a, b)) => ClientGreeting::Pipes(a, b),
        Some(Operate::OperationFailed) => ClientGreeting::WrongRoom,
        _ => ClientGreeting::ServerTrouble,
    }
}

/// Why a room number typed by a player was not taken.
#[derive(Clone, Copy, Debug, PartialEq, Eq, Structural)]
pub enum RoomNumberError {
    /// It is not six bytes long.
    WrongLength,
    /// It is no number of 32 bits.
    Invalid,
}

/// Reads the room number that a player typed: six bytes that spell a
/// number of 32 bits.
pub fn parse_room_number(text: &[u8]) -> (r: Result<Identity, RoomNumberError>)
    ensures
        text@.len() != 6 ==> r == Err::<Identity, RoomNumberError>(RoomNumberError::WrongLength),
        text@.len() == 6 && parse_bounded(text@, u32::MAX as nat) is None ==> r == Err::<
            Identity,
            RoomNumberError,
        >(RoomNumberError::Invalid),
        text@.len() == 6 && parse_bounded(text@, u32::MAX as nat) is Some ==> r == Ok::<
            Identity,
            RoomNumberError,
        >(parse_bounded(text@, u32::MAX as nat)->0 as u32),
{
    if text.len() != 6 {
        return Err(RoomNumberError::WrongLength);
    }
    match parse_bounded_u32(text, u32::MAX) {
        Some(v) => Ok(v),
        None => Err(RoomNumberError::Invalid),
    }
}

} // verus!
