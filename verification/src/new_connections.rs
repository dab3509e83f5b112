//! The first packets of a connection's life: the handshake that picks a
//! protocol phase, and the status-phase server-list exchange.

use vstd::prelude::*;
use crate::client::Client;
use crate::response::{Response, ResponseV};
use crate::types::{Disconnection, State};
use crate::wire;
use crate::wire::{spec_be64, spec_varint_decode};

verus! {

/// What a handshake frame asks for: id 0, a protocol version, and the
/// next state in the frame's last byte. Version negotiation admits 759
/// and 760 for login; a status probe is accepted whatever the version.
pub open spec fn spec_handshake(pkt: Seq<u8>) -> Option<State> {
    match spec_varint_decode(pkt) {
        None => None,
        Some((id, k)) => if id != 0 {
            None
        } else {
            match spec_varint_decode(pkt.skip(k)) {
                None => None,
                Some((ver, k2)) => {
                    let rest = pkt.skip(k).skip(k2);
                    if rest.len() == 0 {
                        None
                    } else {
                        let ns = rest.last();
                        if ns == 1 {
                            Some(State::Status)
                        } else if ns == 2 && (ver == 759 || ver == 760) {
                            Some(State::Login)
                        } else {
                            None
                        }
                    }
                },
            }
        },
    }
}

/// Decode a handshake and pick the phase it leads to; anything else —
/// an unknown packet id, a truncated frame, an unsupported protocol
/// version — disconnects.
pub fn recv_handshaking(pkt: &[u8]) -> (r: Result<State, Disconnection>)
    ensures
        match r {
            Ok(s) => spec_handshake(pkt@) == Some(s) && (s is Status || s is Login),
            Err(_) => spec_handshake(pkt@) is None,
        },
{
    let (id, rest) = match wire::varint(pkt) {
        Some(v) => v,
        None => {
            return Err(Disconnection::new());
        },
    };
    if id != 0 {
        return Err(Disconnection::new());
    }
    let (ver, rest2) = match wire::varint(rest) {
        Some(v) => v,
        None => {
            return Err(Disconnection::new());
        },
    };
    if rest2.len() == 0 {
        return Err(Disconnection::new());
    }
    let ns: u8 = rest2[rest2.len() - 1];
    if ns == 1 {
        Ok(State::Status)
    } else if ns == 2 && (ver == 759 || ver == 760) {
        Ok(State::Login)
    } else {
        Err(Disconnection::new())
    }
}

/// What a status frame asks for: the description document (id 0, empty
/// payload) or a pong echo (id 1, eight payload bytes).
pub open spec fn spec_status_req(pkt: Seq<u8>) -> Option<ResponseV> {
    match spec_varint_decode(pkt) {
        None => None,
        Some((id, k)) => {
            let rest = pkt.skip(k);
            if id == 0 && rest.len() == 0 {
                Some(ResponseV::Status)
            } else if id == 1 && rest.len() >= 8 {
                Some(ResponseV::Pong(spec_be64(rest.take(8))))
            } else {
                None
            }
        },
    }
}

/// Answer a status-phase frame by queueing the matching response;
/// anything unrecognized disconnects.
pub fn recv_status(pkt: &[u8], client: &mut Client) -> (r: Result<(), Disconnection>)
    ensures
        match r {
            Ok(_) => {
                &&& spec_status_req(pkt@) is Some
                &&& final(client).spec_queue() == old(client).spec_queue().push(
                    spec_status_req(pkt@).unwrap(),
                )
                &&& final(client).spec_state() == old(client).spec_state()
                &&& final(client).spec_pending() == old(client).spec_pending()
                &&& final(client).spec_rbuf() == old(client).spec_rbuf()
            },
            Err(_) => spec_status_req(pkt@) is None && *final(client) == *old(client),
        },
{
    let (id, rest) = match wire::varint(pkt) {
        Some(v) => v,
        None => {
            return Err(Disconnection::new());
        },
    };
    if id == 0 && rest.len() == 0 {
        client.submit(Response::Status);
        Ok(())
    } else if id == 1 {
        match wire::be_u64(rest) {
            Some((n, _)) => {
                client.submit(Response::Pong(n));
                Ok(())
            },
            None => Err(Disconnection::new()),
        }
    } else {
        Err(Disconnection::new())
    }
}

/// What a login-start frame carries: the player's name, at most 16
/// bytes of valid UTF-8.
pub open spec fn spec_login_req(pkt: Seq<u8>) -> Option<Seq<u8>> {
    match spec_varint_decode(pkt) {
        None => None,
        Some((id, k)) => if id != 0 {
            None
        } else {
            match wire::spec_str_decode(pkt.skip(k)) {
                Some((nm, _)) => if vstd::utf8::valid_utf8(nm) && nm.len() <= 16 {
                    Some(nm)
                } else {
                    None
                },
                None => None,
            }
        },
    }
}

} // verus!
