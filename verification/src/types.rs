//! Plain value types shared by the codec, the connection layer and the world.

use vstd::prelude::*;
use vstd::string::StringSliceAdditionalSpecFns;

verus! {

/// A malformed frame or protocol violation: the connection it arrived on is
/// terminated, nothing else.
#[derive(Debug, Clone, Copy, PartialEq, Eq, Structural)]
pub struct Disconnection {
}

impl Disconnection {
    pub fn new() -> Disconnection {
        Disconnection {  }
    }
}

/// A triple of coordinates: a block position or a displacement.
#[derive(Debug, Clone, Copy, PartialEq, Eq, Structural)]
pub struct V3 {
    pub x: i32,
    pub y: i32,
    pub z: i32,
}

impl V3 {
    pub fn new(x: i32, y: i32, z: i32) -> (v: V3)
        ensures
            v == (V3 { x, y, z }),
    {
        V3 { x, y, z }
    }
}

/// The four protocol phases of a connection, strictly forward-moving.
#[derive(Debug, Clone, Copy, PartialEq, Eq, Structural)]
pub enum State {
    Handshaking,
    Status,
    Login,
    Play,
}

/// The one-way order of the protocol phases: handshaking may move to
/// status or onward, login only onward to play, and status and play are
/// terminal. A connection's phase only ever moves up this order.
pub open spec fn state_le(a: State, b: State) -> bool {
    match a {
        State::Handshaking => true,
        State::Status => b is Status,
        State::Login => b is Login || b is Play,
        State::Play => b is Play,
    }
}

#[derive(Debug, Clone, Copy, PartialEq, Eq, Structural)]
pub enum GameMode {
    Survival,
    Creative,
}

#[derive(Debug, Clone, Copy, PartialEq, Eq, Structural)]
pub enum Hand {
    Main,
    Secondary,
}

#[derive(Debug, Clone, Copy, PartialEq, Eq, Structural)]
pub enum BlockFace {
    Bottom,
    Top,
    North,
    South,
    West,
    East,
}

/// A placeable block, identified by its 15-bit network id; id 0 is air and
/// is represented as `None` wherever a block is optional.
#[derive(Debug, Clone, Copy, PartialEq, Eq, Structural)]
pub struct Block {
    pub id: u16,
}

impl Block {
    pub open spec fn wf(self) -> bool {
        0 < self.id < 0x8000
    }

    /// The demonstration block painted under a walking player.
    pub fn andesite() -> (b: Block)
        ensures
            b.id == 6,
            b.wf(),
    {
        Block { id: 6 }
    }

    pub fn net_id(&self) -> (id: u16)
        ensures
            id == self.id,
    {
        self.id
    }
}

/// An inventory item, identified by its network id. Item ids beyond the
/// 15-bit range are rejected at the wire.
#[derive(Debug, Clone, Copy, PartialEq, Eq, Structural)]
pub struct Item {
    pub id: u16,
}

impl Item {
    pub fn new(id: u32) -> (r: Option<Item>)
        ensures
            match r {
                Some(it) => id < 0x8000 && it.id == id,
                None => id >= 0x8000,
            },
    {
        if id < 0x8000 {
            Some(Item { id: id as u16 })
        } else {
            None
        }
    }

    pub fn net_id(&self) -> (id: u16)
        ensures
            id == self.id,
    {
        self.id
    }

    /// The block this item places, if it places one: id 0 is air, not a
    /// block.
    pub fn block(&self) -> (r: Option<Block>)
        requires
            self.id < 0x8000,
        ensures
            match r {
                Some(b) => self.id != 0 && b.id == self.id && b.wf(),
                None => self.id == 0,
            },
    {
        if self.id != 0 {
            Some(Block { id: self.id })
        } else {
            None
        }
    }
}

/// The error std reports for text that is not UTF-8.
#[verifier::external_type_specification]
#[verifier::external_body]
pub struct ExUtf8Error(core::str::Utf8Error);

/// Relies on core::str::from_utf8: it succeeds exactly on valid UTF-8,
/// and the returned text is the same bytes.
pub assume_specification[ core::str::from_utf8 ](v: &[u8]) -> (r: Result<
    &str,
    core::str::Utf8Error,
>)
    ensures
        match r {
            Ok(s) => s.spec_bytes() == v@ && vstd::utf8::valid_utf8(v@),
            Err(_) => !vstd::utf8::valid_utf8(v@),
        },
;

/// A player's display name: at most 16 bytes of valid UTF-8.
#[derive(Debug, Clone, PartialEq, Eq)]
pub struct Name {
    bytes: Vec<u8>,
}

impl Name {
    pub closed spec fn view(self) -> Seq<u8> {
        self.bytes@
    }

    pub open spec fn wf(self) -> bool {
        &&& self@.len() <= 16
        &&& vstd::utf8::valid_utf8(self@)
    }

    /// Wrap validated text as a name; rejects anything over 16 bytes.
    pub fn from_bytes(bytes: Vec<u8>) -> (r: Option<Name>)
        requires
            vstd::utf8::valid_utf8(bytes@),
        ensures
            match r {
                Some(n) => bytes@.len() <= 16 && n@ == bytes@ && n.wf(),
                None => bytes@.len() > 16,
            },
    {
        if bytes.len() <= 16 {
            Some(Name { bytes })
        } else {
            None
        }
    }

    pub fn bytes(&self) -> (b: &Vec<u8>)
        ensures
            b@ == self@,
    {
        &self.bytes
    }

    /// An owned copy of the name.
    pub fn duplicate(&self) -> (n: Name)
        ensures
            n@ == self@,
    {
        Name { bytes: vstd::slice::slice_to_vec(self.bytes.as_slice()) }
    }
}

} // verus!
