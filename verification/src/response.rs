//! Responses the server queues for a connection, one variant per
//! outbound packet kind.
//!
//! A queued response is pure data; it is serialized only when the
//! connection drains its queue towards the socket. Floating-point fields
//! travel as their IEEE-754 bit patterns.

use vstd::prelude::*;
use crate::chunk::ChunkContent;
use crate::fixed::{bits_of_fixed, spec_bits_of_fixed};
use crate::types::{Block, GameMode, Item, Name, V3};
use crate::wire;
use crate::wire::{
    spec_pos_encode,
    spec_str_encode,
    spec_u16_be,
    spec_u32_be,
    spec_u64_be,
    spec_varint_encode,
    pos_in_range,
};
use crate::world::World;

verus! {

/// One outbound packet, waiting in a connection's queue.
#[derive(Debug, Clone, PartialEq, Eq)]
pub enum Response {
    /// The fixed server-list description document.
    Status,
    /// Echo of a server-list ping payload.
    Pong(u64),
    /// A chat message, as UTF-8 text.
    Chat(Vec<u8>),
    /// Login success for the named player.
    Login(Name),
    /// Enter play state.
    Play(GameMode),
    /// A keepalive probe.
    Ping,
    /// Acknowledge a block-change sequence number.
    AckBlockChange(u32),
    /// One block changed; `None` is air.
    SetBlock(V3, Option<Block>),
    /// Recenter the client's chunk window.
    CenterChunk(i32, i32),
    /// Bulk chunk data for one column. Deprioritized behind every other
    /// response kind when the queue drains.
    LoadChunk(i32, i32),
    /// Drop one column client-side.
    UnloadChunk(i32, i32),
    /// Teleport the player to their authoritative position.
    Position,
    /// Put an item stack into an inventory slot.
    SetInventorySlot(u16, Item, u8, u32),
    /// The server's render distance.
    SetRenderDistance(u8),
    /// Health, food and saturation (health and saturation as f32 bits).
    SetHealth(u32, i32, u32),
    /// Respawn the player.
    Respawn,
}

/// The mathematical image of a queued response: buffers become byte
/// sequences, everything else carries over unchanged.
pub enum ResponseV {
    Status,
    Pong(u64),
    Chat(Seq<u8>),
    Login(Seq<u8>),
    Play(GameMode),
    Ping,
    AckBlockChange(u32),
    SetBlock(V3, Option<Block>),
    CenterChunk(i32, i32),
    LoadChunk(i32, i32),
    UnloadChunk(i32, i32),
    Position,
    SetInventorySlot(u16, Item, u8, u32),
    SetRenderDistance(u8),
    SetHealth(u32, i32, u32),
    Respawn,
}

impl View for Response {
    type V = ResponseV;

    open spec fn view(&self) -> ResponseV {
        match self {
            Response::Status => ResponseV::Status,
            Response::Pong(n) => ResponseV::Pong(*n),
            Response::Chat(m) => ResponseV::Chat(m@),
            Response::Login(n) => ResponseV::Login(n@),
            Response::Play(g) => ResponseV::Play(*g),
            Response::Ping => ResponseV::Ping,
            Response::AckBlockChange(s) => ResponseV::AckBlockChange(*s),
            Response::SetBlock(p, b) => ResponseV::SetBlock(*p, *b),
            Response::CenterChunk(x, z) => ResponseV::CenterChunk(*x, *z),
            Response::LoadChunk(x, z) => ResponseV::LoadChunk(*x, *z),
            Response::UnloadChunk(x, z) => ResponseV::UnloadChunk(*x, *z),
            Response::Position => ResponseV::Position,
            Response::SetInventorySlot(s, it, c, q) => ResponseV::SetInventorySlot(
                *s,
                *it,
                *c,
                *q,
            ),
            Response::SetRenderDistance(d) => ResponseV::SetRenderDistance(*d),
            Response::SetHealth(h, f, sa) => ResponseV::SetHealth(*h, *f, *sa),
            Response::Respawn => ResponseV::Respawn,
        }
    }
}

/// The one response kind that yields its place in the queue to every
/// other kind.
pub open spec fn is_load_chunk(r: ResponseV) -> bool {
    r is LoadChunk
}

/// The queue, seen mathematically.
pub open spec fn queue_view(q: Seq<Response>) -> Seq<ResponseV> {
    Seq::new(q.len(), |i: int| q[i]@)
}

impl Response {
    /// Whether this response is bulk chunk data, to be deprioritized.
    pub fn low_priority(&self) -> (b: bool)
        ensures
            b == is_load_chunk(self@),
    {
        match self {
            Response::LoadChunk(..) => true,
            _ => false,
        }
    }
}


/// The JSON document that serde_json produces for a chat message: an
/// object with the message under the key `text`. Its exact bytes depend
/// on the library's string escaping, so they are named, not restated.
pub uninterp spec fn json_chat_doc(msg: Seq<u8>) -> Seq<u8>;

/// Relies on serde_json::to_string: the document for a one-entry object
/// is a function of the entry alone.
#[verifier::external_body]
fn chat_json(msg: &[u8]) -> (r: Vec<u8>)
    requires
        vstd::utf8::valid_utf8(msg@),
    ensures
        r@ == json_chat_doc(msg@),
{
    let text = std::str::from_utf8(msg).unwrap_or("");
    let mut doc = serde_json::Map::new();
    doc.insert("text".to_string(), serde_json::Value::String(text.to_string()));
    match serde_json::to_string(&serde_json::Value::Object(doc)) {
        Ok(s) => s.into_bytes(),
        Err(_) => Vec::new(),
    }
}

/// The fixed server-list description document.
pub open spec fn spec_status_doc() -> Seq<u8> {
    vstd::utf8::encode_utf8(
        "{\"version\":{\"name\":\"1.19\",\"protocol\":759},\"players\":{\"max\":1,\"online\":0,\"sample\":[]},\"description\":[\"\",{\"text\":\"g\",\"color\":\"red\"},{\"text\":\"a\",\"color\":\"gold\"},{\"text\":\"a\",\"color\":\"yellow\"},{\"text\":\"a\",\"color\":\"dark_green\"},{\"text\":\"a\",\"color\":\"aqua\"},{\"text\":\"a\",\"color\":\"blue\"},{\"text\":\"y\",\"color\":\"dark_purple\"},{\"text\":\" minecraft\"}]}"@,
    )
}

fn status_doc() -> (v: Vec<u8>)
    ensures
        v@ == spec_status_doc(),
{
    "{\"version\":{\"name\":\"1.19\",\"protocol\":759},\"players\":{\"max\":1,\"online\":0,\"sample\":[]},\"description\":[\"\",{\"text\":\"g\",\"color\":\"red\"},{\"text\":\"a\",\"color\":\"gold\"},{\"text\":\"a\",\"color\":\"yellow\"},{\"text\":\"a\",\"color\":\"dark_green\"},{\"text\":\"a\",\"color\":\"aqua\"},{\"text\":\"a\",\"color\":\"blue\"},{\"text\":\"y\",\"color\":\"dark_purple\"},{\"text\":\" minecraft\"}]}".as_bytes_vec()
}

/// The fallback chat document when the real one would not fit a frame.
pub open spec fn spec_chat_fallback() -> Seq<u8> {
    vstd::utf8::encode_utf8("{\"text\":\"\"}"@)
}

/// The big-endian words of a block range, in order.
pub open spec fn spec_words(b: Seq<u64>, from: int, to: int) -> Seq<u8>
    decreases to - from,
{
    if from >= to {
        Seq::empty()
    } else {
        spec_words(b, from, to - 1) + spec_u64_be(b[to - 1])
    }
}

proof fn lemma_words_len(b: Seq<u64>, from: int, to: int)
    ensures
        spec_words(b, from, to).len() == (if to >= from {
            8 * (to - from)
        } else {
            0
        }),
    decreases to - from,
{
    if from < to {
        lemma_words_len(b, from, to - 1);
    }
}

/// One chunk section on the wire: the non-air count, then either the
/// 3-byte empty marker or the packed words at 15 bits per block, then
/// the 3-byte "no biome data" placeholder.
pub open spec fn spec_layer_data(c: ChunkContent, l: int) -> Seq<u8> {
    let cnt = c.spec_count(l);
    spec_u16_be(cnt as u16) + (if cnt == 0 {
        seq![0u8, 0u8, 0u8]
    } else {
        seq![15u8] + spec_varint_encode(1024) + spec_words(
            c->OneToOne_blocks@,
            1024 * l,
            1024 * (l + 1),
        )
    }) + seq![0u8, 0u8, 0u8]
}

/// The sections of the first `upto` layers, concatenated.
pub open spec fn spec_layers(c: ChunkContent, upto: int) -> Seq<u8>
    decreases upto,
{
    if upto <= 0 {
        Seq::empty()
    } else {
        spec_layers(c, upto - 1) + spec_layer_data(c, upto - 1)
    }
}

/// The full 24-layer chunk payload body.
pub open spec fn spec_chunkdata(c: ChunkContent) -> Seq<u8> {
    spec_layers(c, 24)
}

proof fn lemma_layers_len(c: ChunkContent, upto: int)
    requires
        c.wf(),
        upto <= 24,
    ensures
        spec_layers(c, upto).len() <= 8300 * (if upto >= 0 {
            upto
        } else {
            0
        }),
    decreases upto,
{
    if upto > 0 {
        lemma_layers_len(c, upto - 1);
        match c {
            ChunkContent::OneToOne { nonaircounts, blocks } => {
                lemma_words_len(blocks@, 1024 * (upto - 1), 1024 * upto);
                crate::wire::lemma_varint_encode_len(1024);
            },
        }
    }
}

/// An all-air stand-in column, sent when a queued chunk load outlives
/// its column; a live server never queues one without the column.
pub open spec fn spec_void_column() -> Seq<u8> {
    spec_void_layers(24)
}

pub open spec fn spec_void_layers(upto: int) -> Seq<u8>
    decreases upto,
{
    if upto <= 0 {
        Seq::empty()
    } else {
        spec_void_layers(upto - 1) + (spec_u16_be(0) + seq![0u8, 0u8, 0u8] + seq![
            0u8,
            0u8,
            0u8,
        ])
    }
}

proof fn lemma_void_layers_len(upto: int)
    ensures
        spec_void_layers(upto).len() == 8 * (if upto >= 0 {
            upto
        } else {
            0
        }),
    decreases upto,
{
    if upto > 0 {
        lemma_void_layers_len(upto - 1);
    }
}

/// A block position clamped into the packed format's range; queued
/// positions are always in range, so this is the identity in practice.
pub open spec fn spec_pos_clamp(p: V3) -> V3 {
    if pos_in_range(p) {
        p
    } else {
        V3 { x: 0, y: 0, z: 0 }
    }
}

/// The light-section constants of a demo column: which of the 26
/// sections carry sky light and block light.
pub open spec fn spec_light_tail() -> Seq<u8> {
    spec_varint_encode(0) + seq![1u8] + (spec_varint_encode(1) + spec_u64_be(
        !0x3FFFDFu64,
    ) + spec_varint_encode(1) + spec_u64_be(!0x3FFFFFFu64)) + (spec_varint_encode(1)
        + spec_u64_be(0x3FFFDFu64) + spec_varint_encode(1) + spec_u64_be(0x3FFFFFFu64)) + (
    spec_varint_encode(1) + spec_varint_encode(2048) + Seq::new(2048, |i: int| 0xFFu8)
        + spec_varint_encode(0))
}

/// The payload (packet id included, length prefix not) of a response as
/// it leaves for the client.
pub open spec fn spec_response_payload(r: ResponseV, w: World, pid: int) -> Seq<u8> {
    match r {
        ResponseV::Status => seq![0u8] + spec_str_encode(spec_status_doc()),
        ResponseV::Pong(n) => seq![1u8] + spec_u64_be(n),
        ResponseV::Chat(m) => seq![0x5Fu8] + (if vstd::utf8::valid_utf8(m) && json_chat_doc(
            m,
        ).len() <= 0x10_0000 {
            spec_str_encode(json_chat_doc(m))
        } else {
            spec_str_encode(spec_chat_fallback())
        }) + seq![0u8],
        ResponseV::Login(name) => {
            let nm = if name.len() <= 16 {
                name
            } else {
                name.take(16)
            };
            seq![2u8] + nm + Seq::new((16 - nm.len()) as nat, |i: int| 0xFFu8) + spec_str_encode(
                nm,
            ) + spec_varint_encode(0)
        },
        ResponseV::Play(mode) => seq![0x23u8] + spec_u32_be(1) + seq![0u8] + seq![
            (match mode {
                GameMode::Survival => 0u8,
                GameMode::Creative => 1u8,
            }),
        ] + seq![0xFFu8] + spec_varint_encode(0) + w.spec_registry() + spec_str_encode(
            Seq::empty(),
        ) + spec_str_encode(Seq::empty()) + spec_u64_be(0) + seq![2u8, 8u8, 8u8, 0u8, 1u8, 0u8, 1u8, 0u8],
        ResponseV::Ping => seq![0x2Du8] + spec_u32_be(35453423),
        ResponseV::AckBlockChange(seq) => seq![0x05u8] + spec_varint_encode(seq),
        ResponseV::SetBlock(pos, id) => seq![0x09u8] + spec_u64_be(
            spec_pos_encode(spec_pos_clamp(pos)),
        ) + spec_varint_encode(
            (match id {
                Some(b) => b.id as u32,
                None => 0u32,
            }),
        ),
        ResponseV::CenterChunk(x, z) => seq![0x48u8] + spec_varint_encode(x as u32)
            + spec_varint_encode(z as u32),
        ResponseV::LoadChunk(x, z) => seq![0x1Fu8] + spec_u32_be(x as u32) + spec_u32_be(z as u32)
            + w.spec_heightmap() + (match w.spec_chunk_for(x, z) {
            Some(c) => spec_str_encode(spec_chunkdata(c)),
            None => spec_str_encode(spec_void_column()),
        }) + spec_light_tail(),
        ResponseV::UnloadChunk(x, z) => seq![0x1Au8] + spec_u32_be(x as u32) + spec_u32_be(
            z as u32,
        ),
        ResponseV::Position => seq![0x36u8] + spec_u64_be(
            spec_bits_of_fixed(w.spec_pos_of(pid, 0)),
        ) + spec_u64_be(spec_bits_of_fixed(w.spec_pos_of(pid, 1))) + spec_u64_be(
            spec_bits_of_fixed(w.spec_pos_of(pid, 2)),
        ) + spec_u32_be(0) + spec_u32_be(0) + seq![0u8, 0u8, 0u8],
        ResponseV::SetInventorySlot(slot, it, count, seq) => seq![0x13u8, 0u8]
            + spec_varint_encode(seq) + spec_u16_be(slot) + seq![1u8] + spec_varint_encode(
            it.id as u32,
        ) + seq![count, 0u8],
        ResponseV::SetRenderDistance(d) => seq![0x49u8, d],
        ResponseV::SetHealth(h, food, s) => seq![0x52u8] + spec_u32_be(h) + spec_varint_encode(
            food as u32,
        ) + spec_u32_be(s),
        ResponseV::Respawn => seq![0x3Bu8] + spec_str_encode(Seq::empty()) + spec_str_encode(
            Seq::empty(),
        ) + spec_u64_be(0) + seq![1u8, 0xFFu8, 0u8, 1u8, 1u8, 0u8],
    }
}

/// A whole frame: the payload behind its varint length prefix.
pub open spec fn spec_frame(payload: Seq<u8>) -> Seq<u8> {
    spec_varint_encode(payload.len() as u32) + payload
}


fn chunkdata(c: &ChunkContent) -> (out: Vec<u8>)
    requires
        c.wf(),
    ensures
        out@ == spec_chunkdata(*c),
        out@.len() <= 200000,
{
    let mut out: Vec<u8> = Vec::new();
    match c {
        ChunkContent::OneToOne { nonaircounts, blocks } => {
            let mut l: usize = 0;
            while l < 24
                invariant
                    c.wf(),
                    *c == (ChunkContent::OneToOne {
                        nonaircounts: *nonaircounts,
                        blocks: *blocks,
                    }),
                    l <= 24,
                    out@ == spec_layers(*c, l as int),
                decreases 24 - l,
            {
                let ghost out_pre = out@;
                let cnt: u16 = nonaircounts[l];
                wire::put_u16(&mut out, cnt);
                if cnt == 0 {
                    wire::put_u8(&mut out, 0);
                    wire::put_u8(&mut out, 0);
                    wire::put_u8(&mut out, 0);
                } else {
                    wire::put_u8(&mut out, 15);
                    wire::put_varint(&mut out, 1024);
                    let end: usize = (l + 1) * 1024;
                    let mut w: usize = l * 1024;
                    while w < end
                        invariant
                            c.wf(),
                            *c == (ChunkContent::OneToOne {
                                nonaircounts: *nonaircounts,
                                blocks: *blocks,
                            }),
                            l < 24,
                            end == (l + 1) * 1024,
                            l * 1024 <= w <= end,
                            out@ == out_pre + spec_u16_be(cnt) + seq![15u8] + spec_varint_encode(
                                1024,
                            ) + spec_words(blocks@, 1024 * (l as int), w as int),
                        decreases end - w,
                    {
                        wire::put_u64(&mut out, blocks[w]);
                        proof {
                            assert(out@ =~= out_pre + spec_u16_be(cnt) + seq![15u8]
                                + spec_varint_encode(1024) + spec_words(
                                blocks@,
                                1024 * (l as int),
                                w + 1,
                            ));
                        }
                        w = w + 1;
                    }
                }
                wire::put_u8(&mut out, 0);
                wire::put_u8(&mut out, 0);
                wire::put_u8(&mut out, 0);
                proof {
                    assert(out@ =~= spec_layers(*c, l as int + 1));
                }
                l = l + 1;
            }
            proof {
                lemma_layers_len(*c, 24);
            }
        },
    }
    out
}

fn void_column() -> (out: Vec<u8>)
    ensures
        out@ == spec_void_column(),
        out@.len() <= 200000,
{
    let mut out: Vec<u8> = Vec::new();
    let mut l: usize = 0;
    while l < 24
        invariant
            l <= 24,
            out@ == spec_void_layers(l as int),
        decreases 24 - l,
    {
        wire::put_u16(&mut out, 0);
        wire::put_u8(&mut out, 0);
        wire::put_u8(&mut out, 0);
        wire::put_u8(&mut out, 0);
        wire::put_u8(&mut out, 0);
        wire::put_u8(&mut out, 0);
        wire::put_u8(&mut out, 0);
        proof {
            assert(out@ =~= spec_void_layers(l as int + 1));
        }
        l = l + 1;
    }
    proof {
        lemma_void_layers_len(24);
    }
    out
}

impl Response {
    /// Serialize this response as one complete frame: the varint length
    /// prefix, the packet id, and the payload, byte-exact.
    #[verifier::rlimit(60)]
    pub fn write(&self, world: &World, pid: usize) -> (out: Vec<u8>)
        requires
            world.wf(),
        ensures
            out@ == spec_frame(spec_response_payload(self@, *world, pid as int)),
    {
        let mut p: Vec<u8> = Vec::new();
        match self {
            Response::Status => {
                wire::put_u8(&mut p, 0);
                let doc = status_doc();
                wire::put_str(&mut p, doc.as_slice());
            },
            Response::Pong(n) => {
                wire::put_u8(&mut p, 1);
                wire::put_u64(&mut p, *n);
            },
            Response::Chat(m) => {
                wire::put_u8(&mut p, 0x5F);
                let valid: bool = std::str::from_utf8(m.as_slice()).is_ok();
                if valid {
                    let doc = chat_json(m.as_slice());
                    if doc.len() <= 0x10_0000 {
                        wire::put_str(&mut p, doc.as_slice());
                    } else {
                        let fb = chat_fallback();
                        wire::put_str(&mut p, fb.as_slice());
                    }
                } else {
                    let fb = chat_fallback();
                    wire::put_str(&mut p, fb.as_slice());
                }
                wire::put_u8(&mut p, 0);
            },
            Response::Login(name) => {
                wire::put_u8(&mut p, 2);
                let nb = name.bytes();
                let nm: &[u8] = if nb.len() <= 16 {
                    nb.as_slice()
                } else {
                    vstd::slice::slice_subrange(nb.as_slice(), 0, 16)
                };
                wire::put_raw(&mut p, nm);
                let mut pad: usize = nm.len();
                while pad < 16
                    invariant
                        nm@.len() <= pad <= 16,
                        p@ == seq![2u8] + nm@ + Seq::new((pad - nm@.len()) as nat, |i: int| 0xFFu8),
                    decreases 16 - pad,
                {
                    wire::put_u8(&mut p, 0xFF);
                    proof {
                        assert(p@ =~= seq![2u8] + nm@ + Seq::new(
                            (pad + 1 - nm@.len()) as nat,
                            |i: int| 0xFFu8,
                        ));
                    }
                    pad = pad + 1;
                }
                wire::put_str(&mut p, nm);
                wire::put_varint(&mut p, 0);
            },
            Response::Play(mode) => {
                wire::put_u8(&mut p, 0x23);
                wire::put_u32(&mut p, 1);
                wire::put_u8(&mut p, 0);
                wire::put_u8(
                    &mut p,
                    match mode {
                        GameMode::Survival => 0,
                        GameMode::Creative => 1,
                    },
                );
                wire::put_u8(&mut p, 0xFF);
                wire::put_varint(&mut p, 0);
                wire::put_raw(&mut p, world.registry_bytes().as_slice());
                wire::put_varint(&mut p, 0);
                wire::put_varint(&mut p, 0);
                wire::put_u64(&mut p, 0);
                wire::put_u8(&mut p, 2);
                wire::put_u8(&mut p, 8);
                wire::put_u8(&mut p, 8);
                wire::put_u8(&mut p, 0);
                wire::put_u8(&mut p, 1);
                wire::put_u8(&mut p, 0);
                wire::put_u8(&mut p, 1);
                wire::put_u8(&mut p, 0);
                proof {
                    assert(spec_str_encode(Seq::<u8>::empty()) =~= spec_varint_encode(0));
                }
            },
            Response::Ping => {
                wire::put_u8(&mut p, 0x2D);
                wire::put_u32(&mut p, 35453423);
            },
            Response::AckBlockChange(seqn) => {
                wire::put_u8(&mut p, 0x05);
                wire::put_varint(&mut p, *seqn);
            },
            Response::SetBlock(pos, id) => {
                wire::put_u8(&mut p, 0x09);
                let cp: V3 = if -0x200_0000 <= pos.x && pos.x < 0x200_0000 && -0x200_0000 <= pos.z
                    && pos.z < 0x200_0000 && -0x800 <= pos.y && pos.y < 0x800 {
                    *pos
                } else {
                    V3 { x: 0, y: 0, z: 0 }
                };
                wire::put_u64(&mut p, wire::pos_encode(cp));
                wire::put_varint(
                    &mut p,
                    match id {
                        Some(b) => b.net_id() as u32,
                        None => 0,
                    },
                );
            },
            Response::CenterChunk(x, z) => {
                wire::put_u8(&mut p, 0x48);
                wire::put_varint(&mut p, #[verifier::truncate] (*x as u32));
                wire::put_varint(&mut p, #[verifier::truncate] (*z as u32));
            },
            Response::LoadChunk(x, z) => {
                wire::put_u8(&mut p, 0x1F);
                wire::put_i32(&mut p, *x);
                wire::put_i32(&mut p, *z);
                wire::put_raw(&mut p, world.heightmap_bytes().as_slice());
                match world.chunk_at(*x, *z) {
                    Some(ch) => {
                        let data = chunkdata(&ch.content);
                        wire::put_str(&mut p, data.as_slice());
                    },
                    None => {
                        let data = void_column();
                        wire::put_str(&mut p, data.as_slice());
                    },
                }
                wire::put_varint(&mut p, 0);
                wire::put_u8(&mut p, 1);
                wire::put_varint(&mut p, 1);
                wire::put_u64(&mut p, !0x3FFFDFu64);
                wire::put_varint(&mut p, 1);
                wire::put_u64(&mut p, !0x3FFFFFFu64);
                wire::put_varint(&mut p, 1);
                wire::put_u64(&mut p, 0x3FFFDFu64);
                wire::put_varint(&mut p, 1);
                wire::put_u64(&mut p, 0x3FFFFFFu64);
                wire::put_varint(&mut p, 1);
                wire::put_varint(&mut p, 2048);
                let ghost light_pre = p@;
                let mut i: usize = 0;
                while i < 2048
                    invariant
                        i <= 2048,
                        p@ == light_pre + Seq::new(i as nat, |k: int| 0xFFu8),
                    decreases 2048 - i,
                {
                    wire::put_u8(&mut p, 0xFF);
                    proof {
                        assert(p@ =~= light_pre + Seq::new((i + 1) as nat, |k: int| 0xFFu8));
                    }
                    i = i + 1;
                }
                wire::put_varint(&mut p, 0);
                proof {
                    assert(Seq::new(2048nat, |k: int| 0xFFu8) =~= Seq::new(
                        2048nat,
                        |i: int| 0xFFu8,
                    ));
                }
            },
            Response::UnloadChunk(x, z) => {
                wire::put_u8(&mut p, 0x1A);
                wire::put_i32(&mut p, *x);
                wire::put_i32(&mut p, *z);
            },
            Response::Position => {
                wire::put_u8(&mut p, 0x36);
                let (px, py, pz): (i64, i64, i64) = if pid < world.players_len() {
                    world.player_pos(pid)
                } else {
                    (0, 0, 0)
                };
                wire::put_u64(&mut p, bits_of_fixed(px));
                wire::put_u64(&mut p, bits_of_fixed(py));
                wire::put_u64(&mut p, bits_of_fixed(pz));
                wire::put_u32(&mut p, 0);
                wire::put_u32(&mut p, 0);
                wire::put_u8(&mut p, 0);
                wire::put_u8(&mut p, 0);
                wire::put_u8(&mut p, 0);
            },
            Response::SetInventorySlot(slot, it, count, seqn) => {
                wire::put_u8(&mut p, 0x13);
                wire::put_u8(&mut p, 0);
                wire::put_varint(&mut p, *seqn);
                wire::put_u16(&mut p, *slot);
                wire::put_u8(&mut p, 1);
                wire::put_varint(&mut p, it.net_id() as u32);
                wire::put_u8(&mut p, *count);
                wire::put_u8(&mut p, 0);
            },
            Response::SetRenderDistance(d) => {
                wire::put_u8(&mut p, 0x49);
                wire::put_u8(&mut p, *d);
            },
            Response::SetHealth(h, food, s) => {
                wire::put_u8(&mut p, 0x52);
                wire::put_u32(&mut p, *h);
                wire::put_varint(&mut p, #[verifier::truncate] (*food as u32));
                wire::put_u32(&mut p, *s);
            },
            Response::Respawn => {
                wire::put_u8(&mut p, 0x3B);
                wire::put_varint(&mut p, 0);
                wire::put_varint(&mut p, 0);
                wire::put_u64(&mut p, 0);
                wire::put_u8(&mut p, 1);
                wire::put_u8(&mut p, 0xFF);
                wire::put_u8(&mut p, 0);
                wire::put_u8(&mut p, 1);
                wire::put_u8(&mut p, 1);
                wire::put_u8(&mut p, 0);
                proof {
                    assert(spec_str_encode(Seq::<u8>::empty()) =~= spec_varint_encode(0));
                }
            },
        }
        proof {
            assert(p@ == spec_response_payload(self@, *world, pid as int));
        }
        let mut out: Vec<u8> = Vec::new();
        wire::put_varint(&mut out, #[verifier::truncate] (p.len() as u32));
        wire::put_raw(&mut out, p.as_slice());
        out
    }
}

fn chat_fallback() -> (v: Vec<u8>)
    ensures
        v@ == spec_chat_fallback(),
{
    "{\"text\":\"\"}".as_bytes_vec()
}

} // verus!
