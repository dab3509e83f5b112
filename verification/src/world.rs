//! The authoritative world: chunk storage with a coordinate index,
//! player state, and the tick counter with its per-tick maintenance.

use vstd::prelude::*;
use std::collections::HashMap;
use crate::chunk::{Chunk, ChunkContent, COLUMN_BLOCKS};
use crate::client::{Client, clients_extended, lemma_clients_extended_refl, lemma_clients_extended_trans, lemma_prefix_push};
use crate::fixed::fixed_in_range;
use crate::response::{Response, ResponseV, is_load_chunk};
use crate::slotmap::SlotMap;
use crate::types::{Block, GameMode, Hand, BlockFace, Item, Name, V3};

verus! {

broadcast use vstd::std_specs::hash::group_hash_axioms;

/// A connected player's state. Identity is the slot index shared with
/// the connection.
pub struct Player {
    pub name: Name,
    /// Position in fixed-point steps (1/16384 block).
    pub px: i64,
    pub py: i64,
    pub pz: i64,
    pub view_distance: u8,
    pub hotbar: Vec<Option<Item>>,
    pub selected_item: u8,
    /// The tick on which the last keepalive acknowledgement arrived.
    pub last_ping_ack: u32,
}

impl Player {
    pub open spec fn wf(&self) -> bool {
        &&& self.name.wf()
        &&& self.hotbar@.len() == 10
        &&& self.selected_item < 10
        &&& self.view_distance >= 1
        &&& fixed_in_range(self.px)
        &&& fixed_in_range(self.py)
        &&& fixed_in_range(self.pz)
        &&& forall|i: int|
            0 <= i < 10 ==> match #[trigger] self.hotbar@[i] {
                Some(it) => it.id < 0x8000,
                None => true,
            }
    }
}

/// Every chunk column keeps its per-layer count invariant, and there
/// are few enough slots for a `u32` index.
pub open spec fn chunks_ok(chunks: Seq<Chunk>) -> bool {
    &&& chunks.len() <= 0xFFFF_FFFF
    &&& forall|c: int| 0 <= c < chunks.len() ==> (#[trigger] chunks[c]).content.wf()
}

/// The coordinate index points only at columns that really serve the
/// looked-up position.
pub open spec fn index_ok(index: Map<u64, u32>, chunks: Seq<Chunk>) -> bool {
    forall|k: u64|
        index.contains_key(k) ==> (((#[trigger] index[k]) as int) < chunks.len() && chunks[index[k] as int].coords
            == k)
}

/// Every player is sound, and slots stay within the 32-bit visibility
/// mask's width.
pub open spec fn players_ok(players: Seq<Player>) -> bool {
    &&& players.len() <= 32
    &&& forall|p: int| 0 <= p < players.len() ==> (#[trigger] players[p]).wf()
}

/// No player has acknowledged a keepalive from the future.
pub open spec fn acks_ok(players: Seq<Player>, tick: u32) -> bool {
    forall|p: int| 0 <= p < players.len() ==> (#[trigger] players[p]).last_ping_ack <= tick
}

/// The packed index key for a chunk column position.
pub open spec fn spec_pack_coords(x: i32, z: i32) -> u64 {
    ((x as u32) as int * 0x1_0000_0000 + (z as u32) as int) as u64
}

/// Pack chunk coordinates into one index key.
pub fn pack_coords(x: i32, z: i32) -> (k: u64)
    ensures
        k == spec_pack_coords(x, z),
{
    (#[verifier::truncate] (x as u32) as u64) * 0x1_0000_0000 + (#[verifier::truncate] (z
        as u32) as u64)
}

/// A loaded dimension. Terrain comes from a generator stub, so a level
/// carries no state of its own yet.
pub struct Level {
}

impl Level {
    /// The built-in empty level.
    pub fn empty() -> Level {
        Level {  }
    }

    /// A level taken from a save directory; the stub generator ignores
    /// the path and always succeeds.
    pub fn from_path(_p: &str) -> (r: Result<Level, std::io::Error>)
        ensures
            r is Ok,
    {
        Ok(Level {  })
    }
}

/// The reason a std::io failure can surface through [`Level::from_path`].
#[verifier::external_type_specification]
#[verifier::external_body]
pub struct ExIoError(std::io::Error);

/// The world: chunk columns, their coordinate index, players, and time.
pub struct World {
    chunks: Vec<Chunk>,
    index: HashMap<u64, u32>,
    players: Vec<Player>,
    tick: u32,
    registry_nbt: Vec<u8>,
    heightmap_nbt: Vec<u8>,
}

impl World {
    /// The chunk columns, by slot.
    pub closed spec fn spec_chunks(&self) -> Seq<Chunk> {
        self.chunks@
    }

    /// Which column slot serves each packed coordinate key.
    pub closed spec fn spec_index(&self) -> Map<u64, u32> {
        self.index@
    }

    /// The player table, by connection slot.
    pub closed spec fn spec_players(&self) -> Seq<Player> {
        self.players@
    }

    /// The current tick.
    pub closed spec fn spec_tick(&self) -> u32 {
        self.tick
    }

    /// The registry document sent during login.
    pub closed spec fn spec_registry(&self) -> Seq<u8> {
        self.registry_nbt@
    }

    /// The heightmap document sent with every chunk.
    pub closed spec fn spec_heightmap(&self) -> Seq<u8> {
        self.heightmap_nbt@
    }

    /// Every chunk keeps its count invariant, the index points at
    /// columns that really serve its key, and every player is sound.
    /// Player slots are capped at 32 by the visibility mask's width.
    pub open spec fn wf(&self) -> bool {
        &&& chunks_ok(self.spec_chunks())
        &&& index_ok(self.spec_index(), self.spec_chunks())
        &&& players_ok(self.spec_players())
        &&& acks_ok(self.spec_players(), self.spec_tick())
        &&& self.spec_registry().len() <= 0x10_0000
        &&& self.spec_heightmap().len() <= 0x10_0000
    }

    /// An empty world at tick zero. The two NBT documents are opaque
    /// bytes spliced into login and chunk packets; the caller provides
    /// them encoded.
    pub fn new(registry_nbt: Vec<u8>, heightmap_nbt: Vec<u8>) -> (w: World)
        requires
            registry_nbt@.len() <= 0x10_0000,
            heightmap_nbt@.len() <= 0x10_0000,
        ensures
            w.wf(),
            w.spec_tick() == 0,
            w.spec_players().len() == 0,
            w.spec_chunks().len() == 0,
            w.spec_index() == Map::<u64, u32>::empty(),
            w.spec_registry() == registry_nbt@,
            w.spec_heightmap() == heightmap_nbt@,
    {
        World {
            chunks: Vec::new(),
            index: HashMap::new(),
            players: Vec::new(),
            tick: 0,
            registry_nbt,
            heightmap_nbt,
        }
    }

    /// The registry document, as provided at construction.
    pub fn registry_bytes(&self) -> (r: &Vec<u8>)
        ensures
            r@ == self.spec_registry(),
    {
        &self.registry_nbt
    }

    /// The heightmap document, as provided at construction.
    pub fn heightmap_bytes(&self) -> (r: &Vec<u8>)
        ensures
            r@ == self.spec_heightmap(),
    {
        &self.heightmap_nbt
    }

    /// How many player slots exist.
    pub fn players_len(&self) -> (n: usize)
        ensures
            n == self.spec_players().len(),
    {
        self.players.len()
    }

    /// The current tick.
    pub fn tick(&self) -> (t: u32)
        ensures
            t == self.spec_tick(),
    {
        self.tick
    }

    /// The tick the engine should advance to next.
    pub fn next_tick(&self) -> (t: u32)
        requires
            self.spec_tick() < 0xFFFF_FFFF,
        ensures
            t == self.spec_tick() + 1,
    {
        self.tick + 1
    }

    /// A player's fixed-point position.
    pub fn player_pos(&self, pid: usize) -> (r: (i64, i64, i64))
        requires
            pid < self.spec_players().len(),
        ensures
            r.0 == self.spec_players()[pid as int].px,
            r.1 == self.spec_players()[pid as int].py,
            r.2 == self.spec_players()[pid as int].pz,
    {
        let p = &self.players[pid];
        (p.px, p.py, p.pz)
    }

    /// The block data serving the given chunk coordinates, if loaded.
    pub open spec fn spec_chunk_for(&self, x: i32, z: i32) -> Option<ChunkContent> {
        if self.spec_index().contains_key(spec_pack_coords(x, z)) {
            Some(self.spec_chunks()[self.spec_index()[spec_pack_coords(x, z)] as int].content)
        } else {
            None
        }
    }

    /// One axis of a player's position; a slot with no player stands at
    /// the origin.
    pub open spec fn spec_pos_of(&self, pid: int, axis: int) -> i64 {
        if 0 <= pid < self.spec_players().len() {
            if axis == 0 {
                self.spec_players()[pid].px
            } else if axis == 1 {
                self.spec_players()[pid].py
            } else {
                self.spec_players()[pid].pz
            }
        } else {
            0
        }
    }

    /// The column serving the given chunk coordinates, if one is loaded.
    pub fn chunk_at(&self, x: i32, z: i32) -> (r: Option<&Chunk>)
        requires
            self.wf(),
        ensures
            match r {
                Some(c) => {
                    &&& self.spec_index().contains_key(spec_pack_coords(x, z))
                    &&& *c == self.spec_chunks()[self.spec_index()[spec_pack_coords(x, z)] as int]
                    &&& c.content.wf()
                },
                None => !self.spec_index().contains_key(spec_pack_coords(x, z)),
            },
    {
        let key = pack_coords(x, z);
        match self.index.get(&key) {
            Some(slot) => {
                proof {
                    assert(self.spec_index().contains_key(key));
                    assert(self.spec_index()[key] == *slot);
                }
                Some(&self.chunks[(*slot) as usize])
            },
            None => None,
        }
    }

    /// Record that the player answered the latest keepalive. Unknown
    /// slots are ignored: a stale handle must not fault the world.
    pub fn acknowledge_ping(&mut self, pid: usize)
        requires
            old(self).wf(),
        ensures
            final(self).wf(),
            final(self).spec_tick() == old(self).spec_tick(),
            final(self).spec_players().len() == old(self).spec_players().len(),
            pid < old(self).spec_players().len() ==> final(self).spec_players()[pid as int] == (
            Player {
                last_ping_ack: old(self).spec_tick(),
                ..old(self).spec_players()[pid as int]
            }),
            forall|p: int|
                0 <= p < old(self).spec_players().len() && p != pid
                    ==> final(self).spec_players()[p] == old(self).spec_players()[p],
            final(self).spec_chunks() == old(self).spec_chunks(),
            final(self).spec_index() == old(self).spec_index(),
            final(self).spec_registry() == old(self).spec_registry(),
            final(self).spec_heightmap() == old(self).spec_heightmap(),
    {
        if pid < self.players.len() {
            let t = self.tick;
            let p = &mut self.players[pid];
            p.last_ping_ack = t;
        }
    }

    /// Remember which hotbar slot the player holds; indices past the
    /// hotbar are ignored.
    pub fn set_held_item(&mut self, pid: usize, hotbar_idx: u8)
        requires
            old(self).wf(),
        ensures
            final(self).wf(),
            pid < old(self).spec_players().len() && hotbar_idx < 10 ==> final(self).spec_players()[pid as int] == (Player {
                selected_item: hotbar_idx,
                ..old(self).spec_players()[pid as int]
            }),
            !(pid < old(self).spec_players().len() && hotbar_idx < 10) ==> final(self).spec_players() == old(self).spec_players(),
            final(self).spec_players().len() == old(self).spec_players().len(),
            forall|p: int|
                0 <= p < old(self).spec_players().len() && p != pid
                    ==> final(self).spec_players()[p] == old(self).spec_players()[p],
            final(self).spec_chunks() == old(self).spec_chunks(),
            final(self).spec_index() == old(self).spec_index(),
            final(self).spec_tick() == old(self).spec_tick(),
            final(self).spec_registry() == old(self).spec_registry(),
            final(self).spec_heightmap() == old(self).spec_heightmap(),
    {
        if pid < self.players.len() && hotbar_idx < 10 {
            let p = &mut self.players[pid];
            p.selected_item = hotbar_idx;
        }
    }

    /// Store an item into a creative-mode hotbar slot; window slots 36
    /// to 45 map onto the hotbar, anything else is ignored.
    pub fn set_creative_slot(&mut self, pid: usize, slot: i16, item: Option<(Item, u8)>)
        requires
            old(self).wf(),
            match item {
                Some((it, _)) => it.id < 0x8000,
                None => true,
            },
        ensures
            final(self).wf(),
            final(self).spec_players().len() == old(self).spec_players().len(),
            final(self).spec_chunks() == old(self).spec_chunks(),
            final(self).spec_index() == old(self).spec_index(),
            final(self).spec_tick() == old(self).spec_tick(),
            final(self).spec_registry() == old(self).spec_registry(),
            final(self).spec_heightmap() == old(self).spec_heightmap(),
            pid < old(self).spec_players().len() && 36 <= slot <= 45 ==> ({
                let a = old(self).spec_players()[pid as int];
                let b = final(self).spec_players()[pid as int];
                &&& b.hotbar@ == a.hotbar@.update(
                    slot - 36,
                    match item {
                        Some((it, _)) => Some(it),
                        None => None,
                    },
                )
                &&& b.name == a.name
                &&& b.px == a.px
                &&& b.py == a.py
                &&& b.pz == a.pz
                &&& b.view_distance == a.view_distance
                &&& b.selected_item == a.selected_item
                &&& b.last_ping_ack == a.last_ping_ack
            }),
            !(pid < old(self).spec_players().len() && 36 <= slot <= 45) ==> final(self).spec_players() == old(self).spec_players(),
            forall|p: int|
                0 <= p < old(self).spec_players().len() && p != pid
                    ==> final(self).spec_players()[p] == old(self).spec_players()[p],
    {
        if pid < self.players.len() && 36 <= slot && slot <= 45 {
            let idx: usize = (slot - 36) as usize;
            let p = &mut self.players[pid];
            let e = &mut p.hotbar[idx];
            *e = match item {
                Some((it, _)) => Some(it),
                None => None,
            };
        }
    }

    /// A window was closed client-side; the world keeps no window state.
    pub fn closed_inventory(&mut self, _pid: usize, _window: u8)
        ensures
            *final(self) == *old(self),
    {
    }

    /// Whether placing a block at this position would intersect any
    /// player's bounding box (0.6 wide, 1.8 tall, measured on the fixed
    /// grid as 4915 and 29491 steps).
    pub open spec fn spec_collides(&self, pos: V3) -> bool {
        exists|p: int|
            0 <= p < self.spec_players().len() && {
                let pl = #[trigger] self.spec_players()[p];
                &&& pl.px - 4915 < (pos.x + 1) * 16384
                &&& pl.px + 4915 > pos.x * 16384
                &&& pl.py < (pos.y + 1) * 16384
                &&& pl.py + 29491 > pos.y * 16384
                &&& pl.pz - 4915 < (pos.z + 1) * 16384
                &&& pl.pz + 4915 > pos.z * 16384
            }
    }

    /// Whether any player's bounding box overlaps the given voxel.
    pub fn does_entity_collide(&self, pos: V3) -> (r: bool)
        requires
            self.wf(),
        ensures
            r == self.spec_collides(pos),
    {
        let bx: i64 = (pos.x as i64) * 16384;
        let by: i64 = (pos.y as i64) * 16384;
        let bz: i64 = (pos.z as i64) * 16384;
        let mut i: usize = 0;
        while i < self.players.len()
            invariant
                self.wf(),
                i <= self.spec_players().len(),
                bx == pos.x as int * 16384,
                by == pos.y as int * 16384,
                bz == pos.z as int * 16384,
                forall|p: int|
                    0 <= p < i ==> !{
                        let pl = #[trigger] self.spec_players()[p];
                        &&& pl.px - 4915 < (pos.x + 1) * 16384
                        &&& pl.px + 4915 > pos.x * 16384
                        &&& pl.py < (pos.y + 1) * 16384
                        &&& pl.py + 29491 > pos.y * 16384
                        &&& pl.pz - 4915 < (pos.z + 1) * 16384
                        &&& pl.pz + 4915 > pos.z * 16384
                    },
            decreases self.spec_players().len() - i,
        {
            let p = &self.players[i];
            if p.px - 4915 < bx + 16384 && p.px + 4915 > bx && p.py < by + 16384 && p.py + 29491
                > by && p.pz - 4915 < bz + 16384 && p.pz + 4915 > bz {
                return true;
            }
            i = i + 1;
        }
        false
    }
}


/// Which bit of a visibility mask a player slot owns.
pub open spec fn sees(mask: u32, pid: int) -> bool {
    mask & (1u32 << (pid as u32)) != 0
}

fn floor_div16(x: i32) -> (q: i32)
    ensures
        q == x as int / 16,
        -0x0800_0000 <= q <= 0x0800_0000,
{
    if x >= 0 {
        let qq: u32 = (x as u32) / 16;
        proof {
            vstd::arithmetic::div_mod::lemma_div_nonincreasing(x as int, 16);
            vstd::arithmetic::div_mod::lemma_div_pos_is_pos(x as int, 16);
        }
        qq as i32
    } else {
        let mm: u32 = (-(x as i64)) as u32;
        let qq: u32 = mm / 16;
        let exact: bool = mm % 16 == 0;
        proof {
            crate::fixed::lemma_neg_div(mm as int, 16);
            vstd::arithmetic::div_mod::lemma_div_nonincreasing(mm as int, 16);
            vstd::arithmetic::div_mod::lemma_div_pos_is_pos(mm as int, 16);
        }
        if exact {
            -(qq as i32)
        } else {
            -(qq as i32) - 1
        }
    }
}

impl World {
    /// Where a block mutation lands: the slot of the column holding the
    /// position, provided the column is loaded and the height is inside
    /// the 384-block band.
    pub open spec fn spec_block_target(&self, pos: V3) -> Option<int> {
        let cx = (pos.x as int / 16) as i32;
        let cz = (pos.z as int / 16) as i32;
        if self.spec_index().contains_key(spec_pack_coords(cx, cz)) && -64 <= pos.y < 320 {
            Some(self.spec_index()[spec_pack_coords(cx, cz)] as int)
        } else {
            None
        }
    }

    /// The flat in-column index of a block position.
    pub open spec fn spec_block_idx(pos: V3) -> int {
        (pos.y + 64) * 256 + (pos.z as int % 16) * 16 + (pos.x as int % 16)
    }

    /// The stored id of an optional block: air is 0.
    pub open spec fn spec_block_id(block: Option<Block>) -> u16 {
        match block {
            Some(b) => b.id,
            None => 0,
        }
    }

    /// Ensure a column is loaded for `pos` and visible to `pid`, and
    /// queue its data for that player.
    ///
    /// A fresh column first reuses any column no player sees any more
    /// (the lazy reuse the allocator promises); only when every slot is
    /// watched does the table grow. No other player loses a column they
    /// see.
    pub fn load_chunk(&mut self, pid: usize, client: &mut Client, pos: (i32, i32))
        requires
            old(self).wf(),
            pid < 32,
        ensures
            final(self).wf(),
            final(self).spec_players() == old(self).spec_players(),
            final(self).spec_tick() == old(self).spec_tick(),
            final(self).spec_registry() == old(self).spec_registry(),
            final(self).spec_heightmap() == old(self).spec_heightmap(),
            final(self).spec_chunks().len() <= old(self).spec_chunks().len() + 1,
            old(self).spec_chunks().len() < 0xFFFF_FFFF ==> final(self).spec_index().contains_key(
                spec_pack_coords(pos.0, pos.1),
            ) && sees(
                final(self).spec_chunks()[final(self).spec_index()[spec_pack_coords(
                    pos.0,
                    pos.1,
                )] as int].visible_to,
                pid as int,
            ),
            // an already-loaded column keeps its data; only the caller's
            // bit is OR'd into its mask, and the index is untouched
            old(self).spec_index().contains_key(spec_pack_coords(pos.0, pos.1)) ==> ({
                let t = old(self).spec_index()[spec_pack_coords(pos.0, pos.1)] as int;
                &&& final(self).spec_index() == old(self).spec_index()
                &&& final(self).spec_chunks().len() == old(self).spec_chunks().len()
                &&& final(self).spec_chunks()[t].content == old(self).spec_chunks()[t].content
                &&& final(self).spec_chunks()[t].coords == old(self).spec_chunks()[t].coords
                &&& final(self).spec_chunks()[t].visible_to == old(self).spec_chunks()[t].visible_to
                    | (1u32 << (pid as u32))
                &&& forall|c: int|
                    0 <= c < old(self).spec_chunks().len() && c != t
                        ==> final(self).spec_chunks()[c] == old(self).spec_chunks()[c]
            }),
            // a fresh position reuses the first column nobody sees, and
            // grows the table only when every column is watched
            !old(self).spec_index().contains_key(spec_pack_coords(pos.0, pos.1)) && old(
                self,
            ).spec_chunks().len() < 0xFFFF_FFFF ==> ({
                let t = final(self).spec_index()[spec_pack_coords(pos.0, pos.1)] as int;
                &&& ((exists|c: int|
                    0 <= c < old(self).spec_chunks().len() && (#[trigger] old(
                        self,
                    ).spec_chunks()[c]).visible_to == 0) ==> {
                    &&& t < old(self).spec_chunks().len()
                    &&& old(self).spec_chunks()[t].visible_to == 0
                    &&& forall|c: int|
                        0 <= c < t ==> (#[trigger] old(self).spec_chunks()[c]).visible_to != 0
                    &&& final(self).spec_chunks().len() == old(self).spec_chunks().len()
                })
                &&& (!(exists|c: int|
                    0 <= c < old(self).spec_chunks().len() && (#[trigger] old(
                        self,
                    ).spec_chunks()[c]).visible_to == 0) ==> t == old(self).spec_chunks().len()
                    && final(self).spec_chunks().len() == old(self).spec_chunks().len() + 1)
            }),
            // a watched column is never overwritten
            forall|c: int|
                0 <= c < old(self).spec_chunks().len() && (#[trigger] old(self).spec_chunks()[c]).visible_to != 0 ==> final(self).spec_chunks()[c].content == old(self).spec_chunks()[c].content && final(self).spec_chunks()[c].coords == old(self).spec_chunks()[c].coords,
            forall|c: int, q: int|
                0 <= c < old(self).spec_chunks().len() && 0 <= q < 32 && #[trigger] sees(
                    old(self).spec_chunks()[c].visible_to,
                    q,
                ) ==> sees(final(self).spec_chunks()[c].visible_to, q),
            // no bit but the caller's ever appears
            forall|c: int, q: int|
                0 <= c < old(self).spec_chunks().len() && 0 <= q < 32 && q != pid && #[trigger] sees(
                    final(self).spec_chunks()[c].visible_to,
                    q,
                ) ==> sees(old(self).spec_chunks()[c].visible_to, q),
            final(client).spec_queue() == old(client).spec_queue().push(
                ResponseV::LoadChunk(pos.0, pos.1),
            ),
            final(client).spec_state() == old(client).spec_state(),
            final(client).spec_pending() == old(client).spec_pending(),
            final(client).spec_rbuf() == old(client).spec_rbuf(),
            final(client).spec_waiting_for_write(),
    {
        let key = pack_coords(pos.0, pos.1);
        let existing: Option<u32> = match self.index.get(&key) {
            Some(s) => Some(*s),
            None => None,
        };
        match existing {
            Some(slot) => {
                let ch = &mut self.chunks[slot as usize];
                let vis = ch.visible_to;
                ch.visible_to = vis | (1u32 << (pid as u32));
                proof {
                    lemma_sees_or(vis, pid as int);
                    assert forall|c: int, q: int|
                        0 <= c < old(self).spec_chunks().len() && 0 <= q < 32 && #[trigger] sees(
                            old(self).spec_chunks()[c].visible_to,
                            q,
                        ) implies sees(self.spec_chunks()[c].visible_to, q) by {
                        if c == slot as int {
                            assert(sees(vis, q));
                        }
                    }
                    assert forall|c: int, q: int|
                        0 <= c < old(self).spec_chunks().len() && 0 <= q < 32 && q != pid
                            && #[trigger] sees(self.spec_chunks()[c].visible_to, q) implies sees(
                        old(self).spec_chunks()[c].visible_to,
                        q,
                    ) by {
                        if c == slot as int {
                            assert(sees(vis | (1u32 << (pid as u32)), q) == sees(vis, q));
                        }
                    }
                }
            },
            None => {
                let mut i: usize = 0;
                while i < self.chunks.len()
                    invariant
                        i <= self.spec_chunks().len(),
                        forall|j: int|
                            0 <= j < i ==> (#[trigger] self.spec_chunks()[j]).visible_to != 0,
                    ensures
                        i <= self.spec_chunks().len(),
                        i < self.spec_chunks().len() ==> self.spec_chunks()[i as int].visible_to
                            == 0,
                        forall|j: int|
                            0 <= j < i ==> (#[trigger] self.spec_chunks()[j]).visible_to != 0,
                    decreases self.spec_chunks().len() - i,
                {
                    if self.chunks[i].visible_to == 0 {
                        break ;
                    }
                    i = i + 1;
                }
                if i < self.chunks.len() {
                    // a column nobody sees: replace its contents
                    let dead_key = self.chunks[i].coords;
                    self.index.remove(&dead_key);
                    proof {
                        assert forall|k: u64|
                            self.spec_index().contains_key(k) implies self.spec_index()[k] as int
                            != i as int by {
                            assert(old(self).spec_chunks()[self.spec_index()[k] as int].coords
                                == k);
                        }
                    }
                    let ch = &mut self.chunks[i];
                    ch.coords = key;
                    ch.visible_to = 1u32 << (pid as u32);
                    ch.content = crate::chunk::ChunkContent::demo();
                    self.index.insert(key, i as u32);
                    proof {
                        assert(self.index@[key] == i as u32);
                        lemma_sees_fresh(pid as int);
                        assert forall|c: int, q: int|
                            0 <= c < old(self).spec_chunks().len() && 0 <= q < 32
                            && #[trigger] sees(
                            old(self).spec_chunks()[c].visible_to,
                            q,
                        ) implies sees(self.spec_chunks()[c].visible_to, q) by {
                            if c == i as int {
                                lemma_sees_zero(q);
                            }
                        }
                        assert forall|c: int, q: int|
                            0 <= c < old(self).spec_chunks().len() && 0 <= q < 32 && q != pid
                                && #[trigger] sees(self.spec_chunks()[c].visible_to, q) implies
                            sees(old(self).spec_chunks()[c].visible_to, q) by {}
                    }
                } else if self.chunks.len() < 0xFFFF_FFFF {
                    let slot: u32 = self.chunks.len() as u32;
                    self.chunks.push(
                        Chunk {
                            visible_to: 1u32 << (pid as u32),
                            coords: key,
                            content: crate::chunk::ChunkContent::demo(),
                        },
                    );
                    self.index.insert(key, slot);
                    proof {
                        assert(self.index@[key] == slot);
                        assert forall|c: int|
                            0 <= c < old(self).spec_chunks().len() implies (#[trigger] old(
                            self,
                        ).spec_chunks()[c]).visible_to != 0 by {}
                        lemma_sees_fresh(pid as int);
                        assert(self.spec_chunks()[slot as int].visible_to == 1u32 << (
                        pid as u32));
                        assert forall|c: int, q: int|
                            0 <= c < old(self).spec_chunks().len() && 0 <= q < 32
                            && #[trigger] sees(
                            old(self).spec_chunks()[c].visible_to,
                            q,
                        ) implies sees(self.spec_chunks()[c].visible_to, q) by {
                            assert(self.spec_chunks()[c] == old(self).spec_chunks()[c]);
                        }
                    }
                } else {
                    // the column table is at the index type's capacity:
                    // drop the load rather than fault
                }
            },
        }
        client.submit(Response::LoadChunk(pos.0, pos.1));
    }
}

proof fn lemma_sees_or(mask: u32, pid: int)
    requires
        0 <= pid < 32,
    ensures
        sees(mask | (1u32 << (pid as u32)), pid),
        forall|q: int| 0 <= q < 32 && sees(mask, q) ==> sees(mask | (1u32 << (pid as u32)), q),
        forall|q: int|
            0 <= q < 32 && q != pid ==> sees(mask | (1u32 << (pid as u32)), q) == sees(mask, q),
{
    let pp = pid as u32;
    assert forall|q: int| 0 <= q < 32 && sees(mask, q) implies sees(mask | (1u32 << pp), q) by {
        let qq = q as u32;
        assert(mask & (1u32 << qq) != 0 ==> (mask | (1u32 << pp)) & (1u32 << qq) != 0)
            by (bit_vector);
    }
    assert forall|q: int| 0 <= q < 32 && q != pid implies sees(mask | (1u32 << pp), q) == sees(
        mask,
        q,
    ) by {
        let qq = q as u32;
        assert(qq < 32 && pp < 32 && qq != pp ==> ((mask | (1u32 << pp)) & (1u32 << qq)) == (mask
            & (1u32 << qq))) by (bit_vector);
    }
    assert(pp < 32 ==> (mask | (1u32 << pp)) & (1u32 << pp) != 0) by (bit_vector);
}

proof fn lemma_sees_zero(q: int)
    requires
        0 <= q < 32,
    ensures
        !sees(0u32, q),
{
    let qq = q as u32;
    assert(0u32 & (1u32 << qq) == 0) by (bit_vector);
}

proof fn lemma_sees_fresh(pid: int)
    requires
        0 <= pid < 32,
    ensures
        sees(1u32 << (pid as u32), pid),
        forall|q: int| 0 <= q < 32 && q != pid ==> !(#[trigger] sees(1u32 << (pid as u32), q)),
{
    let pp = pid as u32;
    assert(pp < 32 ==> (1u32 << pp) & (1u32 << pp) != 0) by (bit_vector);
    assert forall|q: int| 0 <= q < 32 && q != pid implies !sees(1u32 << pp, q) by {
        let qq = q as u32;
        assert(qq < 32 && pp < 32 && qq != pp ==> (1u32 << pp) & (1u32 << qq) == 0) by (bit_vector);
    }
}





/// The cells the discrete line walk visits, in order: the exact mirror
/// of the walker, including its defensive step bound. The start cell is
/// not visited; the walk ends at the destination or when the bound runs
/// out.
pub open spec fn spec_trail_cells(
    curx: int,
    curz: int,
    bx: int,
    bz: int,
    err: int,
    dx: int,
    dz: int,
    incx: int,
    incz: int,
    fuel: int,
) -> Seq<(int, int)>
    decreases fuel,
{
    if fuel <= 0 || (curx == bx && curz == bz) {
        Seq::empty()
    } else {
        let nx = if err > -dx {
            curx + incx
        } else {
            curx
        };
        let e1 = if err > -dx {
            err - dz
        } else {
            err
        };
        let nz = if err < dz {
            curz + incz
        } else {
            curz
        };
        let ne = if err < dz {
            e1 + dx
        } else {
            e1
        };
        seq![(nx, nz)] + spec_trail_cells(nx, nz, bx, bz, ne, dx, dz, incx, incz, fuel - 1)
    }
}

/// The cells of the demo trail between two block columns.
pub open spec fn spec_trail(obx: int, obz: int, bx: int, bz: int) -> Seq<(int, int)> {
    let dx = if bx >= obx {
        bx - obx
    } else {
        obx - bx
    };
    let dz = if bz >= obz {
        bz - obz
    } else {
        obz - bz
    };
    let incx = if obx < bx {
        1int
    } else {
        -1int
    };
    let incz = if obz < bz {
        1int
    } else {
        -1int
    };
    let e0 = if dx > dz {
        dx / 2
    } else {
        -(dz / 2)
    };
    spec_trail_cells(obx, obz, bx, bz, e0, dx, dz, incx, incz, dx + dz + 2)
}

/// A trail cell's voxel holds the demo block, wherever its column is
/// loaded under the given index state.
pub open spec fn trail_cell_painted(w0: World, chunks: Seq<Chunk>, cell: (int, int)) -> bool {
    let p = V3 { x: cell.0 as i32, y: (-1) as i32, z: cell.1 as i32 };
    match w0.spec_block_target(p) {
        Some(t) => chunks[t].content.spec_block(World::spec_block_idx(p)) == 6,
        None => true,
    }
}

/// The sign of a displacement.
pub open spec fn spec_sign(d: int) -> int {
    if d > 0 {
        1int
    } else if d < 0 {
        -1int
    } else {
        0int
    }
}

/// One load of the first ring pass: column `col`, row `i` steps in from
/// the leading edge on the z side.
pub open spec fn spec_move_row(col: int, cz: int, vd: int, zsign: int, i: int) -> ResponseV {
    ResponseV::LoadChunk(col as i32, (cz + (vd - i) * zsign) as i32)
}

/// The first `upto` rows of one column of the first pass.
pub open spec fn spec_move_rows(col: int, cz: int, vd: int, zsign: int, upto: int) -> Seq<
    ResponseV,
>
    decreases upto,
{
    if upto <= 0 {
        Seq::empty()
    } else {
        spec_move_rows(col, cz, vd, zsign, upto - 1) + seq![
            spec_move_row(col, cz, vd, zsign, upto - 1),
        ]
    }
}

/// The first pass of the ring scan: `upto` columns from the low edge of
/// the new view, each loading `zsteps` rows across the z displacement.
pub open spec fn spec_move_pass1(
    cx: int,
    cz: int,
    vd: int,
    zsign: int,
    zsteps: int,
    upto: int,
) -> Seq<ResponseV>
    decreases upto,
{
    if upto <= 0 {
        Seq::empty()
    } else {
        spec_move_pass1(cx, cz, vd, zsign, zsteps, upto - 1) + spec_move_rows(
            cx - vd + (upto - 1),
            cz,
            vd,
            zsign,
            zsteps,
        )
    }
}

/// Every entry of one first-pass column is a chunk load.
pub proof fn lemma_move_rows_all_loads(col: int, cz: int, vd: int, zsign: int, upto: int)
    ensures
        forall|k: int|
            0 <= k < spec_move_rows(col, cz, vd, zsign, upto).len() ==> is_load_chunk(
                #[trigger] spec_move_rows(col, cz, vd, zsign, upto)[k],
            ),
    decreases upto,
{
    if upto > 0 {
        lemma_move_rows_all_loads(col, cz, vd, zsign, upto - 1);
        let s = spec_move_rows(col, cz, vd, zsign, upto);
        let p = spec_move_rows(col, cz, vd, zsign, upto - 1);
        assert forall|k: int| 0 <= k < s.len() implies is_load_chunk(#[trigger] s[k]) by {
            if k < p.len() {
                assert(s[k] == p[k]);
            } else {
                assert(s[k] == spec_move_row(col, cz, vd, zsign, upto - 1));
            }
        }
    }
}

/// Every entry of the first ring pass is a chunk load.
pub proof fn lemma_move_pass1_all_loads(
    cx: int,
    cz: int,
    vd: int,
    zsign: int,
    zsteps: int,
    upto: int,
)
    ensures
        forall|k: int|
            0 <= k < spec_move_pass1(cx, cz, vd, zsign, zsteps, upto).len() ==> is_load_chunk(
                #[trigger] spec_move_pass1(cx, cz, vd, zsign, zsteps, upto)[k],
            ),
    decreases upto,
{
    if upto > 0 {
        lemma_move_pass1_all_loads(cx, cz, vd, zsign, zsteps, upto - 1);
        lemma_move_rows_all_loads(cx - vd + (upto - 1), cz, vd, zsign, zsteps);
        let s = spec_move_pass1(cx, cz, vd, zsign, zsteps, upto);
        let p = spec_move_pass1(cx, cz, vd, zsign, zsteps, upto - 1);
        let t = spec_move_rows(cx - vd + (upto - 1), cz, vd, zsign, zsteps);
        assert forall|k: int| 0 <= k < s.len() implies is_load_chunk(#[trigger] s[k]) by {
            if k < p.len() {
                assert(s[k] == p[k]);
            } else {
                assert(s[k] == t[k - p.len()]);
            }
        }
    }
}

/// One load of the second ring pass: column `xi2` steps in from the
/// leading edge on the x side, row `j` counted from the low z edge.
pub open spec fn spec_move_col(cx: int, cz: int, vd: int, xsign: int, xi2: int, j: int) -> ResponseV {
    ResponseV::LoadChunk((cx + (vd - xi2) * xsign) as i32, (cz - (-vd + j)) as i32)
}

/// The first `upto` rows of one column of the second pass.
pub open spec fn spec_move_zrun(
    cx: int,
    cz: int,
    vd: int,
    xsign: int,
    xi2: int,
    upto: int,
) -> Seq<ResponseV>
    decreases upto,
{
    if upto <= 0 {
        Seq::empty()
    } else {
        spec_move_zrun(cx, cz, vd, xsign, xi2, upto - 1) + seq![
            spec_move_col(cx, cz, vd, xsign, xi2, upto - 1),
        ]
    }
}

/// The second pass of the ring scan: `upto` columns on the x side, each
/// loading the full `2*vd + 1` rows.
pub open spec fn spec_move_pass2(cx: int, cz: int, vd: int, xsign: int, upto: int) -> Seq<
    ResponseV,
>
    decreases upto,
{
    if upto <= 0 {
        Seq::empty()
    } else {
        spec_move_pass2(cx, cz, vd, xsign, upto - 1) + spec_move_zrun(
            cx,
            cz,
            vd,
            xsign,
            upto - 1,
            2 * vd + 1,
        )
    }
}

/// Every column load a boundary-crossing move queues, in the exact
/// two-pass order the scan walks: rows across the z displacement first,
/// then the x-displacement side, each pass capped at one view diameter.
pub open spec fn spec_move_loads(w0: World, pid: int, x: i64, z: i64) -> Seq<ResponseV> {
    let vd = w0.spec_players()[pid].view_distance as int;
    let cx = crate::fixed::spec_chunk_of_fixed(x);
    let cz = crate::fixed::spec_chunk_of_fixed(z);
    let ocx = crate::fixed::spec_chunk_of_fixed(w0.spec_players()[pid].px);
    let ocz = crate::fixed::spec_chunk_of_fixed(w0.spec_players()[pid].pz);
    let maxvs = 2 * vd + 1;
    let xa = if cx - ocx >= 0 {
        cx - ocx
    } else {
        ocx - cx
    };
    let za = if cz - ocz >= 0 {
        cz - ocz
    } else {
        ocz - cz
    };
    let xcols = if maxvs - xa > 0 {
        maxvs - xa
    } else {
        0
    };
    let zsteps = if za < maxvs {
        za
    } else {
        maxvs
    };
    let xsteps = if xa < maxvs {
        xa
    } else {
        maxvs
    };
    spec_move_pass1(cx, cz, vd, spec_sign(cz - ocz), zsteps, xcols) + spec_move_pass2(
        cx,
        cz,
        vd,
        spec_sign(cx - ocx),
        xsteps,
    )
}

/// Whether a move to `(x, z)` crosses a chunk column boundary from the
/// player's stored position.
pub open spec fn spec_col_changed(w: World, pid: int, x: i64, z: i64) -> bool {
    ||| crate::fixed::spec_chunk_of_fixed(x) != crate::fixed::spec_chunk_of_fixed(
        w.spec_players()[pid].px,
    )
    ||| crate::fixed::spec_chunk_of_fixed(z) != crate::fixed::spec_chunk_of_fixed(
        w.spec_players()[pid].pz,
    )
}

/// A connection gained exactly `added`, in place, everything else kept.
pub open spec fn queue_appended(
    pre: Option<Client>,
    cur: Option<Client>,
    added: Seq<ResponseV>,
) -> bool {
    match pre {
        None => cur is None,
        Some(a) => match cur {
            Some(b) => {
                &&& b.spec_queue() == a.spec_queue() + added
                &&& b.spec_state() == a.spec_state()
                &&& b.spec_pending() == a.spec_pending()
                &&& b.spec_rbuf() == a.spec_rbuf()
            },
            None => false,
        },
    }
}

/// Every entry of one second-pass column is a chunk load.
pub proof fn lemma_move_zrun_all_loads(
    cx: int,
    cz: int,
    vd: int,
    xsign: int,
    xi2: int,
    upto: int,
)
    ensures
        forall|k: int|
            0 <= k < spec_move_zrun(cx, cz, vd, xsign, xi2, upto).len() ==> is_load_chunk(
                #[trigger] spec_move_zrun(cx, cz, vd, xsign, xi2, upto)[k],
            ),
    decreases upto,
{
    if upto > 0 {
        lemma_move_zrun_all_loads(cx, cz, vd, xsign, xi2, upto - 1);
        let s = spec_move_zrun(cx, cz, vd, xsign, xi2, upto);
        let p = spec_move_zrun(cx, cz, vd, xsign, xi2, upto - 1);
        assert forall|k: int| 0 <= k < s.len() implies is_load_chunk(#[trigger] s[k]) by {
            if k < p.len() {
                assert(s[k] == p[k]);
            } else {
                assert(s[k] == spec_move_col(cx, cz, vd, xsign, xi2, upto - 1));
            }
        }
    }
}

/// Every entry of the second ring pass is a chunk load.
pub proof fn lemma_move_pass2_all_loads(cx: int, cz: int, vd: int, xsign: int, upto: int)
    ensures
        forall|k: int|
            0 <= k < spec_move_pass2(cx, cz, vd, xsign, upto).len() ==> is_load_chunk(
                #[trigger] spec_move_pass2(cx, cz, vd, xsign, upto)[k],
            ),
    decreases upto,
{
    if upto > 0 {
        lemma_move_pass2_all_loads(cx, cz, vd, xsign, upto - 1);
        lemma_move_zrun_all_loads(cx, cz, vd, xsign, upto - 1, 2 * vd + 1);
        let s = spec_move_pass2(cx, cz, vd, xsign, upto);
        let p = spec_move_pass2(cx, cz, vd, xsign, upto - 1);
        let t = spec_move_zrun(cx, cz, vd, xsign, upto - 1, 2 * vd + 1);
        assert forall|k: int| 0 <= k < s.len() implies is_load_chunk(#[trigger] s[k]) by {
            if k < p.len() {
                assert(s[k] == p[k]);
            } else {
                assert(s[k] == t[k - p.len()]);
            }
        }
    }
}

/// The mover's queue during the ring scan: exactly the old queue, the
/// recenter, and the loads walked so far.
pub open spec fn mover_exact(
    pre: Option<Client>,
    cur: Option<Client>,
    cc: ResponseV,
    loads: Seq<ResponseV>,
) -> bool {
    match pre {
        None => cur is None,
        Some(a) => match cur {
            Some(b) => b.spec_queue() == a.spec_queue().push(cc) + loads,
            None => false,
        },
    }
}

/// The mover's queue after a recentring move: the recenter stands right
/// where the old queue ended, and everything after it is chunk loads or
/// block updates — never another recenter, and nothing lost.
pub open spec fn mover_recentred(
    pre: Option<Client>,
    post: Option<Client>,
    cx: i32,
    cz: i32,
) -> bool {
    match pre {
        None => post is None,
        Some(a) => match post {
            Some(b) => {
                &&& b.spec_queue().len() > a.spec_queue().len()
                &&& forall|j: int|
                    0 <= j < a.spec_queue().len() ==> #[trigger] b.spec_queue()[j]
                        == a.spec_queue()[j]
                &&& b.spec_queue()[a.spec_queue().len() as int] == ResponseV::CenterChunk(cx, cz)
                &&& forall|j: int|
                    a.spec_queue().len() < j < b.spec_queue().len() ==> is_load_chunk(
                        #[trigger] b.spec_queue()[j],
                    ) || b.spec_queue()[j] is SetBlock
            },
            None => false,
        },
    }
}

/// Queues gained nothing but block updates, in place after what was
/// already there; phases and buffers are untouched.
pub open spec fn only_set_blocks_added(
    pre: Seq<Option<Client>>,
    post: Seq<Option<Client>>,
) -> bool {
    &&& post.len() == pre.len()
    &&& forall|cid: int|
        0 <= cid < pre.len() ==> match #[trigger] pre[cid] {
            None => post[cid] is None,
            Some(a) => match post[cid] {
                Some(b) => {
                    &&& b.spec_queue().len() >= a.spec_queue().len()
                    &&& forall|j: int|
                        0 <= j < a.spec_queue().len() ==> #[trigger] b.spec_queue()[j]
                            == a.spec_queue()[j]
                    &&& forall|j: int|
                        a.spec_queue().len() <= j < b.spec_queue().len() ==> (
                        #[trigger] b.spec_queue()[j]) is SetBlock
                    &&& b.spec_state() == a.spec_state()
                    &&& b.spec_pending() == a.spec_pending()
                    &&& b.spec_rbuf() == a.spec_rbuf()
                },
                None => false,
            },
        }
}

/// The columns changed at most in the trail band: the height of the
/// painted blocks, one layer below the surface grid origin.
pub open spec fn chunks_trail_frame(pre: Seq<Chunk>, post: Seq<Chunk>) -> bool {
    &&& post.len() == pre.len()
    &&& forall|c: int|
        0 <= c < pre.len() ==> (#[trigger] post[c]).coords == pre[c].coords && post[c].visible_to
            == pre[c].visible_to
    &&& forall|c: int, k: int|
        0 <= c < pre.len() && 0 <= k < COLUMN_BLOCKS && !(16128 <= k < 16384) ==> (
        #[trigger] post[c].content.spec_block(k)) == pre[c].content.spec_block(k)
}

/// Whether a block change at `pos` is reported to connection `cid`:
/// only when the position's column is loaded and the connection's bit is
/// set in its visibility mask.
pub open spec fn spec_sb_deliver(w: World, pos: V3, cid: int) -> bool {
    &&& w.spec_block_target(pos) is Some
    &&& cid < 32
    &&& sees(w.spec_chunks()[w.spec_block_target(pos).unwrap()].visible_to, cid)
}

/// How one connection's state may change when a response is fanned out:
/// nothing at all, unless the connection is live, playing and selected,
/// in which case exactly `r` is appended to its queue.
pub open spec fn fanout_effect(
    pre: Option<Client>,
    post: Option<Client>,
    deliver: bool,
    r: ResponseV,
) -> bool {
    match pre {
        None => post is None,
        Some(cl) => match post {
            Some(cl2) => {
                &&& cl2.spec_state() == cl.spec_state()
                &&& cl2.spec_pending() == cl.spec_pending()
                &&& cl2.spec_rbuf() == cl.spec_rbuf()
                &&& if deliver && cl.spec_state() is Play {
                    cl2.spec_queue() == cl.spec_queue().push(r) && cl2.spec_waiting_for_write()
                } else {
                    cl2 == cl
                }
            },
            None => false,
        },
    }
}

impl World {
    /// Write a block (or air) at `pos`, keep the layer counts true, and
    /// tell every playing connection whose visibility bit is set in the
    /// column's mask — whoever caused the change.
    ///
    /// A position in no loaded column, or outside the height band, is
    /// ignored.
    pub fn set_block(&mut self, pos: V3, block: Option<Block>, clients: &mut SlotMap<Client>)
        requires
            old(self).wf(),
            old(clients).wf(),
            World::spec_block_id(block) < 0x8000,
        ensures
            final(self).wf(),
            final(clients).wf(),
            final(self).spec_players() == old(self).spec_players(),
            final(self).spec_tick() == old(self).spec_tick(),
            final(self).spec_index() == old(self).spec_index(),
            final(self).spec_registry() == old(self).spec_registry(),
            final(self).spec_heightmap() == old(self).spec_heightmap(),
            final(self).spec_chunks().len() == old(self).spec_chunks().len(),
            match old(self).spec_block_target(pos) {
                None => final(self).spec_chunks() == old(self).spec_chunks(),
                Some(t) => {
                    &&& forall|c: int|
                        0 <= c < old(self).spec_chunks().len() && c != t
                            ==> final(self).spec_chunks()[c] == old(self).spec_chunks()[c]
                    &&& final(self).spec_chunks()[t].visible_to == old(self).spec_chunks()[t].visible_to
                    &&& final(self).spec_chunks()[t].coords == old(self).spec_chunks()[t].coords
                    &&& final(self).spec_chunks()[t].content.spec_block(World::spec_block_idx(pos))
                        == World::spec_block_id(block)
                    &&& forall|k: int|
                        0 <= k < COLUMN_BLOCKS && k != World::spec_block_idx(pos) ==> final(self).spec_chunks()[t].content.spec_block(k) == old(self).spec_chunks()[t].content.spec_block(k)
                },
            },
            forall|cid: int|
                0 <= cid < old(clients)@.len() ==> #[trigger] fanout_effect(
                    old(clients)@[cid],
                    final(clients)@[cid],
                    spec_sb_deliver(*old(self), pos, cid),
                    ResponseV::SetBlock(pos, block),
                ),
            final(clients)@.len() == old(clients)@.len(),
    {
        let cx: i32 = floor_div16(pos.x);
        let cz: i32 = floor_div16(pos.z);
        let key = pack_coords(cx, cz);
        let slot_opt: Option<u32> = match self.index.get(&key) {
            Some(s) => Some(*s),
            None => None,
        };
        proof {
            vstd::arithmetic::div_mod::lemma_fundamental_div_mod(pos.x as int, 16);
            vstd::arithmetic::div_mod::lemma_fundamental_div_mod(pos.z as int, 16);
        }
        let (si, vis): (usize, u32) = match slot_opt {
            None => {
                return ;
            },
            Some(s) => {
                if pos.y < -64 || pos.y >= 320 {
                    return ;
                }
                let xr: i32 = pos.x - cx * 16;
                let zr: i32 = pos.z - cz * 16;
                let idx: usize = ((pos.y + 64) as usize) * 256 + (zr as usize) * 16 + (
                xr as usize);
                proof {
                    assert(idx == World::spec_block_idx(pos));
                }
                let id: u16 = match block {
                    Some(b) => b.net_id(),
                    None => 0,
                };
                let ch = &mut self.chunks[s as usize];
                let _old_id = ch.content.set_block_at(idx, id);
                let vis = ch.visible_to;
                (s as usize, vis)
            },
        };
        let ghost wsnap = *self;
        let n = clients.len_slots();
        let mut cid: usize = 0;
        while cid < n
            invariant
                *self == wsnap,
                clients.wf(),
                n == clients@.len(),
                clients@.len() == old(clients)@.len(),
                cid <= n,
                old(self).spec_block_target(pos) is Some,
                old(self).spec_block_target(pos).unwrap() == si as int,
                si < wsnap.spec_chunks().len(),
                vis == old(self).spec_chunks()[si as int].visible_to,
                forall|k: int| cid <= k < n ==> clients@[k] == old(clients)@[k],
                forall|k: int|
                    0 <= k < cid ==> #[trigger] fanout_effect(
                        old(clients)@[k],
                        clients@[k],
                        spec_sb_deliver(*old(self), pos, k),
                        ResponseV::SetBlock(pos, block),
                    ),
            decreases n - cid,
        {
            let deliver: bool = cid < 32 && (vis & (1u32 << (cid as u32))) != 0;
            if deliver {
                match clients.get_mut(cid) {
                    Some(c) => {
                        if c.is_playing() {
                            c.submit(Response::SetBlock(pos, block));
                        }
                    },
                    None => {},
                }
            }
            cid = cid + 1;
        }
    }

    /// Send a chat line to every playing connection.
    pub fn chat_message(&self, clients: &mut SlotMap<Client>, msg: &[u8])
        requires
            self.wf(),
            old(clients).wf(),
        ensures
            final(clients).wf(),
            final(clients)@.len() == old(clients)@.len(),
            forall|cid: int|
                0 <= cid < old(clients)@.len() ==> #[trigger] fanout_effect(
                    old(clients)@[cid],
                    final(clients)@[cid],
                    true,
                    ResponseV::Chat(msg@),
                ),
    {
        let n = clients.len_slots();
        let mut cid: usize = 0;
        while cid < n
            invariant
                clients.wf(),
                n == clients@.len(),
                clients@.len() == old(clients)@.len(),
                cid <= n,
                forall|k: int| cid <= k < n ==> clients@[k] == old(clients)@[k],
                forall|k: int|
                    0 <= k < cid ==> #[trigger] fanout_effect(
                        old(clients)@[k],
                        clients@[k],
                        true,
                        ResponseV::Chat(msg@),
                    ),
            decreases n - cid,
        {
            match clients.get_mut(cid) {
                Some(c) => {
                    if c.is_playing() {
                        let copy = vstd::slice::slice_to_vec(msg);
                        c.submit(Response::Chat(copy));
                    }
                },
                None => {},
            }
            cid = cid + 1;
        }
    }

    /// Carry out a chat command: `kill` drops the sender's health to
    /// zero; anything else is ignored.
    pub fn run_command(&self, pid: usize, clients: &mut SlotMap<Client>, cmd: &[u8])
        requires
            self.wf(),
            old(clients).wf(),
        ensures
            final(clients).wf(),
            final(clients)@.len() == old(clients)@.len(),
            forall|cid: int|
                0 <= cid < old(clients)@.len() && cid != pid ==> final(clients)@[cid] == old(clients)@[cid],
            (pid as int) < old(clients)@.len() ==> match old(clients)@[pid as int] {
                None => final(clients)@[pid as int] is None,
                Some(cl) => match final(clients)@[pid as int] {
                    Some(cl2) => {
                        &&& cl2.spec_state() == cl.spec_state()
                        &&& cl2.spec_pending() == cl.spec_pending()
                        &&& cl2.spec_rbuf() == cl.spec_rbuf()
                        &&& if cmd@ == seq![107u8, 105u8, 108u8, 108u8] {
                            cl2.spec_queue() == cl.spec_queue().push(
                                ResponseV::SetHealth(0, 0, 0),
                            ) && cl2.spec_waiting_for_write()
                        } else {
                            cl2 == cl
                        }
                    },
                    None => false,
                },
            },
    {
        let is_kill: bool = cmd.len() == 4 && cmd[0] == 107 && cmd[1] == 105 && cmd[2] == 108
            && cmd[3] == 108;
        proof {
            if is_kill {
                assert(cmd@ =~= seq![107u8, 105u8, 108u8, 108u8]);
            } else {
                assert(cmd@ != seq![107u8, 105u8, 108u8, 108u8]);
            }
        }
        if is_kill {
            match clients.get_mut(pid) {
                Some(c) => {
                    c.submit(Response::SetHealth(0, 0, 0));
                },
                None => {},
            }
        }
    }
}


/// The chat line greeting a freshly logged-in player.
pub open spec fn spec_greeting(name: Seq<u8>) -> Seq<u8> {
    vstd::utf8::encode_utf8("server says hi "@) + name
}

/// Everything a successful login queues, in order: the login
/// acknowledgement, the play state, the initial 3-by-3 square of chunk
/// columns, the authoritative position, and a greeting. Chunk loads sit
/// in the middle of the queue but are deprioritized on the way out.
pub open spec fn spec_login_queue(name: Seq<u8>) -> Seq<ResponseV> {
    seq![
        ResponseV::Login(name),
        ResponseV::Play(GameMode::Creative),
        ResponseV::LoadChunk(-1i32, -1i32),
        ResponseV::LoadChunk(-1i32, 0i32),
        ResponseV::LoadChunk(-1i32, 1i32),
        ResponseV::LoadChunk(0i32, -1i32),
        ResponseV::LoadChunk(0i32, 0i32),
        ResponseV::LoadChunk(0i32, 1i32),
        ResponseV::LoadChunk(1i32, -1i32),
        ResponseV::LoadChunk(1i32, 0i32),
        ResponseV::LoadChunk(1i32, 1i32),
        ResponseV::Position,
        ResponseV::Chat(spec_greeting(name)),
    ]
}

/// The state a player starts in.
pub open spec fn spec_fresh_player(name: Seq<u8>, tick: u32, p: Player) -> bool {
    &&& p.name@ == name
    &&& p.px == 0 && p.py == 0 && p.pz == 0
    &&& p.view_distance == 1
    &&& p.hotbar@.len() == 10
    &&& (forall|i: int| 0 <= i < 10 ==> #[trigger] p.hotbar@[i] is None)
    &&& p.selected_item == 0
    &&& p.last_ping_ack == tick
}

impl World {
    fn fresh_player(name: &Name, tick: u32) -> (p: Player)
        requires
            name.wf(),
        ensures
            p.wf(),
            spec_fresh_player(name@, tick, p),
    {
        Player {
            name: name.duplicate(),
            px: 0,
            py: 0,
            pz: 0,
            view_distance: 1,
            hotbar: vec![None; 10],
            selected_item: 0,
            last_ping_ack: tick,
        }
    }

    /// Seat a player in slot `pid`: queue the login exchange and the
    /// initial view-distance square of columns, and (re)initialize the
    /// player entry, growing the table up to the slot if it is new.
    #[verifier::loop_isolation(false)]
    pub fn login(&mut self, pid: usize, name: Name, client: &mut Client)
        requires
            old(self).wf(),
            pid < 32,
            name.wf(),
        ensures
            final(self).wf(),
            final(self).spec_tick() == old(self).spec_tick(),
            final(self).spec_registry() == old(self).spec_registry(),
            final(self).spec_heightmap() == old(self).spec_heightmap(),
            final(client).spec_queue() == old(client).spec_queue() + spec_login_queue(name@),
            final(client).spec_state() == old(client).spec_state(),
            final(client).spec_pending() == old(client).spec_pending(),
            final(client).spec_rbuf() == old(client).spec_rbuf(),
            final(self).spec_players().len() == (if pid + 1 > old(self).spec_players().len() {
                (pid + 1) as int
            } else {
                old(self).spec_players().len() as int
            }),
            spec_fresh_player(name@, old(self).spec_tick(), final(self).spec_players()[pid as int]),
            forall|j: int|
                0 <= j < old(self).spec_players().len() && j != pid
                    ==> final(self).spec_players()[j] == old(self).spec_players()[j],
            forall|j: int|
                old(self).spec_players().len() <= j < final(self).spec_players().len() && j != pid
                    ==> spec_fresh_player(
                    name@,
                    old(self).spec_tick(),
                    #[trigger] final(self).spec_players()[j],
                ),
    {
        client.submit(Response::Login(name.duplicate()));
        client.submit(Response::Play(GameMode::Creative));
        self.load_chunk(pid, client, (-1, -1));
        self.load_chunk(pid, client, (-1, 0));
        self.load_chunk(pid, client, (-1, 1));
        self.load_chunk(pid, client, (0, -1));
        self.load_chunk(pid, client, (0, 0));
        self.load_chunk(pid, client, (0, 1));
        self.load_chunk(pid, client, (1, -1));
        self.load_chunk(pid, client, (1, 0));
        self.load_chunk(pid, client, (1, 1));
        client.submit(Response::Position);
        let mut greeting: Vec<u8> = "server says hi ".as_bytes_vec();
        let nb = name.bytes();
        greeting.extend_from_slice(nb.as_slice());
        proof {
            assert(greeting@ == spec_greeting(name@));
        }
        client.submit(Response::Chat(greeting));
        proof {
            assert(final(client).spec_queue() =~= old(client).spec_queue() + spec_login_queue(
                name@,
            ));
        }
        let tick = self.tick;
        let newp = Self::fresh_player(&name, tick);
        let ghost players0 = self.players@;
        let ghost chunks_snap = self.chunks@;
        let ghost index_snap = self.index@;
        if self.players.len() <= pid {
            while self.players.len() <= pid
                invariant
                    pid < 32,
                    name.wf(),
                    players0.len() <= self.players@.len() <= pid + 1,
                    forall|j: int| 0 <= j < players0.len() ==> self.players@[j] == players0[j],
                    forall|j: int|
                        players0.len() <= j < self.players@.len() ==> (
                        #[trigger] self.players@[j]).wf() && spec_fresh_player(
                            name@,
                            tick,
                            self.players@[j],
                        ),
                    self.chunks@ == chunks_snap,
                    self.index@ == index_snap,
                    self.tick == tick,
                    self.registry_nbt@ == old(self).spec_registry(),
                    self.heightmap_nbt@ == old(self).spec_heightmap(),
                    chunks_ok(self.spec_chunks()),
                    index_ok(self.spec_index(), self.spec_chunks()),
                decreases pid + 1 - self.players@.len(),
            {
                let filler = Self::fresh_player(&name, tick);
                self.players.push(filler);
            }
        }
        let e = &mut self.players[pid];
        *e = newp;
        proof {
            assert forall|p: int|
                0 <= p < self.players@.len() implies (#[trigger] self.players@[p]).wf()
                && self.players@[p].last_ping_ack <= self.tick by {
                if p == pid {
                } else if p < players0.len() {
                    assert(self.players@[p] == old(self).spec_players()[p]);
                }
            }
        }
    }
}


proof fn lemma_sees_clear(mask: u32, pid: int)
    requires
        0 <= pid < 32,
    ensures
        !sees(mask & !(1u32 << (pid as u32)), pid),
        forall|q: int|
            0 <= q < 32 && q != pid ==> sees(mask & !(1u32 << (pid as u32)), q) == sees(mask, q),
        forall|q: int| 0 <= q < 32 && sees(mask & !(1u32 << (pid as u32)), q) ==> sees(mask, q),
{
    let pp = pid as u32;
    assert(pp < 32 ==> (mask & !(1u32 << pp)) & (1u32 << pp) == 0) by (bit_vector);
    assert forall|q: int| 0 <= q < 32 && q != pid implies sees(mask & !(1u32 << pp), q) == sees(
        mask,
        q,
    ) by {
        let qq = q as u32;
        assert(qq < 32 && pp < 32 && qq != pp ==> ((mask & !(1u32 << pp)) & (1u32 << qq)) == (mask
            & (1u32 << qq))) by (bit_vector);
    }
}

/// Whether a maintenance boundary at tick `t` finds the acknowledgement
/// `ack` stale.
pub open spec fn maintenance_due(t: int, ack: u32) -> bool {
    t % 100 == 0 && t > ack + 100
}

/// Whether some maintenance boundary in `[t0, tickn)` finds `ack` stale:
/// such a player is logged out by that boundary.
pub open spec fn spec_timed_out(t0: u32, tickn: int, ack: u32) -> bool {
    exists|t: int| t0 <= t < tickn && #[trigger] maintenance_due(t, ack)
}

/// How many maintenance boundaries `[t0, t1)` holds: one per multiple of
/// 100 ticks.
pub open spec fn spec_boundaries(t0: int, t1: int) -> int
    decreases t1 - t0,
{
    if t0 >= t1 {
        0
    } else {
        (if t0 % 100 == 0 {
            1int
        } else {
            0int
        }) + spec_boundaries(t0 + 1, t1)
    }
}

proof fn lemma_boundaries_snoc(t0: int, t1: int)
    requires
        t0 <= t1,
    ensures
        spec_boundaries(t0, t1 + 1) == spec_boundaries(t0, t1) + (if t1 % 100 == 0 {
            1int
        } else {
            0int
        }),
    decreases t1 - t0,
{
    if t0 < t1 {
        lemma_boundaries_snoc(t0 + 1, t1);
    } else {
        assert(spec_boundaries(t0 + 1, t1 + 1) == 0);
        assert(spec_boundaries(t0, t1) == 0);
    }
}

proof fn lemma_ping_one(q: Seq<ResponseV>)
    ensures
        q + Seq::new(1nat, |i: int| ResponseV::Ping) == q.push(ResponseV::Ping),
{
    assert(q + Seq::new(1nat, |i: int| ResponseV::Ping) =~= q.push(ResponseV::Ping));
}

proof fn lemma_boundaries_nonneg(t0: int, t1: int)
    ensures
        spec_boundaries(t0, t1) >= 0,
    decreases t1 - t0,
{
    if t0 < t1 {
        lemma_boundaries_nonneg(t0 + 1, t1);
    }
}

proof fn lemma_pinged_zero_all(cs: Seq<Option<Client>>)
    ensures
        forall|cid: int|
            0 <= cid < cs.len() ==> match #[trigger] cs[cid] {
                Some(cl) => pinged(cl, cl, 0),
                None => true,
            },
{
    assert forall|cid: int| 0 <= cid < cs.len() implies match #[trigger] cs[cid] {
        Some(cl) => pinged(cl, cl, 0),
        None => true,
    } by {
        match cs[cid] {
            Some(cl) => {
                assert(cl.spec_queue() + Seq::new(0nat, |i: int| ResponseV::Ping)
                    =~= cl.spec_queue());
            },
            None => {},
        }
    }
}

/// How a surviving connection looks after maintenance: the same phase
/// and buffers, with exactly `nb` keepalives appended to its queue.
pub open spec fn pinged(cl: Client, cl2: Client, nb: int) -> bool {
    &&& cl2.spec_state() == cl.spec_state()
    &&& cl2.spec_queue() == cl.spec_queue() + Seq::new(nb as nat, |i: int| ResponseV::Ping)
    &&& cl2.spec_pending() == cl.spec_pending()
    &&& cl2.spec_rbuf() == cl.spec_rbuf()
    &&& (nb > 0 ==> cl2.spec_waiting_for_write())
    &&& (nb == 0 ==> cl2.spec_waiting_for_write() == cl.spec_waiting_for_write())
}

impl World {
    /// Clear a departing player's visibility bit in every column; a
    /// column it was the only viewer of becomes reusable.
    pub fn logout(&mut self, pid: usize)
        requires
            old(self).wf(),
            pid < 32,
        ensures
            final(self).wf(),
            final(self).spec_players() == old(self).spec_players(),
            final(self).spec_tick() == old(self).spec_tick(),
            final(self).spec_index() == old(self).spec_index(),
            final(self).spec_registry() == old(self).spec_registry(),
            final(self).spec_heightmap() == old(self).spec_heightmap(),
            final(self).spec_chunks().len() == old(self).spec_chunks().len(),
            forall|c: int|
                0 <= c < old(self).spec_chunks().len() ==> {
                    let ch0 = #[trigger] old(self).spec_chunks()[c];
                    let ch1 = final(self).spec_chunks()[c];
                    &&& ch1.coords == ch0.coords
                    &&& ch1.content == ch0.content
                    &&& ch1.visible_to == ch0.visible_to & !(1u32 << (pid as u32))
                },
            forall|c: int|
                0 <= c < final(self).spec_chunks().len() ==> !sees(
                    (#[trigger] final(self).spec_chunks()[c]).visible_to,
                    pid as int,
                ),
            forall|c: int, q: int|
                0 <= c < final(self).spec_chunks().len() && 0 <= q < 32 && #[trigger] sees(
                    final(self).spec_chunks()[c].visible_to,
                    q,
                ) ==> sees(old(self).spec_chunks()[c].visible_to, q),
    {
        let n = self.chunks.len();
        let mut c: usize = 0;
        while c < n
            invariant
                n == self.chunks@.len(),
                c <= n,
                self.players@ == old(self).spec_players(),
                self.tick == old(self).spec_tick(),
                self.index@ == old(self).spec_index(),
                self.registry_nbt@ == old(self).spec_registry(),
                self.heightmap_nbt@ == old(self).spec_heightmap(),
                self.chunks@.len() == old(self).spec_chunks().len(),
                pid < 32,
                old(self).wf(),
                forall|k: int|
                    0 <= k < c ==> {
                        let ch0 = #[trigger] old(self).spec_chunks()[k];
                        let ch1 = self.chunks@[k];
                        &&& ch1.coords == ch0.coords
                        &&& ch1.content == ch0.content
                        &&& ch1.visible_to == ch0.visible_to & !(1u32 << (pid as u32))
                    },
                forall|k: int| c <= k < n ==> self.chunks@[k] == old(self).spec_chunks()[k],
            decreases n - c,
        {
            let ch = &mut self.chunks[c];
            let vis = ch.visible_to;
            ch.visible_to = vis & !(1u32 << (pid as u32));
            c = c + 1;
        }
        proof {
            assert forall|k: int|
                0 <= k < self.chunks@.len() implies (#[trigger] self.chunks@[k]).content.wf() by {
                assert(old(self).spec_chunks()[k].content.wf());
            }
            assert forall|k: u64| self.index@.contains_key(k) implies ((
            #[trigger] self.index@[k]) as int) < self.chunks@.len() && self.chunks@[self.index@[k] as int].coords
                == k by {
                assert(old(self).spec_chunks()[old(self).spec_index()[k] as int].coords == k);
            }
            assert forall|c2: int, q: int|
                0 <= c2 < self.chunks@.len() && 0 <= q < 32 && #[trigger] sees(
                    self.chunks@[c2].visible_to,
                    q,
                ) implies sees(old(self).spec_chunks()[c2].visible_to, q) by {
                lemma_sees_clear(old(self).spec_chunks()[c2].visible_to, pid as int);
            }
            assert forall|c2: int|
                0 <= c2 < self.chunks@.len() implies !sees(
                    (#[trigger] self.chunks@[c2]).visible_to,
                    pid as int,
                ) by {
                lemma_sees_clear(old(self).spec_chunks()[c2].visible_to, pid as int);
            }
        }
    }

    /// One keepalive sweep at the current tick: every playing connection
    /// with a player entry is either logged out — its acknowledgement
    /// being more than 100 ticks stale — or sent a fresh keepalive.
    fn keepalive_sweep(&mut self, clients: &mut SlotMap<Client>)
        requires
            old(self).wf(),
            old(clients).wf(),
        ensures
            final(self).wf(),
            final(clients).wf(),
            final(self).spec_players() == old(self).spec_players(),
            final(self).spec_tick() == old(self).spec_tick(),
            final(self).spec_index() == old(self).spec_index(),
            final(self).spec_registry() == old(self).spec_registry(),
            final(self).spec_heightmap() == old(self).spec_heightmap(),
            final(self).spec_chunks().len() == old(self).spec_chunks().len(),
            forall|c: int|
                0 <= c < old(self).spec_chunks().len() ==> (#[trigger] final(self).spec_chunks()[c]).coords == old(self).spec_chunks()[c].coords && final(self).spec_chunks()[c].content == old(self).spec_chunks()[c].content,
            forall|c: int, q: int|
                0 <= c < old(self).spec_chunks().len() && 0 <= q < 32 && #[trigger] sees(
                    final(self).spec_chunks()[c].visible_to,
                    q,
                ) ==> sees(old(self).spec_chunks()[c].visible_to, q),
            final(clients)@.len() == old(clients)@.len(),
            forall|cid: int|
                0 <= cid < old(clients)@.len() ==> match #[trigger] old(clients)@[cid] {
                    None => final(clients)@[cid] is None,
                    Some(cl) => {
                        if cl.spec_state() is Play && 0 <= cid < old(self).spec_players().len()
                            && old(self).spec_tick() > old(self).spec_players()[cid].last_ping_ack + 100 {
                            &&& final(clients)@[cid] is None
                            &&& forall|c: int|
                                0 <= c < final(self).spec_chunks().len() ==> !sees(
                                    (#[trigger] final(self).spec_chunks()[c]).visible_to,
                                    cid,
                                )
                        } else if cl.spec_state() is Play && 0 <= cid < old(self).spec_players().len() {
                            match final(clients)@[cid] {
                                Some(cl2) => pinged(cl, cl2, 1),
                                None => false,
                            }
                        } else {
                            final(clients)@[cid] == old(clients)@[cid]
                        }
                    },
                },
    {
        let t = self.tick;
        let n = clients.len_slots();
        let mut cid: usize = 0;
        while cid < n
            invariant
                self.wf(),
                clients.wf(),
                n == clients@.len(),
                clients@.len() == old(clients)@.len(),
                cid <= n,
                t == old(self).spec_tick(),
                self.players@ == old(self).spec_players(),
                self.tick == old(self).spec_tick(),
                self.index@ == old(self).spec_index(),
                self.registry_nbt@ == old(self).spec_registry(),
                self.heightmap_nbt@ == old(self).spec_heightmap(),
                self.chunks@.len() == old(self).spec_chunks().len(),
                old(self).wf(),
                forall|c: int|
                    0 <= c < old(self).spec_chunks().len() ==> (
                    #[trigger] self.chunks@[c]).coords == old(self).spec_chunks()[c].coords
                        && self.chunks@[c].content == old(self).spec_chunks()[c].content,
                forall|c: int, q: int|
                    0 <= c < old(self).spec_chunks().len() && 0 <= q < 32 && #[trigger] sees(
                        self.chunks@[c].visible_to,
                        q,
                    ) ==> sees(old(self).spec_chunks()[c].visible_to, q),
                forall|k: int| cid <= k < n ==> clients@[k] == old(clients)@[k],
                forall|k: int|
                    0 <= k < cid ==> match #[trigger] old(clients)@[k] {
                        None => clients@[k] is None,
                        Some(cl) => {
                            if cl.spec_state() is Play && 0 <= k < old(self).spec_players().len() && old(self).spec_tick() > old(self).spec_players()[k].last_ping_ack + 100 {
                                &&& clients@[k] is None
                                &&& forall|c: int|
                                    0 <= c < self.chunks@.len() ==> !sees(
                                        (#[trigger] self.chunks@[c]).visible_to,
                                        k,
                                    )
                            } else if cl.spec_state() is Play && 0 <= k < old(self).spec_players().len() {
                                match clients@[k] {
                                    Some(cl2) => pinged(cl, cl2, 1),
                                    None => false,
                                }
                            } else {
                                clients@[k] == old(clients)@[k]
                            }
                        },
                    },
            decreases n - cid,
        {
            let playing: bool = match clients.get(cid) {
                Some(c) => c.is_playing(),
                None => false,
            };
            if playing && cid < self.players.len() {
                let ack: u32 = self.players[cid].last_ping_ack;
                if t - ack > 100 {
                    let ghost pre_chunks = self.chunks@;
                    clients.release(cid);
                    self.logout(cid);
                    proof {
                        assert forall|c2: int|
                            0 <= c2 < self.chunks@.len() implies (
                            #[trigger] self.chunks@[c2]).coords == old(self).spec_chunks()[c2].coords && self.chunks@[c2].content == old(self).spec_chunks()[c2].content by {
                            assert(pre_chunks[c2].coords == old(self).spec_chunks()[c2].coords);
                            assert(pre_chunks[c2].content == old(self).spec_chunks()[c2].content);
                        }
                        // earlier logouts stay logged out: bits only ever
                        // get cleared
                        assert forall|k: int, c: int|
                            0 <= k < 32 && 0 <= c < self.chunks@.len() && !sees(
                                pre_chunks[c].visible_to,
                                k,
                            ) implies !(#[trigger] sees(self.chunks@[c].visible_to, k)) by {
                            lemma_sees_clear(pre_chunks[c].visible_to, cid as int);
                        }
                    }
                } else {
                    match clients.get_mut(cid) {
                        Some(c) => {
                            c.submit(Response::Ping);
                        },
                        None => {},
                    }
                    proof {
                        match old(clients)@[cid as int] {
                            Some(cl) => lemma_ping_one(cl.spec_queue()),
                            None => {},
                        }
                    }
                }
            }
            cid = cid + 1;
        }
    }

    /// Run discrete ticks until the counter reaches `tickn`; every 100
    /// ticks a keepalive sweep runs first, so a player whose last
    /// acknowledgement is more than 100 ticks stale at a maintenance
    /// boundary is logged out — its connection slot freed and its chunk
    /// visibility bits cleared — by that boundary.
    pub fn tick_until(&mut self, tickn: u32, clients: &mut SlotMap<Client>)
        requires
            old(self).wf(),
            old(clients).wf(),
        ensures
            final(self).wf(),
            final(clients).wf(),
            final(self).spec_tick() == (if tickn > old(self).spec_tick() {
                tickn
            } else {
                old(self).spec_tick()
            }),
            final(self).spec_players() == old(self).spec_players(),
            final(self).spec_index() == old(self).spec_index(),
            final(self).spec_registry() == old(self).spec_registry(),
            final(self).spec_heightmap() == old(self).spec_heightmap(),
            final(self).spec_chunks().len() == old(self).spec_chunks().len(),
            forall|c: int|
                0 <= c < old(self).spec_chunks().len() ==> (#[trigger] final(self).spec_chunks()[c]).coords == old(self).spec_chunks()[c].coords && final(self).spec_chunks()[c].content == old(self).spec_chunks()[c].content,
            tickn <= old(self).spec_tick() ==> *final(self) == *old(self) && *final(clients)
                == *old(clients),
            final(clients)@.len() == old(clients)@.len(),
            forall|cid: int|
                0 <= cid < old(clients)@.len() ==> match #[trigger] old(clients)@[cid] {
                    None => final(clients)@[cid] is None,
                    Some(cl) => {
                        if cl.spec_state() is Play && 0 <= cid < old(self).spec_players().len()
                            && spec_timed_out(
                            old(self).spec_tick(),
                            tickn as int,
                            old(self).spec_players()[cid].last_ping_ack,
                        ) {
                            &&& final(clients)@[cid] is None
                            &&& forall|c: int|
                                0 <= c < final(self).spec_chunks().len() ==> !sees(
                                    (#[trigger] final(self).spec_chunks()[c]).visible_to,
                                    cid,
                                )
                        } else if cl.spec_state() is Play && 0 <= cid < old(self).spec_players().len() {
                            // a lively player: exactly one keepalive per
                            // maintenance boundary passed
                            match final(clients)@[cid] {
                                Some(cl2) => pinged(
                                    cl,
                                    cl2,
                                    spec_boundaries(
                                        old(self).spec_tick() as int,
                                        final(self).spec_tick() as int,
                                    ),
                                ),
                                None => false,
                            }
                        } else {
                            final(clients)@[cid] == old(clients)@[cid]
                        }
                    },
                },
    {
        if self.tick >= tickn {
            return ;
        }
        proof {
            lemma_pinged_zero_all(clients@);
        }
        while self.tick < tickn
            invariant
                self.wf(),
                clients.wf(),
                old(self).spec_tick() <= self.tick,
                tickn > old(self).spec_tick() ==> self.tick <= tickn,
                tickn <= old(self).spec_tick() ==> self.tick == old(self).spec_tick(),
                self.players@ == old(self).spec_players(),
                self.index@ == old(self).spec_index(),
                self.registry_nbt@ == old(self).spec_registry(),
                self.heightmap_nbt@ == old(self).spec_heightmap(),
                self.chunks@.len() == old(self).spec_chunks().len(),
                forall|c: int|
                    0 <= c < old(self).spec_chunks().len() ==> (
                    #[trigger] self.chunks@[c]).coords == old(self).spec_chunks()[c].coords
                        && self.chunks@[c].content == old(self).spec_chunks()[c].content,
                clients@.len() == old(clients)@.len(),
                old(self).wf(),
                forall|cid: int|
                    0 <= cid < old(clients)@.len() ==> match #[trigger] old(clients)@[cid] {
                        None => clients@[cid] is None,
                        Some(cl) => {
                            if cl.spec_state() is Play && 0 <= cid < old(self).spec_players().len() && spec_timed_out(
                                old(self).spec_tick(),
                                self.tick as int,
                                old(self).spec_players()[cid].last_ping_ack,
                            ) {
                                &&& clients@[cid] is None
                                &&& forall|c: int|
                                    0 <= c < self.chunks@.len() ==> !sees(
                                        (#[trigger] self.chunks@[c]).visible_to,
                                        cid,
                                    )
                            } else if cl.spec_state() is Play && 0 <= cid < old(self).spec_players().len() {
                                match clients@[cid] {
                                    Some(cl2) => pinged(
                                        cl,
                                        cl2,
                                        spec_boundaries(
                                            old(self).spec_tick() as int,
                                            self.tick as int,
                                        ),
                                    ),
                                    None => false,
                                }
                            } else {
                                clients@[cid] == old(clients)@[cid]
                            }
                        },
                    },
            decreases tickn - self.tick,
        {
            let ghost pre = *self;
            let ghost pre_clients = *clients;
            if self.tick % 100 == 0 {
                self.keepalive_sweep(clients);
            }
            proof {
                let t0 = old(self).spec_tick();
                let tcur = pre.spec_tick() as int;
                lemma_boundaries_snoc(t0 as int, tcur);
                lemma_boundaries_nonneg(t0 as int, tcur);
                assert forall|cid: int|
                    0 <= cid < old(clients)@.len() implies match #[trigger] old(clients)@[cid] {
                    None => clients@[cid] is None,
                    Some(cl) => {
                        if cl.spec_state() is Play && 0 <= cid < old(self).spec_players().len()
                            && spec_timed_out(
                            t0,
                            tcur + 1,
                            old(self).spec_players()[cid].last_ping_ack,
                        ) {
                            &&& clients@[cid] is None
                            &&& forall|c: int|
                                0 <= c < self.chunks@.len() ==> !sees(
                                    (#[trigger] self.chunks@[c]).visible_to,
                                    cid,
                                )
                        } else if cl.spec_state() is Play && 0 <= cid < old(self).spec_players().len() {
                            match clients@[cid] {
                                Some(cl2) => pinged(cl, cl2, spec_boundaries(t0 as int, tcur + 1)),
                                None => false,
                            }
                        } else {
                            clients@[cid] == old(clients)@[cid]
                        }
                    },
                } by {
                    match old(clients)@[cid] {
                        None => {},
                        Some(cl) => {
                            if cl.spec_state() is Play && 0 <= cid < old(self).spec_players().len() {
                                let ack = old(self).spec_players()[cid].last_ping_ack;
                                if spec_timed_out(t0, tcur + 1, ack) {
                                    let t = choose|t: int|
                                        t0 <= t < tcur + 1 && #[trigger] maintenance_due(t, ack);
                                    if t < tcur {
                                        assert(spec_timed_out(t0, tcur, ack));
                                        assert(pre_clients@[cid] is None);
                                        assert(forall|c: int|
                                            0 <= c < pre.spec_chunks().len() ==> !sees(
                                                (#[trigger] pre.spec_chunks()[c]).visible_to,
                                                cid,
                                            ));
                                        assert(clients@[cid] is None);
                                        assert forall|c: int|
                                            0 <= c < self.chunks@.len() implies !(#[trigger] sees(
                                            self.chunks@[c].visible_to,
                                            cid,
                                        )) by {
                                            assert(!sees(pre.spec_chunks()[c].visible_to, cid));
                                        }
                                    } else {
                                        assert(t == tcur);
                                        assert(maintenance_due(tcur, ack));
                                        assert(tcur % 100 == 0 && tcur > ack + 100);
                                        if pre_clients@[cid] is None {
                                            // already dropped at an earlier boundary
                                            assert(spec_timed_out(t0, tcur, ack));
                                            assert(clients@[cid] is None);
                                            assert forall|c: int|
                                                0 <= c < self.chunks@.len() implies !(
                                            #[trigger] sees(
                                                self.chunks@[c].visible_to,
                                                cid,
                                            )) by {
                                                assert(!sees(
                                                    pre.spec_chunks()[c].visible_to,
                                                    cid,
                                                ));
                                            }
                                        } else {
                                            // the sweep at this boundary drops it
                                            assert(clients@[cid] is None);
                                        }
                                    }
                                } else {
                                    // a survivor: not stale at any boundary so far
                                    assert(!spec_timed_out(t0, tcur, ack));
                                    assert(!maintenance_due(tcur, ack));
                                    let nb = spec_boundaries(t0 as int, tcur);
                                    assert(pre_clients@[cid] is Some);
                                    let clp = pre_clients@[cid].unwrap();
                                    assert(pinged(cl, clp, nb));
                                    if tcur % 100 == 0 {
                                        // the sweep queued exactly one keepalive
                                        assert(clients@[cid] is Some);
                                        let cl2 = clients@[cid].unwrap();
                                        assert(pinged(clp, cl2, 1));
                                        assert(cl.spec_queue() + Seq::new(
                                            nb as nat,
                                            |i: int| ResponseV::Ping,
                                        ) + Seq::new(1nat, |i: int| ResponseV::Ping)
                                            =~= cl.spec_queue() + Seq::new(
                                            (nb + 1) as nat,
                                            |i: int| ResponseV::Ping,
                                        ));
                                        assert(pinged(cl, cl2, nb + 1));
                                    } else {
                                        assert(clients@[cid] == pre_clients@[cid]);
                                        assert(spec_boundaries(t0 as int, tcur + 1) == nb);
                                    }
                                }
                            }
                        },
                    }
                }
            }
            self.tick = self.tick + 1;
        }
    }
}


/// The voxel on the named side of a clicked block.
pub open spec fn spec_face_offset(pos: V3, face: BlockFace) -> V3 {
    match face {
        BlockFace::Top => V3 { x: pos.x, y: (pos.y + 1) as i32, z: pos.z },
        BlockFace::Bottom => V3 { x: pos.x, y: (pos.y - 1) as i32, z: pos.z },
        BlockFace::North => V3 { x: pos.x, y: pos.y, z: (pos.z - 1) as i32 },
        BlockFace::South => V3 { x: pos.x, y: pos.y, z: (pos.z + 1) as i32 },
        BlockFace::West => V3 { x: (pos.x - 1) as i32, y: pos.y, z: pos.z },
        BlockFace::East => V3 { x: (pos.x + 1) as i32, y: pos.y, z: pos.z },
    }
}

impl World {
    /// The block the player would place with the given hand: the item in
    /// the selected hotbar slot (or the off-hand slot), if it places one.
    pub open spec fn spec_held_block(&self, pid: int, hand: Hand) -> Option<Block> {
        if 0 <= pid < self.spec_players().len() {
            let p = self.spec_players()[pid];
            let slot = match hand {
                Hand::Main => p.selected_item as int,
                Hand::Secondary => 9,
            };
            match p.hotbar@[slot] {
                Some(it) => if it.id != 0 {
                    Some(Block { id: it.id })
                } else {
                    None
                },
                None => None,
            }
        } else {
            None
        }
    }

    /// Break the block at `pos`: write air and tell every viewer.
    pub fn break_at(&mut self, clients: &mut SlotMap<Client>, pos: V3)
        requires
            old(self).wf(),
            old(clients).wf(),
        ensures
            final(self).wf(),
            final(clients).wf(),
            final(self).spec_players() == old(self).spec_players(),
            final(self).spec_tick() == old(self).spec_tick(),
            final(self).spec_index() == old(self).spec_index(),
            final(self).spec_registry() == old(self).spec_registry(),
            final(self).spec_heightmap() == old(self).spec_heightmap(),
            final(self).spec_chunks().len() == old(self).spec_chunks().len(),
            match old(self).spec_block_target(pos) {
                None => final(self).spec_chunks() == old(self).spec_chunks(),
                Some(t) => final(self).spec_chunks()[t].content.spec_block(
                    World::spec_block_idx(pos),
                ) == 0,
            },
            forall|cid: int|
                0 <= cid < old(clients)@.len() ==> #[trigger] fanout_effect(
                    old(clients)@[cid],
                    final(clients)@[cid],
                    spec_sb_deliver(*old(self), pos, cid),
                    ResponseV::SetBlock(pos, None),
                ),
            final(clients)@.len() == old(clients)@.len(),
    {
        self.set_block(pos, None, clients);
    }

    /// Place a block unless it would intersect a player.
    pub fn try_set_block(&mut self, pos: V3, block: Block, clients: &mut SlotMap<Client>)
        requires
            old(self).wf(),
            old(clients).wf(),
            block.wf(),
        ensures
            final(self).wf(),
            final(clients).wf(),
            final(self).spec_players() == old(self).spec_players(),
            final(self).spec_tick() == old(self).spec_tick(),
            final(self).spec_index() == old(self).spec_index(),
            final(self).spec_registry() == old(self).spec_registry(),
            final(self).spec_heightmap() == old(self).spec_heightmap(),
            final(self).spec_chunks().len() == old(self).spec_chunks().len(),
            final(clients)@.len() == old(clients)@.len(),
            old(self).spec_collides(pos) ==> *final(self) == *old(self) && *final(clients) == *old(clients),
            !old(self).spec_collides(pos) ==> {
                &&& match old(self).spec_block_target(pos) {
                    None => final(self).spec_chunks() == old(self).spec_chunks(),
                    Some(t) => final(self).spec_chunks()[t].content.spec_block(
                        World::spec_block_idx(pos),
                    ) == block.id,
                }
                &&& forall|cid: int|
                    0 <= cid < old(clients)@.len() ==> #[trigger] fanout_effect(
                        old(clients)@[cid],
                        final(clients)@[cid],
                        spec_sb_deliver(*old(self), pos, cid),
                        ResponseV::SetBlock(pos, Some(block)),
                    )
            },
    {
        if !self.does_entity_collide(pos) {
            self.set_block(pos, Some(block), clients);
        }
    }

    /// Use the held item against a block face: place the item's block in
    /// the adjacent voxel, unless it would overlap a player.
    pub fn use_item_at_block(
        &mut self,
        pid: usize,
        clients: &mut SlotMap<Client>,
        pos: V3,
        hand: Hand,
        face: BlockFace,
    )
        requires
            old(self).wf(),
            old(clients).wf(),
            -0x200_0000 <= pos.x <= 0x200_0000,
            -0x200_0000 <= pos.z <= 0x200_0000,
            -0x800 <= pos.y <= 0x800,
        ensures
            final(self).wf(),
            final(clients).wf(),
            final(self).spec_players() == old(self).spec_players(),
            final(self).spec_tick() == old(self).spec_tick(),
            final(self).spec_index() == old(self).spec_index(),
            final(self).spec_registry() == old(self).spec_registry(),
            final(self).spec_heightmap() == old(self).spec_heightmap(),
            final(self).spec_chunks().len() == old(self).spec_chunks().len(),
            final(clients)@.len() == old(clients)@.len(),
            match old(self).spec_held_block(pid as int, hand) {
                None => *final(self) == *old(self) && *final(clients) == *old(clients),
                Some(b) => {
                    let off = spec_face_offset(pos, face);
                    if old(self).spec_collides(off) {
                        *final(self) == *old(self) && *final(clients) == *old(clients)
                    } else {
                        forall|cid: int|
                            0 <= cid < old(clients)@.len() ==> #[trigger] fanout_effect(
                                old(clients)@[cid],
                                final(clients)@[cid],
                                spec_sb_deliver(*old(self), off, cid),
                                ResponseV::SetBlock(off, Some(b)),
                            )
                    }
                },
            },
    {
        if pid >= self.players.len() {
            return ;
        }
        let slot: u8 = match hand {
            Hand::Main => self.players[pid].selected_item,
            Hand::Secondary => 9,
        };
        let item: Option<Item> = self.players[pid].hotbar[slot as usize];
        let block: Option<Block> = match item {
            Some(it) => it.block(),
            None => None,
        };
        match block {
            None => {},
            Some(b) => {
                let target: V3 = match face {
                    BlockFace::Top => V3 { x: pos.x, y: pos.y + 1, z: pos.z },
                    BlockFace::Bottom => V3 { x: pos.x, y: pos.y - 1, z: pos.z },
                    BlockFace::North => V3 { x: pos.x, y: pos.y, z: pos.z - 1 },
                    BlockFace::South => V3 { x: pos.x, y: pos.y, z: pos.z + 1 },
                    BlockFace::West => V3 { x: pos.x - 1, y: pos.y, z: pos.z },
                    BlockFace::East => V3 { x: pos.x + 1, y: pos.y, z: pos.z },
                };
                self.try_set_block(target, b, clients);
            },
        }
    }
}


/// How many column loads growing the view distance queues: each layer
/// `L` from the old to the new distance contributes `8*L + 4` loads —
/// four per step along the layer's edge, corners included.
pub open spec fn spec_ring_loads(lo: int, hi: int) -> int
    decreases hi + 1 - lo,
{
    if lo > hi {
        0
    } else {
        8 * lo + 4 + spec_ring_loads(lo + 1, hi)
    }
}

pub proof fn lemma_ring_loads_nonneg(lo: int, hi: int)
    requires
        lo >= 0,
    ensures
        spec_ring_loads(lo, hi) >= 0,
    decreases hi + 1 - lo,
{
    if lo <= hi {
        lemma_ring_loads_nonneg(lo + 1, hi);
    }
}

proof fn lemma_ring_loads_snoc(lo: int, hi: int)
    requires
        lo <= hi,
    ensures
        spec_ring_loads(lo, hi) == spec_ring_loads(lo, hi - 1) + 8 * hi + 4,
    decreases hi - lo,
{
    if lo < hi {
        lemma_ring_loads_snoc(lo + 1, hi);
    } else {
        assert(spec_ring_loads(lo, hi - 1) == 0);
        assert(spec_ring_loads(lo + 1, hi) == 0);
    }
}


/// The four column loads the x-pass of layer `l` queues at step `x`:
/// both rows at distance `l`, both signs of `x`.
pub open spec fn spec_ring_x4(cx: i32, cz: i32, l: int, x: int) -> Seq<ResponseV> {
    seq![
        ResponseV::LoadChunk((cx + x) as i32, (cz + l) as i32),
        ResponseV::LoadChunk((cx - x) as i32, (cz + l) as i32),
        ResponseV::LoadChunk((cx + x) as i32, (cz - l) as i32),
        ResponseV::LoadChunk((cx - x) as i32, (cz - l) as i32),
    ]
}

/// The x-pass of layer `l`, steps `0 .. upto`.
pub open spec fn spec_ring_xs(cx: i32, cz: i32, l: int, upto: int) -> Seq<ResponseV>
    decreases upto,
{
    if upto <= 0 {
        Seq::empty()
    } else {
        spec_ring_xs(cx, cz, l, upto - 1) + spec_ring_x4(cx, cz, l, upto - 1)
    }
}

/// The four column loads the z-pass of layer `l` queues at step `z`:
/// both columns at distance `l`, both signs of `z`.
pub open spec fn spec_ring_z4(cx: i32, cz: i32, l: int, z: int) -> Seq<ResponseV> {
    seq![
        ResponseV::LoadChunk((cx + l) as i32, (cz + z) as i32),
        ResponseV::LoadChunk((cx - l) as i32, (cz + z) as i32),
        ResponseV::LoadChunk((cx + l) as i32, (cz - z) as i32),
        ResponseV::LoadChunk((cx - l) as i32, (cz - z) as i32),
    ]
}

/// The z-pass of layer `l`, steps `0 .. upto`.
pub open spec fn spec_ring_zs(cx: i32, cz: i32, l: int, upto: int) -> Seq<ResponseV>
    decreases upto,
{
    if upto <= 0 {
        Seq::empty()
    } else {
        spec_ring_zs(cx, cz, l, upto - 1) + spec_ring_z4(cx, cz, l, upto - 1)
    }
}

/// Everything one layer queues: its x-pass, then its z-pass.
pub open spec fn spec_ring_layer(cx: i32, cz: i32, l: int) -> Seq<ResponseV> {
    spec_ring_xs(cx, cz, l, l + 1) + spec_ring_zs(cx, cz, l, l)
}

/// The loads growing the view distance queues, layer by layer from the
/// old distance to the new one, in exactly the order they are walked.
pub open spec fn spec_ring_seq(cx: i32, cz: i32, lo: int, hi: int) -> Seq<ResponseV>
    decreases hi + 1 - lo,
{
    if lo > hi {
        Seq::empty()
    } else {
        spec_ring_layer(cx, cz, lo) + spec_ring_seq(cx, cz, lo + 1, hi)
    }
}

proof fn lemma_ring_seq_snoc(cx: i32, cz: i32, lo: int, hi: int)
    requires
        lo <= hi,
    ensures
        spec_ring_seq(cx, cz, lo, hi) == spec_ring_seq(cx, cz, lo, hi - 1) + spec_ring_layer(
            cx,
            cz,
            hi,
        ),
    decreases hi - lo,
{
    if lo < hi {
        lemma_ring_seq_snoc(cx, cz, lo + 1, hi);
        assert(spec_ring_seq(cx, cz, lo, hi) =~= spec_ring_seq(cx, cz, lo, hi - 1)
            + spec_ring_layer(cx, cz, hi));
    } else {
        assert(spec_ring_seq(cx, cz, lo, hi - 1) =~= Seq::<ResponseV>::empty());
        assert(spec_ring_seq(cx, cz, lo + 1, hi) =~= Seq::<ResponseV>::empty());
        assert(spec_ring_seq(cx, cz, lo, hi) =~= spec_ring_seq(cx, cz, lo, hi - 1)
            + spec_ring_layer(cx, cz, hi));
    }
}

impl World {
    /// Grow a player's view distance, queueing loads for each new ring
    /// of columns. Shrinking is not supported yet and reports a
    /// recoverable error, changing nothing; so does an unknown player
    /// slot.
    #[verifier::loop_isolation(false)]
    #[verifier::rlimit(100)]
    pub fn request_view_distance(
        &mut self,
        pid: usize,
        client: &mut Client,
        view_distance: u8,
    ) -> (r: Result<(), ()>)
        requires
            old(self).wf(),
            pid < 32,
        ensures
            final(self).wf(),
            final(self).spec_tick() == old(self).spec_tick(),
            final(self).spec_registry() == old(self).spec_registry(),
            final(self).spec_heightmap() == old(self).spec_heightmap(),
            final(self).spec_players().len() == old(self).spec_players().len(),
            r is Err <==> ((pid as int) >= old(self).spec_players().len() || view_distance < old(self).spec_players()[pid as int].view_distance),
            r is Err ==> *final(self) == *old(self) && *final(client) == *old(client),
            r is Ok ==> {
                &&& final(self).spec_players()[pid as int] == (Player {
                    view_distance,
                    ..old(self).spec_players()[pid as int]
                })
                &&& forall|j: int|
                    0 <= j < old(self).spec_players().len() && j != pid ==> final(self).spec_players()[j] == old(self).spec_players()[j]
                &&& final(client).spec_queue().len() == old(client).spec_queue().len() + 1
                    + spec_ring_loads(
                    old(self).spec_players()[pid as int].view_distance as int,
                    view_distance as int,
                )
                &&& final(client).spec_queue().len() > old(client).spec_queue().len()
                &&& final(client).spec_queue() == old(client).spec_queue().push(
                    ResponseV::SetRenderDistance((view_distance - 1) as u8),
                ) + spec_ring_seq(
                    crate::fixed::spec_chunk_of_fixed(
                        old(self).spec_players()[pid as int].px,
                    ) as i32,
                    crate::fixed::spec_chunk_of_fixed(
                        old(self).spec_players()[pid as int].pz,
                    ) as i32,
                    old(self).spec_players()[pid as int].view_distance as int,
                    view_distance as int,
                )
                &&& forall|j: int|
                    0 <= j < old(client).spec_queue().len() ==> final(client).spec_queue()[j]
                        == old(client).spec_queue()[j]
                &&& final(client).spec_queue()[old(client).spec_queue().len() as int]
                    == ResponseV::SetRenderDistance((view_distance - 1) as u8)
                &&& forall|j: int|
                    old(client).spec_queue().len() < j < final(client).spec_queue().len()
                        ==> is_load_chunk(#[trigger] final(client).spec_queue()[j])
                &&& final(client).spec_state() == old(client).spec_state()
                &&& final(client).spec_pending() == old(client).spec_pending()
                &&& final(client).spec_rbuf() == old(client).spec_rbuf()
            },
    {
        if pid >= self.players.len() {
            return Err(());
        }
        let old_vd: u8 = self.players[pid].view_distance;
        if view_distance < old_vd {
            return Err(());
        }
        {
            let p = &mut self.players[pid];
            p.view_distance = view_distance;
        }
        proof {
            assert forall|j: int|
                0 <= j < self.players@.len() implies (#[trigger] self.players@[j]).wf()
                && self.players@[j].last_ping_ack <= self.tick by {
                assert(old(self).spec_players()[j].wf());
            }
        }
        client.submit(Response::SetRenderDistance(view_distance - 1));
        let px = self.players[pid].px;
        let pz = self.players[pid].pz;
        let chunkx: i32 = crate::fixed::chunk_of_fixed(px) as i32;
        let chunkz: i32 = crate::fixed::chunk_of_fixed(pz) as i32;
        let ghost q1 = client.spec_queue();
        let ghost w1 = *self;
        let mut layer: u32 = old_vd as u32;
        while layer <= view_distance as u32
            invariant
                old_vd as u32 <= layer <= view_distance as u32 + 1,
                self.wf(),
                self.spec_players() == w1.spec_players(),
                self.spec_tick() == w1.spec_tick(),
                self.spec_registry() == w1.spec_registry(),
                self.spec_heightmap() == w1.spec_heightmap(),
                client.spec_queue().len() == q1.len() + spec_ring_loads(
                    old_vd as int,
                    layer as int - 1,
                ),
                client.spec_queue() == q1 + spec_ring_seq(
                    chunkx,
                    chunkz,
                    old_vd as int,
                    layer as int - 1,
                ),
                client.spec_queue().len() >= q1.len(),
                forall|j: int| 0 <= j < q1.len() ==> client.spec_queue()[j] == q1[j],
                forall|j: int|
                    q1.len() <= j < client.spec_queue().len() ==> is_load_chunk(
                        #[trigger] client.spec_queue()[j],
                    ),
                client.spec_state() == old(client).spec_state(),
                client.spec_pending() == old(client).spec_pending(),
                client.spec_rbuf() == old(client).spec_rbuf(),
            decreases view_distance as int + 1 - layer,
        {
            let li: i32 = layer as i32;
            let mut x: i32 = 0;
            while x <= li
                invariant
                    0 <= x <= li + 1,
                    li == layer as int,
                    old_vd as int <= li <= view_distance as int,
                    li <= 255,
                    client.spec_queue().len() == q1.len() + spec_ring_loads(
                        old_vd as int,
                        li - 1,
                    ) + 4 * x,
                    client.spec_queue() == q1 + spec_ring_seq(
                        chunkx,
                        chunkz,
                        old_vd as int,
                        li - 1,
                    ) + spec_ring_xs(chunkx, chunkz, li as int, x as int),
                    -0x20_0000 <= chunkx <= 0x20_0000,
                    -0x20_0000 <= chunkz <= 0x20_0000,
                    self.wf(),
                    self.spec_players() == w1.spec_players(),
                    self.spec_tick() == w1.spec_tick(),
                    self.spec_registry() == w1.spec_registry(),
                    self.spec_heightmap() == w1.spec_heightmap(),
                    client.spec_queue().len() >= q1.len(),
                    forall|j: int| 0 <= j < q1.len() ==> client.spec_queue()[j] == q1[j],
                    forall|j: int|
                        q1.len() <= j < client.spec_queue().len() ==> is_load_chunk(
                            #[trigger] client.spec_queue()[j],
                        ),
                    client.spec_state() == old(client).spec_state(),
                    client.spec_pending() == old(client).spec_pending(),
                    client.spec_rbuf() == old(client).spec_rbuf(),
                decreases li + 1 - x,
            {
                self.load_chunk(pid, client, (chunkx + x, chunkz + li));
                self.load_chunk(pid, client, (chunkx - x, chunkz + li));
                self.load_chunk(pid, client, (chunkx + x, chunkz - li));
                self.load_chunk(pid, client, (chunkx - x, chunkz - li));
                proof {
                    assert(client.spec_queue() =~= q1 + spec_ring_seq(
                        chunkx,
                        chunkz,
                        old_vd as int,
                        li - 1,
                    ) + spec_ring_xs(chunkx, chunkz, li as int, x as int + 1));
                }
                x = x + 1;
            }
            let mut z: i32 = 0;
            while z < li
                invariant
                    0 <= z <= li,
                    li == layer as int,
                    old_vd as int <= li <= view_distance as int,
                    li <= 255,
                    client.spec_queue().len() == q1.len() + spec_ring_loads(
                        old_vd as int,
                        li - 1,
                    ) + 4 * (li + 1) + 4 * z,
                    client.spec_queue() == q1 + spec_ring_seq(
                        chunkx,
                        chunkz,
                        old_vd as int,
                        li - 1,
                    ) + spec_ring_xs(chunkx, chunkz, li as int, li + 1) + spec_ring_zs(
                        chunkx,
                        chunkz,
                        li as int,
                        z as int,
                    ),
                    -0x20_0000 <= chunkx <= 0x20_0000,
                    -0x20_0000 <= chunkz <= 0x20_0000,
                    self.wf(),
                    self.spec_players() == w1.spec_players(),
                    self.spec_tick() == w1.spec_tick(),
                    self.spec_registry() == w1.spec_registry(),
                    self.spec_heightmap() == w1.spec_heightmap(),
                    client.spec_queue().len() >= q1.len(),
                    forall|j: int| 0 <= j < q1.len() ==> client.spec_queue()[j] == q1[j],
                    forall|j: int|
                        q1.len() <= j < client.spec_queue().len() ==> is_load_chunk(
                            #[trigger] client.spec_queue()[j],
                        ),
                    client.spec_state() == old(client).spec_state(),
                    client.spec_pending() == old(client).spec_pending(),
                    client.spec_rbuf() == old(client).spec_rbuf(),
                decreases li - z,
            {
                self.load_chunk(pid, client, (chunkx + li, chunkz + z));
                self.load_chunk(pid, client, (chunkx - li, chunkz + z));
                self.load_chunk(pid, client, (chunkx + li, chunkz - z));
                self.load_chunk(pid, client, (chunkx - li, chunkz - z));
                proof {
                    assert(client.spec_queue() =~= q1 + spec_ring_seq(
                        chunkx,
                        chunkz,
                        old_vd as int,
                        li - 1,
                    ) + spec_ring_xs(chunkx, chunkz, li as int, li + 1) + spec_ring_zs(
                        chunkx,
                        chunkz,
                        li as int,
                        z as int + 1,
                    ));
                }
                z = z + 1;
            }
            proof {
                lemma_ring_loads_snoc(old_vd as int, li as int);
                lemma_ring_seq_snoc(chunkx, chunkz, old_vd as int, li as int);
                assert(client.spec_queue() =~= q1 + spec_ring_seq(
                    chunkx,
                    chunkz,
                    old_vd as int,
                    li as int,
                ));
            }
            layer = layer + 1;
        }
        proof {
            assert forall|j: int|
                0 <= j < old(client).spec_queue().len() implies client.spec_queue()[j] == old(client).spec_queue()[j] by {
                assert(client.spec_queue()[j] == q1[j]);
                assert(q1[j] == old(client).spec_queue().push(
                    ResponseV::SetRenderDistance((view_distance - 1) as u8),
                )[j]);
            }
            assert(client.spec_queue()[old(client).spec_queue().len() as int] == q1[old(client).spec_queue().len() as int]);
            lemma_ring_loads_nonneg(old_vd as int, view_distance as int);
            assert(client.spec_queue() =~= old(client).spec_queue().push(
                ResponseV::SetRenderDistance((view_distance - 1) as u8),
            ) + spec_ring_seq(chunkx, chunkz, old_vd as int, view_distance as int));
        }
        Ok(())
    }
}


/// A fan-out step only ever extends queues.
pub proof fn lemma_fanout_extends(
    pre: Seq<Option<Client>>,
    post: Seq<Option<Client>>,
    dlv: spec_fn(int) -> bool,
    r: ResponseV,
)
    requires
        post.len() == pre.len(),
        forall|cid: int| 0 <= cid < pre.len() ==> fanout_effect(pre[cid], post[cid], dlv(cid), r),
    ensures
        clients_extended(pre, post),
{
    assert forall|cid: int| 0 <= cid < pre.len() implies match #[trigger] pre[cid] {
        None => post[cid] is None,
        Some(a) => match post[cid] {
            Some(b) => {
                &&& b.spec_state() == a.spec_state()
                &&& a.spec_queue().is_prefix_of(b.spec_queue())
                &&& b.spec_pending() == a.spec_pending()
                &&& b.spec_rbuf() == a.spec_rbuf()
            },
            None => false,
        },
    } by {
        assert(fanout_effect(pre[cid], post[cid], dlv(cid), r));
        match pre[cid] {
            None => {},
            Some(a) => match post[cid] {
                Some(b) => {
                    if b.spec_queue() == a.spec_queue().push(r) {
                        lemma_prefix_push(a.spec_queue(), r);
                    } else {
                        assert(a.spec_queue() =~= b.spec_queue().take(a.spec_queue().len() as int));
                    }
                },
                None => {},
            },
        }
    }
}

impl World {
    /// Queue one response for a single connection slot; a dead slot is
    /// ignored.
    pub(crate) fn submit_to(clients: &mut SlotMap<Client>, cid: usize, r: Response)
        requires
            old(clients).wf(),
        ensures
            final(clients).wf(),
            final(clients)@.len() == old(clients)@.len(),
            clients_extended(old(clients)@, final(clients)@),
            forall|k: int|
                0 <= k < old(clients)@.len() && k != cid ==> final(clients)@[k] == old(clients)@[k],
            (cid as int) < old(clients)@.len() ==> match old(clients)@[cid as int] {
                None => final(clients)@[cid as int] is None,
                Some(a) => match final(clients)@[cid as int] {
                    Some(b) => {
                        &&& b.spec_queue() == a.spec_queue().push(r@)
                        &&& b.spec_state() == a.spec_state()
                        &&& b.spec_pending() == a.spec_pending()
                        &&& b.spec_rbuf() == a.spec_rbuf()
                        &&& b.spec_waiting_for_write()
                    },
                    None => false,
                },
            },
    {
        let ghost pre = clients@;
        match clients.get_mut(cid) {
            Some(c) => {
                c.submit(r);
            },
            None => {},
        }
        proof {
            assert forall|k: int| 0 <= k < pre.len() implies match #[trigger] pre[k] {
                None => clients@[k] is None,
                Some(a) => match clients@[k] {
                    Some(b) => {
                        &&& b.spec_state() == a.spec_state()
                        &&& a.spec_queue().is_prefix_of(b.spec_queue())
                        &&& b.spec_pending() == a.spec_pending()
                        &&& b.spec_rbuf() == a.spec_rbuf()
                    },
                    None => false,
                },
            } by {
                match pre[k] {
                    None => {},
                    Some(a) => match clients@[k] {
                        Some(b) => {
                            if b.spec_queue() == a.spec_queue().push(r@) {
                                lemma_prefix_push(a.spec_queue(), r@);
                            } else {
                                assert(a.spec_queue() =~= b.spec_queue().take(
                                    a.spec_queue().len() as int,
                                ));
                            }
                        },
                        None => {},
                    },
                }
            }
        }
    }

    /// Load a column for `pid`, addressing its connection through the
    /// table; a dead slot is ignored.
    fn load_chunk_to(&mut self, pid: usize, clients: &mut SlotMap<Client>, pos: (i32, i32))
        requires
            old(self).wf(),
            old(clients).wf(),
            pid < 32,
        ensures
            final(self).wf(),
            final(clients).wf(),
            final(clients)@.len() == old(clients)@.len(),
            clients_extended(old(clients)@, final(clients)@),
            final(self).spec_players() == old(self).spec_players(),
            final(self).spec_tick() == old(self).spec_tick(),
            final(self).spec_registry() == old(self).spec_registry(),
            final(self).spec_heightmap() == old(self).spec_heightmap(),
            forall|k: int|
                0 <= k < old(clients)@.len() && k != pid ==> final(clients)@[k] == old(clients)@[k],
            (pid as int) < old(clients)@.len() ==> match old(clients)@[pid as int] {
                None => final(clients)@[pid as int] is None,
                Some(a) => match final(clients)@[pid as int] {
                    Some(b) => {
                        &&& b.spec_queue() == a.spec_queue().push(
                            ResponseV::LoadChunk(pos.0, pos.1),
                        )
                        &&& b.spec_state() == a.spec_state()
                        &&& b.spec_pending() == a.spec_pending()
                        &&& b.spec_rbuf() == a.spec_rbuf()
                    },
                    None => false,
                },
            },
    {
        let ghost pre = clients@;
        match clients.get_mut(pid) {
            Some(c) => {
                self.load_chunk(pid, c, pos);
            },
            None => {},
        }
        proof {
            assert forall|k: int| 0 <= k < pre.len() implies match #[trigger] pre[k] {
                None => clients@[k] is None,
                Some(a) => match clients@[k] {
                    Some(b) => {
                        &&& b.spec_state() == a.spec_state()
                        &&& a.spec_queue().is_prefix_of(b.spec_queue())
                        &&& b.spec_pending() == a.spec_pending()
                        &&& b.spec_rbuf() == a.spec_rbuf()
                    },
                    None => false,
                },
            } by {
                match pre[k] {
                    None => {},
                    Some(a) => match clients@[k] {
                        Some(b) => {
                            if b.spec_queue() == a.spec_queue().push(
                                ResponseV::LoadChunk(pos.0, pos.1),
                            ) {
                                lemma_prefix_push(a.spec_queue(), ResponseV::LoadChunk(pos.0, pos.1));
                            } else {
                                assert(a.spec_queue() =~= b.spec_queue().take(
                                    a.spec_queue().len() as int,
                                ));
                            }
                        },
                        None => {},
                    },
                }
            }
        }
    }

    /// Move a player: store the new position; when it crosses a chunk
    /// boundary, recenter the client and load the newly visible ring of
    /// columns; and paint a trail of demo blocks under the walked line
    /// while the player stays in the demo height band. Connections only
    /// gain queued responses.
    #[verifier::loop_isolation(false)]
    #[verifier::rlimit(100)]
    pub fn request_move(
        &mut self,
        pid: usize,
        clients: &mut SlotMap<Client>,
        x: i64,
        y: i64,
        z: i64,
    )
        requires
            old(self).wf(),
            old(clients).wf(),
            pid < 32,
            fixed_in_range(x),
            fixed_in_range(y),
            fixed_in_range(z),
        ensures
            final(self).wf(),
            final(clients).wf(),
            final(clients)@.len() == old(clients)@.len(),
            clients_extended(old(clients)@, final(clients)@),
            final(self).spec_tick() == old(self).spec_tick(),
            final(self).spec_registry() == old(self).spec_registry(),
            final(self).spec_heightmap() == old(self).spec_heightmap(),
            final(self).spec_players().len() == old(self).spec_players().len(),
            (pid as int) < old(self).spec_players().len() ==> final(self).spec_players()[pid as int]
                == (Player { px: x, py: y, pz: z, ..old(self).spec_players()[pid as int] })
                && (forall|j: int|
                0 <= j < old(self).spec_players().len() && j != pid ==> final(self).spec_players()[j] == old(self).spec_players()[j]),
            (pid as int) >= old(self).spec_players().len() ==> *final(self) == *old(self) && *final(clients) == *old(clients),
            // crossing a column boundary recenters the mover exactly
            // once, before the new columns and trail updates
            (pid as int) < old(self).spec_players().len() && (pid as int) < old(clients)@.len()
                && spec_col_changed(*old(self), pid as int, x, z) ==> mover_recentred(
                old(clients)@[pid as int],
                final(clients)@[pid as int],
                crate::fixed::spec_chunk_of_fixed(x) as i32,
                crate::fixed::spec_chunk_of_fixed(z) as i32,
            ),
            // and the loads that follow the recenter are exactly the
            // two-pass scan over the newly visible columns; everything
            // after them is trail updates
            (pid as int) < old(self).spec_players().len() && (pid as int) < old(clients)@.len()
                && spec_col_changed(*old(self), pid as int, x, z) ==> match (
                old(clients)@[pid as int],
                final(clients)@[pid as int],
            ) {
                (Some(a), Some(b)) => ({
                    let loads = spec_move_loads(*old(self), pid as int, x, z);
                    let base = a.spec_queue().len() as int;
                    &&& b.spec_queue().len() >= base + 1 + loads.len()
                    &&& b.spec_queue().subrange(base, base + 1 + loads.len()) == seq![
                        ResponseV::CenterChunk(
                            crate::fixed::spec_chunk_of_fixed(x) as i32,
                            crate::fixed::spec_chunk_of_fixed(z) as i32,
                        ),
                    ] + loads
                    &&& forall|j: int|
                        base + 1 + loads.len() <= j < b.spec_queue().len() ==> (
                        #[trigger] b.spec_queue()[j]) is SetBlock
                }),
                (None, None) => true,
                _ => false,
            },
            // a move inside the column queues nothing but trail updates
            // and touches nothing but the trail band
            (pid as int) < old(self).spec_players().len() && !spec_col_changed(
                *old(self),
                pid as int,
                x,
                z,
            ) ==> chunks_trail_frame(old(self).spec_chunks(), final(self).spec_chunks()) && final(self).spec_index() == old(self).spec_index() && only_set_blocks_added(
                old(clients)@,
                final(clients)@,
            ),
            // out of the demo band such a move changes the position and
            // nothing else
            (pid as int) < old(self).spec_players().len() && !spec_col_changed(
                *old(self),
                pid as int,
                x,
                z,
            ) && !(0 <= y < 163840) ==> *final(clients) == *old(clients) && final(self).spec_chunks() == old(self).spec_chunks(),
            // inside the band, a same-column move leaves the demo block
            // in every cell of the walked line whose column is loaded
            (pid as int) < old(self).spec_players().len() && !spec_col_changed(
                *old(self),
                pid as int,
                x,
                z,
            ) && (0 <= y < 163840) ==> ({
                let cells = spec_trail(
                    crate::fixed::spec_block_of_fixed(old(self).spec_players()[pid as int].px),
                    crate::fixed::spec_block_of_fixed(old(self).spec_players()[pid as int].pz),
                    crate::fixed::spec_block_of_fixed(x),
                    crate::fixed::spec_block_of_fixed(z),
                );
                forall|k: int|
                    0 <= k < cells.len() ==> trail_cell_painted(
                        *old(self),
                        final(self).spec_chunks(),
                        #[trigger] cells[k],
                    )
            }),
    {
        if pid >= self.players.len() {
            proof {
                lemma_clients_extended_refl(clients@);
            }
            return ;
        }
        let (ox, oy, oz): (i64, i64, i64) = {
            let p = &self.players[pid];
            (p.px, p.py, p.pz)
        };
        {
            let p = &mut self.players[pid];
            p.px = x;
            p.py = y;
            p.pz = z;
        }
        proof {
            assert forall|j: int|
                0 <= j < self.players@.len() implies (#[trigger] self.players@[j]).wf()
                && self.players@[j].last_ping_ack <= self.tick by {
                assert(old(self).spec_players()[j].wf());
            }
        }
        let vd: i64 = self.players[pid].view_distance as i64;
        let cx: i64 = crate::fixed::chunk_of_fixed(x);
        let cz: i64 = crate::fixed::chunk_of_fixed(z);
        let ocx: i64 = crate::fixed::chunk_of_fixed(ox);
        let ocz: i64 = crate::fixed::chunk_of_fixed(oz);
        let ghost w1 = *self;
        let ghost changed = (ocx != cx || ocz != cz);
        proof {
            assert(changed == spec_col_changed(*old(self), pid as int, x, z));
        }
        if ocx != cx || ocz != cz {
            self.ring_scan(pid, clients, cx, cz, ocx, ocz);
        } else {
            proof {
                lemma_clients_extended_refl(clients@);
            }
        }
        // walk the block line between the old and new column and paint
        // the demo trail while the player stays in the band
        let bx: i64 = crate::fixed::block_of_fixed(x);
        let bz: i64 = crate::fixed::block_of_fixed(z);
        let obx: i64 = crate::fixed::block_of_fixed(ox);
        let obz: i64 = crate::fixed::block_of_fixed(oz);
        let ghost ctrail = *clients;
        proof {
            if !changed {
                assert(*clients == *old(clients));
                assert(self.chunks@ == old(self).spec_chunks());
                assert(self.index@ == old(self).spec_index());
            }
        }
        self.paint_trail(clients, obx, obz, bx, bz, y);
        proof {
            lemma_clients_extended_trans(old(clients)@, ctrail@, clients@);
            if changed && (pid as int) < old(clients)@.len() {
                match old(clients)@[pid as int] {
                    None => {},
                    Some(a) => {
                        match ctrail@[pid as int] {
                            Some(m) => {
                                assert(mover_recentred(
                                    old(clients)@[pid as int],
                                    clients@[pid as int],
                                    cx as i32,
                                    cz as i32,
                                ));
                            },
                            None => {},
                        }
                    },
                }
            }
        }
    }


    /// Recenter the mover and walk the two ring passes, loading exactly
    /// the scan's columns in order.
    #[verifier::loop_isolation(false)]
    #[verifier::rlimit(100)]
    fn ring_scan(
        &mut self,
        pid: usize,
        clients: &mut SlotMap<Client>,
        cx: i64,
        cz: i64,
        ocx: i64,
        ocz: i64,
    )
        requires
            old(self).wf(),
            old(clients).wf(),
            pid < 32,
            (pid as int) < old(self).spec_players().len(),
            -0x20_0000 <= cx <= 0x20_0000,
            -0x20_0000 <= cz <= 0x20_0000,
            -0x20_0000 <= ocx <= 0x20_0000,
            -0x20_0000 <= ocz <= 0x20_0000,
        ensures
            final(self).wf(),
            final(clients).wf(),
            final(clients)@.len() == old(clients)@.len(),
            clients_extended(old(clients)@, final(clients)@),
            final(self).spec_players() == old(self).spec_players(),
            final(self).spec_tick() == old(self).spec_tick(),
            final(self).spec_registry() == old(self).spec_registry(),
            final(self).spec_heightmap() == old(self).spec_heightmap(),
            (pid as int) < old(clients)@.len() ==> mover_recentred(
                old(clients)@[pid as int],
                final(clients)@[pid as int],
                cx as i32,
                cz as i32,
            ),
            (pid as int) < old(clients)@.len() ==> ({
                let vd = old(self).spec_players()[pid as int].view_distance as int;
                let maxvs = 2 * vd + 1;
                let xa = if cx - ocx >= 0 {
                    cx - ocx
                } else {
                    ocx - cx
                };
                let za = if cz - ocz >= 0 {
                    cz - ocz
                } else {
                    ocz - cz
                };
                let xcols: int = if maxvs - xa > 0 {
                    maxvs - xa
                } else {
                    0
                };
                let zsteps: int = if za < maxvs {
                    za
                } else {
                    maxvs
                };
                let xsteps: int = if xa < maxvs {
                    xa
                } else {
                    maxvs
                };
                mover_exact(
                    old(clients)@[pid as int],
                    final(clients)@[pid as int],
                    ResponseV::CenterChunk(cx as i32, cz as i32),
                    spec_move_pass1(
                        cx as int,
                        cz as int,
                        vd,
                        spec_sign(cz as int - ocz as int),
                        zsteps,
                        xcols,
                    ) + spec_move_pass2(
                        cx as int,
                        cz as int,
                        vd,
                        spec_sign(cx as int - ocx as int),
                        xsteps,
                    ),
                )
            }),
    {
        let vd: i64 = self.players[pid].view_distance as i64;
        Self::submit_to(clients, pid, Response::CenterChunk(cx as i32, cz as i32));
        proof {
            if (pid as int) < old(clients)@.len() {
                match old(clients)@[pid as int] {
                    None => {},
                    Some(a) => {
                        let b = clients@[pid as int].unwrap();
                        assert(Response::CenterChunk(cx as i32, cz as i32)@
                            == ResponseV::CenterChunk(cx as i32, cz as i32));
                        assert(b.spec_queue() == a.spec_queue().push(
                            ResponseV::CenterChunk(cx as i32, cz as i32),
                        ));
                    },
                }
            }
        }
        let xdisp: i64 = cx - ocx;
        let zdisp: i64 = cz - ocz;
        let maxvs: i64 = 2 * vd + 1;
        let xabs: i64 = if xdisp >= 0 {
            xdisp
        } else {
            -xdisp
        };
        let zabs: i64 = if zdisp >= 0 {
            zdisp
        } else {
            -zdisp
        };
        let xsign: i64 = if xdisp > 0 {
            1
        } else if xdisp < 0 {
            -1
        } else {
            0
        };
        let zsign: i64 = if zdisp > 0 {
            1
        } else if zdisp < 0 {
            -1
        } else {
            0
        };
        // the ring pass orthogonal to the larger displacement; rows
        // beyond one full view diameter cannot be newly visible
        let zsteps: i64 = if zabs < maxvs {
            zabs
        } else {
            maxvs
        };
        let xcols: i64 = if maxvs - xabs > 0 {
            maxvs - xabs
        } else {
            0
        };
        let xsteps: i64 = if xabs < maxvs {
            xabs
        } else {
            maxvs
        };
        let ghost c1 = clients@;
        self.ring_pass1(pid, clients, cx, cz, zsign, zsteps, xcols);
        let ghost c2 = clients@;
        self.ring_pass2(pid, clients, cx, cz, xsign, xsteps);
        proof {
            lemma_clients_extended_trans(old(clients)@, c1, c2);
            lemma_clients_extended_trans(old(clients)@, c2, clients@);
            if (pid as int) < old(clients)@.len() {
                match old(clients)@[pid as int] {
                    None => {},
                    Some(a) => {
                        let cc = ResponseV::CenterChunk(cx as i32, cz as i32);
                        let p1 = spec_move_pass1(
                            cx as int,
                            cz as int,
                            vd as int,
                            zsign as int,
                            zsteps as int,
                            xcols as int,
                        );
                        let p2 = spec_move_pass2(
                            cx as int,
                            cz as int,
                            vd as int,
                            xsign as int,
                            xsteps as int,
                        );
                        let b1 = c1[pid as int].unwrap();
                        let b2 = c2[pid as int].unwrap();
                        let b3 = clients@[pid as int].unwrap();
                        assert(b3.spec_queue() =~= a.spec_queue().push(cc) + (p1 + p2));
                        assert(mover_exact(
                            old(clients)@[pid as int],
                            clients@[pid as int],
                            cc,
                            p1 + p2,
                        ));
                        lemma_move_pass1_all_loads(
                            cx as int,
                            cz as int,
                            vd as int,
                            zsign as int,
                            zsteps as int,
                            xcols as int,
                        );
                        lemma_move_pass2_all_loads(
                            cx as int,
                            cz as int,
                            vd as int,
                            xsign as int,
                            xsteps as int,
                        );
                        assert forall|j: int|
                            a.spec_queue().len() < j < b3.spec_queue().len() implies is_load_chunk(
                            #[trigger] b3.spec_queue()[j],
                        ) || b3.spec_queue()[j] is SetBlock by {
                            let base = a.spec_queue().len() as int;
                            if j < base + 1 + p1.len() {
                                assert(b3.spec_queue()[j] == (p1 + p2)[j - base - 1]);
                                assert((p1 + p2)[j - base - 1] == p1[j - base - 1]);
                            } else {
                                assert(b3.spec_queue()[j] == (p1 + p2)[j - base - 1]);
                                assert((p1 + p2)[j - base - 1] == p2[j - base - 1 - p1.len()]);
                            }
                        }
                        assert(mover_recentred(
                            old(clients)@[pid as int],
                            clients@[pid as int],
                            cx as i32,
                            cz as i32,
                        ));
                    },
                }
            }
        }
    }

    /// The first ring pass: for each column of the new view, the rows
    /// crossing the z displacement, loaded in scan order.
    #[verifier::loop_isolation(false)]
    #[verifier::rlimit(100)]
    fn ring_pass1(
        &mut self,
        pid: usize,
        clients: &mut SlotMap<Client>,
        cx: i64,
        cz: i64,
        zsign: i64,
        zsteps: i64,
        xcols: i64,
    )
        requires
            old(self).wf(),
            old(clients).wf(),
            pid < 32,
            (pid as int) < old(self).spec_players().len(),
            -0x20_0000 <= cx <= 0x20_0000,
            -0x20_0000 <= cz <= 0x20_0000,
            -1 <= zsign <= 1,
            0 <= zsteps <= 511,
            0 <= xcols <= 511,
        ensures
            final(self).wf(),
            final(clients).wf(),
            final(clients)@.len() == old(clients)@.len(),
            clients_extended(old(clients)@, final(clients)@),
            final(self).spec_players() == old(self).spec_players(),
            final(self).spec_tick() == old(self).spec_tick(),
            final(self).spec_registry() == old(self).spec_registry(),
            final(self).spec_heightmap() == old(self).spec_heightmap(),
            (pid as int) < old(clients)@.len() ==> queue_appended(
                old(clients)@[pid as int],
                final(clients)@[pid as int],
                spec_move_pass1(
                    cx as int,
                    cz as int,
                    old(self).spec_players()[pid as int].view_distance as int,
                    zsign as int,
                    zsteps as int,
                    xcols as int,
                ),
            ),
            forall|k: int|
                0 <= k < old(clients)@.len() && k != pid ==> final(clients)@[k] == old(
                    clients,
                )@[k],
    {
        proof {
            lemma_clients_extended_refl(clients@);
        }
        let vd: i64 = self.players[pid].view_distance as i64;
        proof {
            if (pid as int) < old(clients)@.len() {
                match old(clients)@[pid as int] {
                    None => {},
                    Some(a) => {
                        assert(a.spec_queue() =~= a.spec_queue() + Seq::<ResponseV>::empty());
                    },
                }
            }
        }
        let mut xi: i64 = 0;
        while xi < xcols
            invariant
                0 <= xi <= xcols,
                0 <= zsteps <= 511,
                0 <= xcols <= 511,
                -1 <= zsign <= 1,
                -0x20_0000 <= cx <= 0x20_0000,
                -0x20_0000 <= cz <= 0x20_0000,
                vd == old(self).spec_players()[pid as int].view_distance,
                1 <= vd <= 255,
                self.wf(),
                clients.wf(),
                clients@.len() == old(clients)@.len(),
                clients_extended(old(clients)@, clients@),
                (pid as int) < old(clients)@.len() ==> queue_appended(
                    old(clients)@[pid as int],
                    clients@[pid as int],
                    spec_move_pass1(
                        cx as int,
                        cz as int,
                        vd as int,
                        zsign as int,
                        zsteps as int,
                        xi as int,
                    ),
                ),
                forall|k: int|
                    0 <= k < old(clients)@.len() && k != pid ==> clients@[k] == old(clients)@[k],
                self.spec_players() == old(self).spec_players(),
                self.spec_tick() == old(self).spec_tick(),
                self.spec_registry() == old(self).spec_registry(),
                self.spec_heightmap() == old(self).spec_heightmap(),
            decreases xcols - xi,
        {
            let col: i64 = cx - vd + xi;
            let mut i: i64 = 0;
            while i < zsteps
                invariant
                    0 <= i <= zsteps,
                    0 <= xi < xcols,
                    0 <= zsteps <= 511,
                    0 <= xcols <= 511,
                    -1 <= zsign <= 1,
                    -0x20_0000 <= cx <= 0x20_0000,
                    -0x20_0000 <= cz <= 0x20_0000,
                    col == cx - vd + xi,
                    vd == old(self).spec_players()[pid as int].view_distance,
                    1 <= vd <= 255,
                    self.wf(),
                    clients.wf(),
                    clients@.len() == old(clients)@.len(),
                    clients_extended(old(clients)@, clients@),
                    (pid as int) < old(clients)@.len() ==> queue_appended(
                        old(clients)@[pid as int],
                        clients@[pid as int],
                        spec_move_pass1(
                            cx as int,
                            cz as int,
                            vd as int,
                            zsign as int,
                            zsteps as int,
                            xi as int,
                        ) + spec_move_rows(
                            col as int,
                            cz as int,
                            vd as int,
                            zsign as int,
                            i as int,
                        ),
                    ),
                    forall|k: int|
                        0 <= k < old(clients)@.len() && k != pid ==> clients@[k] == old(
                            clients,
                        )@[k],
                    self.spec_players() == old(self).spec_players(),
                    self.spec_tick() == old(self).spec_tick(),
                    self.spec_registry() == old(self).spec_registry(),
                    self.spec_heightmap() == old(self).spec_heightmap(),
                decreases zsteps - i,
            {
                let ghost cpre = clients@;
                proof {
                    assert(-511 <= (vd - i) * zsign <= 511) by (nonlinear_arith)
                        requires
                            -1 <= zsign <= 1,
                            0 <= i <= 511,
                            1 <= vd <= 255,
                    ;
                }
                let newrow: i64 = cz + (vd - i) * zsign;
                self.load_chunk_to(pid, clients, (col as i32, newrow as i32));
                proof {
                    lemma_clients_extended_trans(old(clients)@, cpre, clients@);
                    if (pid as int) < old(clients)@.len() {
                        match old(clients)@[pid as int] {
                            None => {},
                            Some(a) => {
                                match clients@[pid as int] {
                                    Some(b) => {
                                        assert(b.spec_queue() =~= a.spec_queue() + (
                                        spec_move_pass1(
                                            cx as int,
                                            cz as int,
                                            vd as int,
                                            zsign as int,
                                            zsteps as int,
                                            xi as int,
                                        ) + spec_move_rows(
                                            col as int,
                                            cz as int,
                                            vd as int,
                                            zsign as int,
                                            i as int + 1,
                                        )));
                                    },
                                    None => {},
                                }
                            },
                        }
                    }
                }
                i = i + 1;
            }
            proof {
                if (pid as int) < old(clients)@.len() {
                    match old(clients)@[pid as int] {
                        None => {},
                        Some(a) => {
                            match clients@[pid as int] {
                                Some(b) => {
                                    assert(b.spec_queue() =~= a.spec_queue() + spec_move_pass1(
                                        cx as int,
                                        cz as int,
                                        vd as int,
                                        zsign as int,
                                        zsteps as int,
                                        xi as int + 1,
                                    ));
                                },
                                None => {},
                            }
                        },
                    }
                }
            }
            xi = xi + 1;
        }
    }

    /// The second ring pass: the columns on the x-displacement side,
    /// each loading the full height of the new view, in scan order.
    #[verifier::loop_isolation(false)]
    #[verifier::rlimit(100)]
    fn ring_pass2(
        &mut self,
        pid: usize,
        clients: &mut SlotMap<Client>,
        cx: i64,
        cz: i64,
        xsign: i64,
        xsteps: i64,
    )
        requires
            old(self).wf(),
            old(clients).wf(),
            pid < 32,
            (pid as int) < old(self).spec_players().len(),
            -0x20_0000 <= cx <= 0x20_0000,
            -0x20_0000 <= cz <= 0x20_0000,
            -1 <= xsign <= 1,
            0 <= xsteps <= 511,
        ensures
            final(self).wf(),
            final(clients).wf(),
            final(clients)@.len() == old(clients)@.len(),
            clients_extended(old(clients)@, final(clients)@),
            final(self).spec_players() == old(self).spec_players(),
            final(self).spec_tick() == old(self).spec_tick(),
            final(self).spec_registry() == old(self).spec_registry(),
            final(self).spec_heightmap() == old(self).spec_heightmap(),
            (pid as int) < old(clients)@.len() ==> queue_appended(
                old(clients)@[pid as int],
                final(clients)@[pid as int],
                spec_move_pass2(
                    cx as int,
                    cz as int,
                    old(self).spec_players()[pid as int].view_distance as int,
                    xsign as int,
                    xsteps as int,
                ),
            ),
            forall|k: int|
                0 <= k < old(clients)@.len() && k != pid ==> final(clients)@[k] == old(
                    clients,
                )@[k],
    {
        proof {
            lemma_clients_extended_refl(clients@);
        }
        let vd: i64 = self.players[pid].view_distance as i64;
        proof {
            if (pid as int) < old(clients)@.len() {
                match old(clients)@[pid as int] {
                    None => {},
                    Some(a) => {
                        assert(a.spec_queue() =~= a.spec_queue() + Seq::<ResponseV>::empty());
                    },
                }
            }
        }
        let mut xi2: i64 = 0;
        while xi2 < xsteps
            invariant
                0 <= xi2 <= xsteps,
                0 <= xsteps <= 511,
                -1 <= xsign <= 1,
                -0x20_0000 <= cx <= 0x20_0000,
                -0x20_0000 <= cz <= 0x20_0000,
                vd == old(self).spec_players()[pid as int].view_distance,
                1 <= vd <= 255,
                self.wf(),
                clients.wf(),
                clients@.len() == old(clients)@.len(),
                clients_extended(old(clients)@, clients@),
                (pid as int) < old(clients)@.len() ==> queue_appended(
                    old(clients)@[pid as int],
                    clients@[pid as int],
                    spec_move_pass2(
                        cx as int,
                        cz as int,
                        vd as int,
                        xsign as int,
                        xi2 as int,
                    ),
                ),
                forall|k: int|
                    0 <= k < old(clients)@.len() && k != pid ==> clients@[k] == old(clients)@[k],
                self.spec_players() == old(self).spec_players(),
                self.spec_tick() == old(self).spec_tick(),
                self.spec_registry() == old(self).spec_registry(),
                self.spec_heightmap() == old(self).spec_heightmap(),
            decreases xsteps - xi2,
        {
            proof {
                assert(-511 <= (vd - xi2) * xsign <= 511) by (nonlinear_arith)
                    requires
                        -1 <= xsign <= 1,
                        0 <= xi2 <= 511,
                        1 <= vd <= 255,
                ;
            }
            let newcol: i64 = cx + (vd - xi2) * xsign;
            let mut zz: i64 = -vd;
            while zz <= vd
                invariant
                    -vd <= zz <= vd + 1,
                    0 <= xi2 < xsteps,
                    0 <= xsteps <= 511,
                    -1 <= xsign <= 1,
                    -0x20_0000 <= cx <= 0x20_0000,
                    -0x20_0000 <= cz <= 0x20_0000,
                    newcol == cx + (vd - xi2) * xsign,
                    -0x20_0000 - 512 <= newcol <= 0x20_0000 + 512,
                    vd == old(self).spec_players()[pid as int].view_distance,
                    1 <= vd <= 255,
                    self.wf(),
                    clients.wf(),
                    clients@.len() == old(clients)@.len(),
                    clients_extended(old(clients)@, clients@),
                    (pid as int) < old(clients)@.len() ==> queue_appended(
                        old(clients)@[pid as int],
                        clients@[pid as int],
                        spec_move_pass2(
                            cx as int,
                            cz as int,
                            vd as int,
                            xsign as int,
                            xi2 as int,
                        ) + spec_move_zrun(
                            cx as int,
                            cz as int,
                            vd as int,
                            xsign as int,
                            xi2 as int,
                            zz as int + vd as int,
                        ),
                    ),
                    forall|k: int|
                        0 <= k < old(clients)@.len() && k != pid ==> clients@[k] == old(
                            clients,
                        )@[k],
                    self.spec_players() == old(self).spec_players(),
                    self.spec_tick() == old(self).spec_tick(),
                    self.spec_registry() == old(self).spec_registry(),
                    self.spec_heightmap() == old(self).spec_heightmap(),
                decreases vd + 1 - zz,
            {
                let ghost cpre = clients@;
                let newrow: i64 = cz - zz;
                self.load_chunk_to(pid, clients, (newcol as i32, newrow as i32));
                proof {
                    lemma_clients_extended_trans(old(clients)@, cpre, clients@);
                    if (pid as int) < old(clients)@.len() {
                        match old(clients)@[pid as int] {
                            None => {},
                            Some(a) => {
                                match clients@[pid as int] {
                                    Some(b) => {
                                        assert(b.spec_queue() =~= a.spec_queue() + (
                                        spec_move_pass2(
                                            cx as int,
                                            cz as int,
                                            vd as int,
                                            xsign as int,
                                            xi2 as int,
                                        ) + spec_move_zrun(
                                            cx as int,
                                            cz as int,
                                            vd as int,
                                            xsign as int,
                                            xi2 as int,
                                            zz as int + vd as int + 1,
                                        )));
                                    },
                                    None => {},
                                }
                            },
                        }
                    }
                }
                zz = zz + 1;
            }
            proof {
                if (pid as int) < old(clients)@.len() {
                    match old(clients)@[pid as int] {
                        None => {},
                        Some(a) => {
                            match clients@[pid as int] {
                                Some(b) => {
                                    assert(b.spec_queue() =~= a.spec_queue() + spec_move_pass2(
                                        cx as int,
                                        cz as int,
                                        vd as int,
                                        xsign as int,
                                        xi2 as int + 1,
                                    ));
                                },
                                None => {},
                            }
                        },
                    }
                }
            }
            xi2 = xi2 + 1;
        }
    }

    /// Walk the discrete line between two block columns and, while the
    /// player stands in the demo height band, paint a trail block one
    /// layer below the grid origin in each visited cell. Nothing but
    /// those cells changes, and nothing but their updates is queued.
    #[verifier::loop_isolation(false)]
    #[verifier::rlimit(100)]
    fn paint_trail(
        &mut self,
        clients: &mut SlotMap<Client>,
        obx: i64,
        obz: i64,
        bx: i64,
        bz: i64,
        y: i64,
    )
        requires
            old(self).wf(),
            old(clients).wf(),
            -0x200_0000 <= obx <= 0x200_0000,
            -0x200_0000 <= obz <= 0x200_0000,
            -0x200_0000 <= bx <= 0x200_0000,
            -0x200_0000 <= bz <= 0x200_0000,
        ensures
            final(self).wf(),
            final(clients).wf(),
            final(clients)@.len() == old(clients)@.len(),
            clients_extended(old(clients)@, final(clients)@),
            only_set_blocks_added(old(clients)@, final(clients)@),
            final(self).spec_players() == old(self).spec_players(),
            final(self).spec_tick() == old(self).spec_tick(),
            final(self).spec_registry() == old(self).spec_registry(),
            final(self).spec_heightmap() == old(self).spec_heightmap(),
            final(self).spec_index() == old(self).spec_index(),
            chunks_trail_frame(old(self).spec_chunks(), final(self).spec_chunks()),
            !(0 <= y < 163840) ==> *final(clients) == *old(clients) && final(self).spec_chunks()
                == old(self).spec_chunks(),
            // inside the band, every cell the walk visits holds the demo
            // block afterwards, wherever its column is loaded
            (0 <= y < 163840) ==> forall|k: int|
                0 <= k < spec_trail(obx as int, obz as int, bx as int, bz as int).len()
                    ==> trail_cell_painted(
                    *old(self),
                    final(self).spec_chunks(),
                    #[trigger] spec_trail(obx as int, obz as int, bx as int, bz as int)[k],
                ),
    {
        proof {
            lemma_clients_extended_refl(clients@);
        }
        let dx: i64 = if bx >= obx {
            bx - obx
        } else {
            obx - bx
        };
        let dz: i64 = if bz >= obz {
            bz - obz
        } else {
            obz - bz
        };
        let incx: i64 = if obx < bx {
            1
        } else {
            -1
        };
        let incz: i64 = if obz < bz {
            1
        } else {
            -1
        };
        let mut err: i64 = if dx > dz {
            dx / 2
        } else {
            -(dz / 2)
        };
        let mut curx: i64 = obx;
        let mut curz: i64 = obz;
        let limit: i64 = dx + dz + 2;
        let mut steps: i64 = 0;
        let in_band: bool = 0 <= y && y < 10 * 16384;
        let andesite = Block::andesite();
        let ghost mut visited: Seq<(int, int)> = Seq::empty();
        proof {
            assert(spec_trail(obx as int, obz as int, bx as int, bz as int) =~= visited
                + spec_trail_cells(
                curx as int,
                curz as int,
                bx as int,
                bz as int,
                err as int,
                dx as int,
                dz as int,
                incx as int,
                incz as int,
                limit as int - steps as int,
            ));
        }
        while steps < limit && !(curx == bx && curz == bz)
            invariant
                0 <= steps <= limit,
                limit == dx + dz + 2,
                dx <= 0x8_0000_0000,
                dz <= 0x8_0000_0000,
                -0x200_0000 <= obx <= 0x200_0000,
                -0x200_0000 <= obz <= 0x200_0000,
                -0x200_0000 - steps <= curx <= 0x200_0000 + steps,
                -0x200_0000 - steps <= curz <= 0x200_0000 + steps,
                -0x18_0000_0000 <= err <= 0x18_0000_0000,
                self.wf(),
                clients.wf(),
                clients@.len() == old(clients)@.len(),
                clients_extended(old(clients)@, clients@),
                only_set_blocks_added(old(clients)@, clients@),
                chunks_trail_frame(old(self).spec_chunks(), self.chunks@),
                self.index@ == old(self).spec_index(),
                !in_band ==> *clients == *old(clients) && self.chunks@ == old(self).spec_chunks(),
                self.spec_players() == old(self).spec_players(),
                self.spec_tick() == old(self).spec_tick(),
                self.spec_registry() == old(self).spec_registry(),
                self.spec_heightmap() == old(self).spec_heightmap(),
                andesite.wf(),
                spec_trail(obx as int, obz as int, bx as int, bz as int) == visited
                    + spec_trail_cells(
                    curx as int,
                    curz as int,
                    bx as int,
                    bz as int,
                    err as int,
                    dx as int,
                    dz as int,
                    incx as int,
                    incz as int,
                    limit as int - steps as int,
                ),
                in_band ==> forall|k: int|
                    0 <= k < visited.len() ==> trail_cell_painted(
                        *old(self),
                        self.chunks@,
                        #[trigger] visited[k],
                    ),
            decreases limit - steps,
        {
            let ghost pcx = curx as int;
            let ghost pcz = curz as int;
            let ghost perr = err as int;
            let e: i64 = err;
            if e > -dx {
                err = err - dz;
                curx = curx + incx;
            }
            if e < dz {
                err = err + dx;
                curz = curz + incz;
            }
            proof {
                assert(spec_trail_cells(
                    pcx,
                    pcz,
                    bx as int,
                    bz as int,
                    perr,
                    dx as int,
                    dz as int,
                    incx as int,
                    incz as int,
                    limit as int - steps as int,
                ) =~= seq![(curx as int, curz as int)] + spec_trail_cells(
                    curx as int,
                    curz as int,
                    bx as int,
                    bz as int,
                    err as int,
                    dx as int,
                    dz as int,
                    incx as int,
                    incz as int,
                    limit as int - steps as int - 1,
                ));
                visited = visited.push((curx as int, curz as int));
                assert(spec_trail(obx as int, obz as int, bx as int, bz as int) =~= visited
                    + spec_trail_cells(
                    curx as int,
                    curz as int,
                    bx as int,
                    bz as int,
                    err as int,
                    dx as int,
                    dz as int,
                    incx as int,
                    incz as int,
                    limit as int - steps as int - 1,
                ));
            }
            if in_band {
                let ghost cpre = clients@;
                let ghost wpre = *self;
                let paint = V3 {
                    x: #[verifier::truncate] (curx as i32),
                    y: -1,
                    z: #[verifier::truncate] (curz as i32),
                };
                self.set_block(paint, Some(andesite), clients);
                proof {
                    lemma_fanout_extends(
                        cpre,
                        clients@,
                        |cid: int| spec_sb_deliver(wpre, paint, cid),
                        ResponseV::SetBlock(paint, Some(andesite)),
                    );
                    lemma_clients_extended_trans(old(clients)@, cpre, clients@);
                    // the paint lands inside the trail band of one column
                    assert(16128 <= World::spec_block_idx(paint) < 16384);
                    assert forall|c: int|
                        0 <= c < old(self).spec_chunks().len() implies (
                        #[trigger] self.chunks@[c]).coords == old(self).spec_chunks()[c].coords
                        && self.chunks@[c].visible_to == old(self).spec_chunks()[c].visible_to by {
                        match wpre.spec_block_target(paint) {
                            None => {},
                            Some(t) => {},
                        }
                    }
                    assert forall|c: int, k: int|
                        0 <= c < old(self).spec_chunks().len() && 0 <= k < COLUMN_BLOCKS && !(16128
                            <= k < 16384) implies (#[trigger] self.chunks@[c].content.spec_block(
                        k,
                    )) == old(self).spec_chunks()[c].content.spec_block(k) by {
                        match wpre.spec_block_target(paint) {
                            None => {},
                            Some(t) => {
                                if c == t {
                                    assert(k != World::spec_block_idx(paint));
                                }
                            },
                        }
                    }
                    assert forall|cid: int|
                        0 <= cid < old(clients)@.len() implies match #[trigger] old(
                        clients,
                    )@[cid] {
                        None => clients@[cid] is None,
                        Some(a) => match clients@[cid] {
                            Some(b) => {
                                &&& b.spec_queue().len() >= a.spec_queue().len()
                                &&& forall|j: int|
                                    0 <= j < a.spec_queue().len() ==> #[trigger] b.spec_queue()[j]
                                        == a.spec_queue()[j]
                                &&& forall|j: int|
                                    a.spec_queue().len() <= j < b.spec_queue().len() ==> (
                                    #[trigger] b.spec_queue()[j]) is SetBlock
                                &&& b.spec_state() == a.spec_state()
                                &&& b.spec_pending() == a.spec_pending()
                                &&& b.spec_rbuf() == a.spec_rbuf()
                            },
                            None => false,
                        },
                    } by {
                        assert(fanout_effect(
                            cpre[cid],
                            clients@[cid],
                            spec_sb_deliver(wpre, paint, cid),
                            ResponseV::SetBlock(paint, Some(andesite)),
                        ));
                    }
                    // the freshly visited cell is painted, and every
                    // earlier paint survives this write
                    assert forall|k: int|
                        0 <= k < visited.len() implies trail_cell_painted(
                        *old(self),
                        self.chunks@,
                        #[trigger] visited[k],
                    ) by {
                        let cell = visited[k];
                        let p = V3 { x: cell.0 as i32, y: (-1) as i32, z: cell.1 as i32 };
                        assert(old(self).spec_block_target(p) == wpre.spec_block_target(p));
                        if k == visited.len() - 1 {
                            assert(cell == (curx as int, curz as int));
                            assert(p == paint);
                        } else {
                            assert(trail_cell_painted(*old(self), wpre.spec_chunks(), cell));
                            match wpre.spec_block_target(paint) {
                                None => {},
                                Some(t) => {
                                    match old(self).spec_block_target(p) {
                                        Some(tc) => {
                                            if tc == t && World::spec_block_idx(p)
                                                == World::spec_block_idx(paint) {
                                            } else if tc == t {
                                            } else {
                                            }
                                        },
                                        None => {},
                                    }
                                },
                            }
                        }
                    }
                }
            }
            steps = steps + 1;
        }
        proof {
            assert(spec_trail_cells(
                curx as int,
                curz as int,
                bx as int,
                bz as int,
                err as int,
                dx as int,
                dz as int,
                incx as int,
                incz as int,
                limit as int - steps as int,
            ) =~= Seq::<(int, int)>::empty());
            assert(spec_trail(obx as int, obz as int, bx as int, bz as int) =~= visited);
        }
    }
}

} // verus!
