//! Decoding and dispatch of play-phase requests.
//!
//! Every frame starts with a varint packet id; the payload shape depends
//! on the id. Any malformed field, unknown id or unsupported sub-action
//! is a [`Disconnection`]: the connection is dropped, never partially
//! recovered. [`spec_play_ok`] states byte-exactly which frames succeed.

use vstd::prelude::*;
use crate::client::{Client, clients_extended, lemma_clients_extended_refl, lemma_clients_extended_trans};
use crate::fixed::{fixed_of_bits, spec_fixed_of_bits};
use crate::slotmap::SlotMap;
use crate::types::{BlockFace, Disconnection, Hand, Item, V3};
use crate::response::{Response, ResponseV};
use crate::wire;
use crate::wire::{spec_be64, spec_str_decode, spec_varint_decode};
use crate::world::{Player, World};

verus! {

/// The bytes after one varint, when one fits.
pub open spec fn after_varint(s: Seq<u8>) -> Option<Seq<u8>> {
    match spec_varint_decode(s) {
        Some((_, k)) => Some(s.skip(k)),
        None => None,
    }
}

/// The bytes after `n` fixed-width ones, when they fit.
pub open spec fn after_n(s: Seq<u8>, n: int) -> Option<Seq<u8>> {
    if s.len() >= n {
        Some(s.skip(n))
    } else {
        None
    }
}

/// Which play-phase frames the dispatcher accepts, byte-exactly: the
/// packet id must be known, every field must decode, position doubles
/// must be finite and inside the world, enum fields must name a variant,
/// and the one respawn sub-action and dig sub-action the engine supports
/// must be the ones requested.
pub open spec fn spec_play_ok(pkt: Seq<u8>) -> bool {
    match spec_varint_decode(pkt) {
        None => false,
        Some((id, k)) => {
            let r = pkt.skip(k);
            if id == 0x00 || id == 0x1d || id == 0x1f {
                true
            } else if id == 0x03 || id == 0x0c {
                spec_str_decode(r) is Some
            } else if id == 0x04 {
                match spec_str_decode(r) {
                    Some((m, _)) => vstd::utf8::valid_utf8(m),
                    None => false,
                }
            } else if id == 0x06 {
                r.len() >= 1 && r[0] == 0
            } else if id == 0x07 {
                match spec_str_decode(r) {
                    Some((_, k2)) => r.skip(k2).len() >= 1,
                    None => false,
                }
            } else if id == 0x0a {
                match after_n(r, 1) {
                    Some(r1) => match after_varint(r1) {
                        Some(r2) => match after_n(r2, 5) {
                            Some(r3) => after_varint(r3) is Some,
                            None => false,
                        },
                        None => false,
                    },
                    None => false,
                }
            } else if id == 0x0b || id == 0x1b {
                r.len() >= 1
            } else if id == 0x13 {
                &&& r.len() >= 25
                &&& (r[24] == 0 || r[24] == 1)
                &&& spec_fixed_of_bits(spec_be64(r.take(8))) is Some
                &&& spec_fixed_of_bits(spec_be64(r.skip(8).take(8))) is Some
                &&& spec_fixed_of_bits(spec_be64(r.skip(16).take(8))) is Some
            } else if id == 0x14 {
                &&& r.len() >= 33
                &&& (r[32] == 0 || r[32] == 1)
                &&& spec_fixed_of_bits(spec_be64(r.take(8))) is Some
                &&& spec_fixed_of_bits(spec_be64(r.skip(8).take(8))) is Some
                &&& spec_fixed_of_bits(spec_be64(r.skip(16).take(8))) is Some
            } else if id == 0x15 {
                r.len() >= 9 && (r[8] == 0 || r[8] == 1)
            } else if id == 0x16 {
                r.len() >= 1 && (r[0] == 0 || r[0] == 1)
            } else if id == 0x1c {
                match spec_varint_decode(r) {
                    Some((st, k1)) => st == 0 && ({
                        let r2 = r.skip(k1);
                        &&& r2.len() >= 9
                        &&& r2[8] <= 5
                        &&& after_varint(r2.skip(9)) is Some
                    }),
                    None => false,
                }
            } else if id == 0x27 {
                r.len() >= 2
            } else if id == 0x2a {
                r.len() >= 3 && ({
                    let r2 = r.skip(3);
                    if r[2] == 0 {
                        true
                    } else {
                        match spec_varint_decode(r2) {
                            Some((iid, k2)) => iid < 0x8000 && r2.skip(k2).len() >= 1,
                            None => false,
                        }
                    }
                })
            } else if id == 0x2e {
                r.len() >= 1 && (r[0] == 0 || r[0] == 1)
            } else if id == 0x30 {
                r.len() >= 1 && (r[0] == 0 || r[0] == 1) && ({
                    let r2 = r.skip(1);
                    &&& r2.len() >= 9
                    &&& r2[8] <= 5
                    &&& ({
                        let r3 = r2.skip(9);
                        &&& r3.len() >= 13
                        &&& (r3[12] == 0 || r3[12] == 1)
                        &&& after_varint(r3.skip(13)) is Some
                    })
                })
            } else {
                false
            }
        },
    }
}


/// What carrying out an accepted play-phase frame does, by packet id:
/// position packets move the player to the decoded coordinates, the
/// keepalive answer refreshes the acknowledgement tick, digging clears
/// the voxel and acknowledges, inventory packets update the hotbar and
/// selection, chat fans out, and the packets the engine merely accepts
/// change nothing at all.
pub open spec fn spec_play_effect(
    w0: World,
    w1: World,
    c0: Seq<Option<Client>>,
    c1: Seq<Option<Client>>,
    pid: int,
    pkt: Seq<u8>,
) -> bool {
    match spec_varint_decode(pkt) {
        None => true,
        Some((id, k)) => {
            let r = pkt.skip(k);
            if id == 0x00 || id == 0x1d || id == 0x0a || id == 0x0b || id == 0x0c || id == 0x15
                || id == 0x16 || id == 0x1b || id == 0x2e {
                &&& w1 == w0
                &&& forall|cid: int| 0 <= cid < c0.len() ==> c1[cid] == c0[cid]
            } else if id == 0x1f {
                &&& (forall|cid: int| 0 <= cid < c0.len() ==> c1[cid] == c0[cid])
                &&& w1.spec_chunks() == w0.spec_chunks()
                &&& w1.spec_index() == w0.spec_index()
                &&& (0 <= pid < w0.spec_players().len() ==> w1.spec_players()[pid] == (Player {
                    last_ping_ack: w0.spec_tick(),
                    ..w0.spec_players()[pid]
                }))
                &&& (forall|p: int|
                    0 <= p < w0.spec_players().len() && p != pid ==> w1.spec_players()[p]
                        == w0.spec_players()[p])
            } else if id == 0x13 || id == 0x14 {
                let fx = spec_fixed_of_bits(spec_be64(r.take(8))).unwrap();
                let fy = spec_fixed_of_bits(spec_be64(r.skip(8).take(8))).unwrap();
                let fz = spec_fixed_of_bits(spec_be64(r.skip(16).take(8))).unwrap();
                &&& w1.spec_players().len() == w0.spec_players().len()
                &&& (0 <= pid < w0.spec_players().len() ==> w1.spec_players()[pid] == (Player {
                    px: fx,
                    py: fy,
                    pz: fz,
                    ..w0.spec_players()[pid]
                }))
            } else if id == 0x03 {
                match spec_str_decode(r) {
                    Some((m, _)) => {
                        &&& w1 == w0
                        &&& (forall|cid: int|
                            0 <= cid < c0.len() && cid != pid ==> c1[cid] == c0[cid])
                        &&& (0 <= pid < c0.len() ==> match c0[pid] {
                            None => c1[pid] is None,
                            Some(a) => match c1[pid] {
                                Some(b) => if m == seq![107u8, 105u8, 108u8, 108u8] {
                                    b.spec_queue() == a.spec_queue().push(
                                        ResponseV::SetHealth(0, 0, 0),
                                    ) && b.spec_state() == a.spec_state() && b.spec_pending()
                                        == a.spec_pending() && b.spec_rbuf() == a.spec_rbuf()
                                } else {
                                    b == a
                                },
                                None => false,
                            },
                        })
                    },
                    None => true,
                }
            } else if id == 0x04 {
                match spec_str_decode(r) {
                    Some((m, _)) => w1 == w0 && (forall|cid: int|
                        0 <= cid < c0.len() ==> #[trigger] crate::world::fanout_effect(
                            c0[cid],
                            c1[cid],
                            true,
                            ResponseV::Chat(m),
                        )),
                    None => true,
                }
            } else if id == 0x06 {
                &&& (0 <= pid < w0.spec_players().len() ==> w1.spec_players()[pid].px == 0
                    && w1.spec_players()[pid].py == 0 && w1.spec_players()[pid].pz == 0)
                &&& (0 <= pid < c0.len() ==> match c0[pid] {
                    None => c1[pid] is None,
                    Some(a) => match c1[pid] {
                        Some(b) => {
                            &&& b.spec_queue().len() > a.spec_queue().len() + 1
                            &&& b.spec_queue()[a.spec_queue().len() as int] == ResponseV::Respawn
                            &&& b.spec_queue().last() == ResponseV::Position
                        },
                        None => false,
                    },
                })
            } else if id == 0x07 {
                match spec_str_decode(r) {
                    Some((_, k2)) => ({
                        let vd = r.skip(k2)[0];
                        &&& (0 <= pid < w0.spec_players().len() && vd
                            >= w0.spec_players()[pid].view_distance && 0 <= pid < c0.len()
                            && c0[pid] is Some ==> w1.spec_players()[pid].view_distance == vd
                            && match (c0[pid], c1[pid]) {
                            (Some(a), Some(b)) => b.spec_queue().len() > a.spec_queue().len()
                                && b.spec_queue()[a.spec_queue().len() as int]
                                == ResponseV::SetRenderDistance((vd - 1) as u8),
                            _ => false,
                        })
                        &&& (pid >= w0.spec_players().len() || pid < 0 || vd
                            < w0.spec_players()[pid].view_distance || pid >= c0.len()
                            || c0[pid] is None ==> w1 == w0 && forall|cid: int|
                            0 <= cid < c0.len() ==> c1[cid] == c0[cid])
                    }),
                    None => true,
                }
            } else if id == 0x1c {
                match spec_varint_decode(r) {
                    Some((st, k1)) => ({
                        let u = spec_be64(r.skip(k1).take(8));
                        let dp = V3 {
                            x: crate::wire::spec_pos_x(u) as i32,
                            y: crate::wire::spec_pos_y(u) as i32,
                            z: crate::wire::spec_pos_z(u) as i32,
                        };
                        let sq = spec_varint_decode(r.skip(k1).skip(9)).unwrap().0;
                        &&& (match w0.spec_block_target(dp) {
                            Some(t) => w1.spec_chunks()[t].content.spec_block(
                                World::spec_block_idx(dp),
                            ) == 0,
                            None => w1.spec_chunks() == w0.spec_chunks(),
                        })
                        &&& (0 <= pid < c0.len() ==> match (c0[pid], c1[pid]) {
                            (Some(a), Some(b)) => b.spec_queue().len() > 0
                                && b.spec_queue().last() == ResponseV::AckBlockChange(sq),
                            (None, None) => true,
                            _ => false,
                        })
                    }),
                    None => true,
                }
            } else if id == 0x27 {
                let idx = (crate::wire::spec_be16(r[0], r[1]) as i16) as u8;
                &&& (forall|cid: int| 0 <= cid < c0.len() ==> c1[cid] == c0[cid])
                &&& w1.spec_chunks() == w0.spec_chunks()
                &&& w1.spec_index() == w0.spec_index()
                &&& (0 <= pid < w0.spec_players().len() && idx < 10 ==> w1.spec_players()[pid]
                    == (Player { selected_item: idx, ..w0.spec_players()[pid] }))
                &&& (!(0 <= pid < w0.spec_players().len() && idx < 10) ==> w1.spec_players()
                    == w0.spec_players())
            } else if id == 0x2a {
                let slot = crate::wire::spec_be16(r[0], r[1]) as i16;
                let given: Option<Item> = if r[2] == 0 {
                    None
                } else {
                    Some(Item { id: spec_varint_decode(r.skip(3)).unwrap().0 as u16 })
                };
                &&& (forall|cid: int| 0 <= cid < c0.len() ==> c1[cid] == c0[cid])
                &&& w1.spec_chunks() == w0.spec_chunks()
                &&& w1.spec_index() == w0.spec_index()
                &&& (0 <= pid < w0.spec_players().len() && 36 <= slot <= 45 ==> ({
                    let a = w0.spec_players()[pid];
                    let b = w1.spec_players()[pid];
                    &&& b.hotbar@ == a.hotbar@.update(slot - 36, given)
                    &&& b.name == a.name
                    &&& b.px == a.px
                    &&& b.py == a.py
                    &&& b.pz == a.pz
                    &&& b.view_distance == a.view_distance
                    &&& b.selected_item == a.selected_item
                    &&& b.last_ping_ack == a.last_ping_ack
                }))
                &&& (!(0 <= pid < w0.spec_players().len() && 36 <= slot <= 45)
                    ==> w1.spec_players() == w0.spec_players())
            } else if id == 0x30 {
                let sq = spec_varint_decode(r.skip(1).skip(9).skip(13)).unwrap().0;
                &&& w1.spec_players() == w0.spec_players()
                &&& (0 <= pid < c0.len() ==> match (c0[pid], c1[pid]) {
                    (Some(a), Some(b)) => b.spec_queue().len() > 0 && b.spec_queue().last()
                        == ResponseV::AckBlockChange(sq),
                    (None, None) => true,
                    _ => false,
                })
            } else {
                true
            }
        },
    }
}

fn decode_face(b: u8) -> (r: Option<BlockFace>)
    ensures
        r is Some <==> b <= 5,
{
    match b {
        0 => Some(BlockFace::Bottom),
        1 => Some(BlockFace::Top),
        2 => Some(BlockFace::North),
        3 => Some(BlockFace::South),
        4 => Some(BlockFace::West),
        5 => Some(BlockFace::East),
        _ => None,
    }
}


/// The boilerplate every handler promises: soundness kept, queues only
/// extended, the world's frame data untouched.
pub open spec fn play_frame_ok(w0: World, w1: World, c0: Seq<Option<Client>>, c1: Seq<Option<Client>>) -> bool {
    &&& w1.wf()
    &&& c1.len() == c0.len()
    &&& clients_extended(c0, c1)
    &&& w1.spec_tick() == w0.spec_tick()
    &&& w1.spec_registry() == w0.spec_registry()
    &&& w1.spec_heightmap() == w0.spec_heightmap()
    &&& w1.spec_players().len() == w0.spec_players().len()
}

impl World {
    fn play_command(&mut self, pid: usize, clients: &mut SlotMap<Client>, r: &[u8]) -> (ret: Result<
        (),
        Disconnection,
    >)
        requires
            old(self).wf(),
            old(clients).wf(),
            pid < 32,
        ensures
            play_frame_ok(*old(self), *final(self), old(clients)@, final(clients)@),
            final(clients).wf(),
            ret is Ok <==> spec_str_decode(r@) is Some,
            ret is Err ==> *final(self) == *old(self) && forall|cid: int|
                0 <= cid < old(clients)@.len() ==> final(clients)@[cid] == old(clients)@[cid],
            ret is Ok ==> *final(self) == *old(self) && ({
                let m = spec_str_decode(r@).unwrap().0;
                &&& forall|cid: int|
                    0 <= cid < old(clients)@.len() && cid != pid ==> final(clients)@[cid] == old(clients)@[cid]
                &&& (pid as int) < old(clients)@.len() ==> match old(clients)@[pid as int] {
                    None => final(clients)@[pid as int] is None,
                    Some(a) => match final(clients)@[pid as int] {
                        Some(b) => if m == seq![107u8, 105u8, 108u8, 108u8] {
                            b.spec_queue() == a.spec_queue().push(ResponseV::SetHealth(0, 0, 0))
                                && b.spec_state() == a.spec_state() && b.spec_pending()
                                == a.spec_pending() && b.spec_rbuf() == a.spec_rbuf()
                        } else {
                            b == a
                        },
                        None => false,
                    },
                }
            }),
    {
        match wire::str(r) {
            Some((cmd, _)) => {
                let ghost c0 = clients@;
                self.run_command(pid, clients, cmd);
                proof {
                    assert forall|k: int| 0 <= k < c0.len() implies match #[trigger] c0[k] {
                        None => clients@[k] is None,
                        Some(a) => match clients@[k] {
                            Some(b) => {
                                &&& b.spec_state() == a.spec_state()
                                &&& a.spec_queue().is_prefix_of(b.spec_queue())
                                &&& b.spec_pending() == a.spec_pending()
                                &&& b.spec_rbuf() == a.spec_rbuf()
                            },
                            None => false,
                        },
                    } by {
                        match c0[k] {
                            None => {},
                            Some(a) => match clients@[k] {
                                Some(b) => {
                                    if b.spec_queue() == a.spec_queue().push(
                                        crate::response::ResponseV::SetHealth(0, 0, 0),
                                    ) {
                                        crate::client::lemma_prefix_push(
                                            a.spec_queue(),
                                            crate::response::ResponseV::SetHealth(0, 0, 0),
                                        );
                                    } else {
                                        assert(a.spec_queue() =~= b.spec_queue().take(
                                            a.spec_queue().len() as int,
                                        ));
                                    }
                                },
                                None => {},
                            },
                        }
                    }
                }
                Ok(())
            },
            None => Err(Disconnection::new()),
        }
    }

    fn play_chat(&mut self, pid: usize, clients: &mut SlotMap<Client>, r: &[u8]) -> (ret: Result<
        (),
        Disconnection,
    >)
        requires
            old(self).wf(),
            old(clients).wf(),
            pid < 32,
        ensures
            play_frame_ok(*old(self), *final(self), old(clients)@, final(clients)@),
            final(clients).wf(),
            ret is Ok <==> match spec_str_decode(r@) {
                Some((m, _)) => vstd::utf8::valid_utf8(m),
                None => false,
            },
            ret is Err ==> *final(self) == *old(self) && forall|cid: int|
                0 <= cid < old(clients)@.len() ==> final(clients)@[cid] == old(clients)@[cid],
            ret is Ok ==> *final(self) == *old(self) && (forall|cid: int|
                0 <= cid < old(clients)@.len() ==> #[trigger] crate::world::fanout_effect(
                    old(clients)@[cid],
                    final(clients)@[cid],
                    true,
                    ResponseV::Chat(spec_str_decode(r@).unwrap().0),
                )),
    {
        match wire::str(r) {
            Some((msg, _)) => {
                match std::str::from_utf8(msg) {
                    Ok(_) => {
                        let ghost c0 = clients@;
                        self.chat_message(clients, msg);
                        proof {
                            crate::world::lemma_fanout_extends(
                                c0,
                                clients@,
                                |cid: int| true,
                                crate::response::ResponseV::Chat(msg@),
                            );
                        }
                        Ok(())
                    },
                    Err(_) => Err(Disconnection::new()),
                }
            },
            None => Err(Disconnection::new()),
        }
    }

    fn play_respawn(&mut self, pid: usize, clients: &mut SlotMap<Client>, r: &[u8]) -> (ret:
        Result<(), Disconnection>)
        requires
            old(self).wf(),
            old(clients).wf(),
            pid < 32,
        ensures
            play_frame_ok(*old(self), *final(self), old(clients)@, final(clients)@),
            final(clients).wf(),
            ret is Ok <==> (r@.len() >= 1 && r@[0] == 0),
            ret is Err ==> *final(self) == *old(self) && forall|cid: int|
                0 <= cid < old(clients)@.len() ==> final(clients)@[cid] == old(clients)@[cid],
            ret is Ok ==> ({
                &&& ((pid as int) < old(self).spec_players().len() ==> final(self).spec_players()[pid as int].px == 0 && final(self).spec_players()[pid as int].py
                    == 0 && final(self).spec_players()[pid as int].pz == 0)
                &&& ((pid as int) < old(clients)@.len() ==> match old(clients)@[pid as int] {
                    None => final(clients)@[pid as int] is None,
                    Some(a) => match final(clients)@[pid as int] {
                        Some(b) => {
                            &&& b.spec_queue().len() > a.spec_queue().len() + 1
                            &&& b.spec_queue()[a.spec_queue().len() as int] == ResponseV::Respawn
                            &&& b.spec_queue().last() == ResponseV::Position
                        },
                        None => false,
                    },
                })
            }),
    {
        match wire::byte(r) {
            Some((0, _)) => {
                Self::submit_to(clients, pid, Response::Respawn);
                let ghost c1 = clients@;
                self.request_move(pid, clients, 0, 0, 0);
                let ghost c2 = clients@;
                Self::submit_to(clients, pid, Response::Position);
                proof {
                    lemma_clients_extended_trans(old(clients)@, c1, c2);
                    lemma_clients_extended_trans(old(clients)@, c2, clients@);
                }
                Ok(())
            },
            Some(_) => Err(Disconnection::new()),
            None => Err(Disconnection::new()),
        }
    }

    fn play_view_distance(&mut self, pid: usize, clients: &mut SlotMap<Client>, r: &[u8]) -> (ret:
        Result<(), Disconnection>)
        requires
            old(self).wf(),
            old(clients).wf(),
            pid < 32,
        ensures
            play_frame_ok(*old(self), *final(self), old(clients)@, final(clients)@),
            final(clients).wf(),
            ret is Ok <==> match spec_str_decode(r@) {
                Some((_, k2)) => r@.skip(k2).len() >= 1,
                None => false,
            },
            ret is Err ==> *final(self) == *old(self) && forall|cid: int|
                0 <= cid < old(clients)@.len() ==> final(clients)@[cid] == old(clients)@[cid],
            ret is Ok ==> match spec_str_decode(r@) {
                Some((_, k2)) => ({
                    let vd = r@.skip(k2)[0];
                    &&& ((pid as int) < old(self).spec_players().len() && vd >= old(self).spec_players()[pid as int].view_distance && (pid as int) < old(clients)@.len() && old(clients)@[pid as int] is Some ==> final(self).spec_players()[pid as int].view_distance == vd && match (
                        old(clients)@[pid as int],
                        final(clients)@[pid as int],
                    ) {
                        (Some(a), Some(b)) => b.spec_queue().len() > a.spec_queue().len()
                            && b.spec_queue()[a.spec_queue().len() as int]
                            == ResponseV::SetRenderDistance((vd - 1) as u8),
                        _ => false,
                    })
                    &&& ((pid as int) >= old(self).spec_players().len() || vd < old(self).spec_players()[pid as int].view_distance || (pid as int) >= old(clients)@.len() || old(clients)@[pid as int] is None ==> *final(self) == *old(self)
                        && forall|cid: int|
                        0 <= cid < old(clients)@.len() ==> final(clients)@[cid] == old(clients)@[cid])
                }),
                None => true,
            },
    {
        match wire::str(r) {
            Some((_, rest)) => match wire::byte(rest) {
                Some((vd, _)) => {
                    let ghost c1 = clients@;
                    match clients.get_mut(pid) {
                        Some(c) => {
                            let _ = self.request_view_distance(pid, c, vd);
                        },
                        None => {},
                    }
                    proof {
                        assert forall|k: int| 0 <= k < c1.len() implies match #[trigger] c1[k] {
                            None => clients@[k] is None,
                            Some(a) => match clients@[k] {
                                Some(b) => {
                                    &&& b.spec_state() == a.spec_state()
                                    &&& a.spec_queue().is_prefix_of(b.spec_queue())
                                    &&& b.spec_pending() == a.spec_pending()
                                    &&& b.spec_rbuf() == a.spec_rbuf()
                                },
                                None => false,
                            },
                        } by {
                            match c1[k] {
                                None => {},
                                Some(a) => match clients@[k] {
                                    Some(b) => {
                                        assert(a.spec_queue() =~= b.spec_queue().take(
                                            a.spec_queue().len() as int,
                                        ));
                                    },
                                    None => {},
                                },
                            }
                        }
                    }
                    Ok(())
                },
                None => Err(Disconnection::new()),
            },
            None => Err(Disconnection::new()),
        }
    }

    fn play_move(&mut self, pid: usize, clients: &mut SlotMap<Client>, r: &[u8], with_look: bool) -> (ret:
        Result<(), Disconnection>)
        requires
            old(self).wf(),
            old(clients).wf(),
            pid < 32,
        ensures
            play_frame_ok(*old(self), *final(self), old(clients)@, final(clients)@),
            final(clients).wf(),
            ret is Ok <==> ({
                let tail: int = if with_look {
                    32
                } else {
                    24
                };
                &&& r@.len() >= tail + 1
                &&& (r@[tail] == 0 || r@[tail] == 1)
                &&& spec_fixed_of_bits(spec_be64(r@.take(8))) is Some
                &&& spec_fixed_of_bits(spec_be64(r@.skip(8).take(8))) is Some
                &&& spec_fixed_of_bits(spec_be64(r@.skip(16).take(8))) is Some
            }),
            ret is Err ==> *final(self) == *old(self) && forall|cid: int|
                0 <= cid < old(clients)@.len() ==> final(clients)@[cid] == old(clients)@[cid],
            ret is Ok ==> ({
                let fx = spec_fixed_of_bits(spec_be64(r@.take(8))).unwrap();
                let fy = spec_fixed_of_bits(spec_be64(r@.skip(8).take(8))).unwrap();
                let fz = spec_fixed_of_bits(spec_be64(r@.skip(16).take(8))).unwrap();
                &&& final(self).spec_players().len() == old(self).spec_players().len()
                &&& ((pid as int) < old(self).spec_players().len() ==> final(self).spec_players()[pid as int] == (Player {
                    px: fx,
                    py: fy,
                    pz: fz,
                    ..old(self).spec_players()[pid as int]
                }))
            }),
    {
        proof {
            lemma_clients_extended_refl(clients@);
        }
        let (xb, r1) = match wire::be_u64(r) {
            Some(v) => v,
            None => {
                return Err(Disconnection::new());
            },
        };
        let (yb, r2) = match wire::be_u64(r1) {
            Some(v) => v,
            None => {
                return Err(Disconnection::new());
            },
        };
        let (zb, r3) = match wire::be_u64(r2) {
            Some(v) => v,
            None => {
                return Err(Disconnection::new());
            },
        };
        proof {
            assert(r2@ =~= r@.skip(16));
            assert(r1@.take(8) =~= r@.skip(8).take(8));
            assert(r2@.take(8) =~= r@.skip(16).take(8));
            assert(r3@ =~= r@.skip(24));
        }
        let r4 = if with_look {
            match wire::skip_n(r3, 8) {
                Some(v) => v,
                None => {
                    return Err(Disconnection::new());
                },
            }
        } else {
            r3
        };
        proof {
            if with_look {
                assert(r4@ =~= r@.skip(32));
            }
        }
        let ok_flag = match wire::byte(r4) {
            Some((b, _)) => b <= 1,
            None => false,
        };
        if !ok_flag {
            return Err(Disconnection::new());
        }
        let x = match fixed_of_bits(xb) {
            Some(v) => v,
            None => {
                return Err(Disconnection::new());
            },
        };
        let y = match fixed_of_bits(yb) {
            Some(v) => v,
            None => {
                return Err(Disconnection::new());
            },
        };
        let z = match fixed_of_bits(zb) {
            Some(v) => v,
            None => {
                return Err(Disconnection::new());
            },
        };
        self.request_move(pid, clients, x, y, z);
        Ok(())
    }

    fn play_dig(&mut self, pid: usize, clients: &mut SlotMap<Client>, r: &[u8]) -> (ret: Result<
        (),
        Disconnection,
    >)
        requires
            old(self).wf(),
            old(clients).wf(),
            pid < 32,
        ensures
            play_frame_ok(*old(self), *final(self), old(clients)@, final(clients)@),
            final(clients).wf(),
            ret is Ok <==> match spec_varint_decode(r@) {
                Some((st, k1)) => st == 0 && ({
                    let r2 = r@.skip(k1);
                    &&& r2.len() >= 9
                    &&& r2[8] <= 5
                    &&& after_varint(r2.skip(9)) is Some
                }),
                None => false,
            },
            ret is Err ==> *final(self) == *old(self) && forall|cid: int|
                0 <= cid < old(clients)@.len() ==> final(clients)@[cid] == old(clients)@[cid],
            ret is Ok ==> match spec_varint_decode(r@) {
                Some((st, k1)) => ({
                    let u = spec_be64(r@.skip(k1).take(8));
                    let dp = V3 {
                        x: crate::wire::spec_pos_x(u) as i32,
                        y: crate::wire::spec_pos_y(u) as i32,
                        z: crate::wire::spec_pos_z(u) as i32,
                    };
                    let sq = spec_varint_decode(r@.skip(k1).skip(9)).unwrap().0;
                    &&& (match old(self).spec_block_target(dp) {
                        Some(t) => final(self).spec_chunks()[t].content.spec_block(
                            World::spec_block_idx(dp),
                        ) == 0,
                        None => final(self).spec_chunks() == old(self).spec_chunks(),
                    })
                    &&& ((pid as int) < old(clients)@.len() ==> match (
                        old(clients)@[pid as int],
                        final(clients)@[pid as int],
                    ) {
                        (Some(a), Some(b)) => b.spec_queue().len() > 0 && b.spec_queue().last()
                            == ResponseV::AckBlockChange(sq),
                        (None, None) => true,
                        _ => false,
                    })
                }),
                None => true,
            },
    {
        proof {
            lemma_clients_extended_refl(clients@);
        }
        let (st, r1) = match wire::varint(r) {
            Some(v) => v,
            None => {
                return Err(Disconnection::new());
            },
        };
        if st != 0 {
            return Err(Disconnection::new());
        }
        let (p, r2) = match wire::pos(r1) {
            Some(v) => v,
            None => {
                return Err(Disconnection::new());
            },
        };
        let (fb, r3) = match wire::byte(r2) {
            Some(v) => v,
            None => {
                return Err(Disconnection::new());
            },
        };
        if fb > 5 {
            return Err(Disconnection::new());
        }
        proof {
            assert(r1@.skip(8).skip(1) =~= r1@.skip(9));
            assert(r3@ == r1@.skip(9));
        }
        let (seqn, _) = match wire::varint(r3) {
            Some(v) => v,
            None => {
                return Err(Disconnection::new());
            },
        };
        let ghost c1 = clients@;
        let ghost w1 = *self;
        self.break_at(clients, p);
        proof {
            crate::world::lemma_fanout_extends(
                c1,
                clients@,
                |cid: int| crate::world::spec_sb_deliver(w1, p, cid),
                crate::response::ResponseV::SetBlock(p, None),
            );
        }
        let ghost c2 = clients@;
        Self::submit_to(clients, pid, Response::AckBlockChange(seqn));
        proof {
            lemma_clients_extended_trans(old(clients)@, c1, c2);
            lemma_clients_extended_trans(old(clients)@, c2, clients@);
        }
        Ok(())
    }

    fn play_creative_slot(
        &mut self,
        pid: usize,
        clients: &mut SlotMap<Client>,
        r: &[u8],
    ) -> (ret: Result<(), Disconnection>)
        requires
            old(self).wf(),
            old(clients).wf(),
            pid < 32,
        ensures
            play_frame_ok(*old(self), *final(self), old(clients)@, final(clients)@),
            final(clients).wf(),
            ret is Ok <==> (r@.len() >= 3 && ({
                let r2 = r@.skip(3);
                if r@[2] == 0 {
                    true
                } else {
                    match spec_varint_decode(r2) {
                        Some((iid, k2)) => iid < 0x8000 && r2.skip(k2).len() >= 1,
                        None => false,
                    }
                }
            })),
            ret is Err ==> *final(self) == *old(self) && forall|cid: int|
                0 <= cid < old(clients)@.len() ==> final(clients)@[cid] == old(clients)@[cid],
            ret is Ok ==> ({
                let slot = crate::wire::spec_be16(r@[0], r@[1]) as i16;
                let given: Option<Item> = if r@[2] == 0 {
                    None
                } else {
                    Some(Item { id: spec_varint_decode(r@.skip(3)).unwrap().0 as u16 })
                };
                &&& (forall|cid: int|
                    0 <= cid < old(clients)@.len() ==> final(clients)@[cid] == old(
                        clients,
                    )@[cid])
                &&& final(self).spec_chunks() == old(self).spec_chunks()
                &&& final(self).spec_index() == old(self).spec_index()
                &&& final(self).spec_tick() == old(self).spec_tick()
                &&& ((pid as int) < old(self).spec_players().len() && 36 <= slot <= 45 ==> ({
                    let a = old(self).spec_players()[pid as int];
                    let b = final(self).spec_players()[pid as int];
                    &&& b.hotbar@ == a.hotbar@.update(slot - 36, given)
                    &&& b.name == a.name
                    &&& b.px == a.px
                    &&& b.py == a.py
                    &&& b.pz == a.pz
                    &&& b.view_distance == a.view_distance
                    &&& b.selected_item == a.selected_item
                    &&& b.last_ping_ack == a.last_ping_ack
                }))
                &&& (!((pid as int) < old(self).spec_players().len() && 36 <= slot <= 45)
                    ==> final(self).spec_players() == old(self).spec_players())
            }),
    {
        proof {
            lemma_clients_extended_refl(clients@);
        }
        let (slot, r1) = match wire::be_i16(r) {
            Some(v) => v,
            None => {
                return Err(Disconnection::new());
            },
        };
        let (present, r2) = match wire::bool(r1) {
            Some(v) => v,
            None => {
                return Err(Disconnection::new());
            },
        };
        proof {
            assert(r@.skip(2).skip(1) =~= r@.skip(3));
        }
        if !present {
            self.set_creative_slot(pid, slot, None);
            return Ok(());
        }
        let (iid, r3) = match wire::varint(r2) {
            Some(v) => v,
            None => {
                return Err(Disconnection::new());
            },
        };
        let item = match Item::new(iid) {
            Some(it) => it,
            None => {
                return Err(Disconnection::new());
            },
        };
        let (count, _) = match wire::byte(r3) {
            Some(v) => v,
            None => {
                return Err(Disconnection::new());
            },
        };
        self.set_creative_slot(pid, slot, Some((item, count)));
        Ok(())
    }

    fn play_use_item(&mut self, pid: usize, clients: &mut SlotMap<Client>, r: &[u8]) -> (ret:
        Result<(), Disconnection>)
        requires
            old(self).wf(),
            old(clients).wf(),
            pid < 32,
        ensures
            play_frame_ok(*old(self), *final(self), old(clients)@, final(clients)@),
            final(clients).wf(),
            ret is Ok <==> (r@.len() >= 1 && (r@[0] == 0 || r@[0] == 1) && ({
                let r2 = r@.skip(1);
                &&& r2.len() >= 9
                &&& r2[8] <= 5
                &&& ({
                    let r3 = r2.skip(9);
                    &&& r3.len() >= 13
                    &&& (r3[12] == 0 || r3[12] == 1)
                    &&& after_varint(r3.skip(13)) is Some
                })
            })),
            ret is Err ==> *final(self) == *old(self) && forall|cid: int|
                0 <= cid < old(clients)@.len() ==> final(clients)@[cid] == old(clients)@[cid],
            ret is Ok ==> ({
                let sq = spec_varint_decode(r@.skip(1).skip(9).skip(13)).unwrap().0;
                &&& final(self).spec_players() == old(self).spec_players()
                &&& ((pid as int) < old(clients)@.len() ==> match (
                    old(clients)@[pid as int],
                    final(clients)@[pid as int],
                ) {
                    (Some(a), Some(b)) => b.spec_queue().len() > 0 && b.spec_queue().last()
                        == ResponseV::AckBlockChange(sq),
                    (None, None) => true,
                    _ => false,
                })
            }),
    {
        proof {
            lemma_clients_extended_refl(clients@);
        }
        let (hb, r1) = match wire::byte(r) {
            Some(v) => v,
            None => {
                return Err(Disconnection::new());
            },
        };
        let hand = match hb {
            0 => Hand::Main,
            1 => Hand::Secondary,
            _ => {
                return Err(Disconnection::new());
            },
        };
        let (p, r2) = match wire::pos(r1) {
            Some(v) => v,
            None => {
                return Err(Disconnection::new());
            },
        };
        let (fb, r3) = match wire::byte(r2) {
            Some(v) => v,
            None => {
                return Err(Disconnection::new());
            },
        };
        let face = match decode_face(fb) {
            Some(f) => f,
            None => {
                return Err(Disconnection::new());
            },
        };
        let r4 = match wire::skip_n(r3, 12) {
            Some(v) => v,
            None => {
                return Err(Disconnection::new());
            },
        };
        let (ib, r5) = match wire::byte(r4) {
            Some(v) => v,
            None => {
                return Err(Disconnection::new());
            },
        };
        if ib > 1 {
            return Err(Disconnection::new());
        }
        proof {
            assert(r1@.skip(8).skip(1) =~= r1@.skip(9));
            assert(r1@.skip(9).skip(12).skip(1) =~= r1@.skip(9).skip(13));
            assert(r5@ == r1@.skip(9).skip(13));
        }
        let (seqn, _) = match wire::varint(r5) {
            Some(v) => v,
            None => {
                return Err(Disconnection::new());
            },
        };
        let ghost c1 = clients@;
        let ghost w1 = *self;
        self.use_item_at_block(pid, clients, p, hand, face);
        proof {
            match w1.spec_held_block(pid as int, hand) {
                None => {
                    lemma_clients_extended_refl(c1);
                },
                Some(b) => {
                    let off = crate::world::spec_face_offset(p, face);
                    if w1.spec_collides(off) {
                        lemma_clients_extended_refl(c1);
                    } else {
                        crate::world::lemma_fanout_extends(
                            c1,
                            clients@,
                            |cid: int| crate::world::spec_sb_deliver(w1, off, cid),
                            crate::response::ResponseV::SetBlock(off, Some(b)),
                        );
                    }
                },
            }
        }
        let ghost c2 = clients@;
        Self::submit_to(clients, pid, Response::AckBlockChange(seqn));
        proof {
            lemma_clients_extended_trans(old(clients)@, c1, c2);
            lemma_clients_extended_trans(old(clients)@, c2, clients@);
        }
        Ok(())
    }

    /// Carry out one play-phase frame for connection `pid`: mutate the
    /// world and queue whatever responses it causes. Connections only
    /// ever gain queued responses; the result is `Err` exactly on the
    /// frames [`spec_play_ok`] rejects.
    #[verifier::rlimit(100)]
    pub fn play_request(
        &mut self,
        pid: usize,
        clients: &mut SlotMap<Client>,
        pkt: &[u8],
    ) -> (r: Result<(), Disconnection>)
        requires
            old(self).wf(),
            old(clients).wf(),
            pid < 32,
        ensures
            play_frame_ok(*old(self), *final(self), old(clients)@, final(clients)@),
            final(clients).wf(),
            r is Ok <==> spec_play_ok(pkt@),
            r is Err ==> *final(self) == *old(self) && forall|cid: int|
                0 <= cid < old(clients)@.len() ==> final(clients)@[cid] == old(clients)@[cid],
            r is Ok ==> spec_play_effect(
                *old(self),
                *final(self),
                old(clients)@,
                final(clients)@,
                pid as int,
                pkt@,
            ),
    {
        proof {
            lemma_clients_extended_refl(clients@);
        }
        let (id, r) = match wire::varint(pkt) {
            Some(v) => v,
            None => {
                return Err(Disconnection::new());
            },
        };
        if id == 0x00 || id == 0x1d {
            Ok(())
        } else if id == 0x1f {
            self.acknowledge_ping(pid);
            Ok(())
        } else if id == 0x03 {
            self.play_command(pid, clients, r)
        } else if id == 0x0c {
            match wire::str(r) {
                Some(_) => Ok(()),
                None => Err(Disconnection::new()),
            }
        } else if id == 0x04 {
            self.play_chat(pid, clients, r)
        } else if id == 0x06 {
            self.play_respawn(pid, clients, r)
        } else if id == 0x07 {
            self.play_view_distance(pid, clients, r)
        } else if id == 0x0a {
            match wire::skip_n(r, 1) {
                Some(r1) => match wire::varint(r1) {
                    Some((_, r2)) => match wire::skip_n(r2, 5) {
                        Some(r3) => match wire::varint(r3) {
                            Some(_) => Ok(()),
                            None => Err(Disconnection::new()),
                        },
                        None => Err(Disconnection::new()),
                    },
                    None => Err(Disconnection::new()),
                },
                None => Err(Disconnection::new()),
            }
        } else if id == 0x0b {
            match wire::byte(r) {
                Some((w, _)) => {
                    self.closed_inventory(pid, w);
                    Ok(())
                },
                None => Err(Disconnection::new()),
            }
        } else if id == 0x1b {
            match wire::byte(r) {
                Some(_) => Ok(()),
                None => Err(Disconnection::new()),
            }
        } else if id == 0x13 {
            self.play_move(pid, clients, r, false)
        } else if id == 0x14 {
            self.play_move(pid, clients, r, true)
        } else if id == 0x15 {
            match wire::skip_n(r, 8) {
                Some(r1) => match wire::byte(r1) {
                    Some((b, _)) => if b <= 1 {
                        Ok(())
                    } else {
                        Err(Disconnection::new())
                    },
                    None => Err(Disconnection::new()),
                },
                None => Err(Disconnection::new()),
            }
        } else if id == 0x16 {
            match wire::byte(r) {
                Some((b, _)) => if b <= 1 {
                    Ok(())
                } else {
                    Err(Disconnection::new())
                },
                None => Err(Disconnection::new()),
            }
        } else if id == 0x1c {
            self.play_dig(pid, clients, r)
        } else if id == 0x27 {
            match wire::be_i16(r) {
                Some((idx, _)) => {
                    self.set_held_item(pid, #[verifier::truncate] (idx as u8));
                    Ok(())
                },
                None => Err(Disconnection::new()),
            }
        } else if id == 0x2a {
            self.play_creative_slot(pid, clients, r)
        } else if id == 0x2e {
            match wire::byte(r) {
                Some((b, _)) => if b <= 1 {
                    Ok(())
                } else {
                    Err(Disconnection::new())
                },
                None => Err(Disconnection::new()),
            }
        } else if id == 0x30 {
            self.play_use_item(pid, clients, r)
        } else {
            Err(Disconnection::new())
        }
    }
}

} // verus!
