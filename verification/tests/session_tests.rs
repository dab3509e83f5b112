use mcserv::chunk::ChunkContent;
use mcserv::client::Client;
use mcserv::slotmap::SlotMap;
use mcserv::types::V3;
use mcserv::types::Block;
use mcserv::world::World;

fn fresh_world() -> World {
    // stand-in registry and heightmap documents; the codec splices them
    // in verbatim
    World::new(vec![0xCA, 0xFE], vec![0xBE, 0xEF])
}

fn frame(payload: &[u8]) -> Vec<u8> {
    let mut out: Vec<u8> = Vec::new();
    mcserv::wire::put_str(&mut out, payload);
    out
}

/// Drive a fresh connection through handshake and login.
fn login_bob(world: &mut World, clients: &mut SlotMap<Client>) -> usize {
    let id = clients.insert(Client::accept());
    // handshake: id 0, protocol version 760, next state 2 in the last byte
    let hs = frame(&[0x00, 0xF8, 0x05, 2]);
    Client::read(clients, world, id, &hs).expect("handshake accepted");
    assert!(matches!(
        clients.get(id).unwrap().phase(),
        mcserv::types::State::Login
    ));
    // login start: id 0, name "Bob"
    let login = frame(&[0x00, 3, b'B', b'o', b'b']);
    Client::read(clients, world, id, &login).expect("login accepted");
    assert!(clients.get(id).unwrap().is_playing());
    id
}

/// Pull every pending frame out of a connection, returning each frame's
/// packet id, advancing `step` bytes per simulated socket write.
fn drain_ids(world: &World, clients: &mut SlotMap<Client>, id: usize, step: usize) -> Vec<u8> {
    let mut ids: Vec<u8> = Vec::new();
    let c = clients.get_mut(id).unwrap();
    loop {
        c.write(world, id);
        let mut fr: Vec<u8> = Vec::new();
        loop {
            let pending = c.pending_bytes();
            if pending.is_empty() {
                break;
            }
            let n = if step < pending.len() { step } else { pending.len() };
            fr.extend_from_slice(&pending[..n]);
            c.advance(n);
        }
        if fr.is_empty() {
            break;
        }
        // strip the varint length prefix and note the packet id
        let (payload, rest) = mcserv::wire::str(&fr).expect("complete frame");
        assert!(rest.is_empty());
        ids.push(payload[0]);
    }
    ids
}

#[test]
fn login_emits_responses_with_chunk_loads_deprioritized() {
    let mut world = fresh_world();
    let mut clients: SlotMap<Client> = SlotMap::new();
    let id = login_bob(&mut world, &mut clients);
    let ids = drain_ids(&world, &mut clients, id, 4096);
    // queued order is login, play, nine chunk loads, position, chat;
    // the drain sends position and chat ahead of the bulk chunk data
    assert_eq!(ids.len(), 13);
    assert_eq!(ids[0], 0x02);
    assert_eq!(ids[1], 0x23);
    assert_eq!(ids[2], 0x36);
    assert_eq!(ids[3], 0x5F);
    for k in 4..13 {
        assert_eq!(ids[k], 0x1F);
    }
}

#[test]
fn one_byte_socket_receives_identical_bytes() {
    // two identical sessions; one socket takes whole buffers, the other
    // a single byte per write
    let mut world_a = fresh_world();
    let mut clients_a: SlotMap<Client> = SlotMap::new();
    let a = login_bob(&mut world_a, &mut clients_a);
    let mut world_b = fresh_world();
    let mut clients_b: SlotMap<Client> = SlotMap::new();
    let b = login_bob(&mut world_b, &mut clients_b);

    let mut bytes_a: Vec<u8> = Vec::new();
    {
        let c = clients_a.get_mut(a).unwrap();
        loop {
            c.write(&world_a, a);
            if c.pending_bytes().is_empty() {
                break;
            }
            while !c.pending_bytes().is_empty() {
                let n = c.pending_bytes().len();
                bytes_a.extend_from_slice(c.pending_bytes());
                c.advance(n);
            }
        }
    }
    let mut bytes_b: Vec<u8> = Vec::new();
    {
        let c = clients_b.get_mut(b).unwrap();
        loop {
            c.write(&world_b, b);
            if c.pending_bytes().is_empty() {
                break;
            }
            while !c.pending_bytes().is_empty() {
                bytes_b.push(c.pending_bytes()[0]);
                c.advance(1);
            }
        }
    }
    assert!(bytes_a.len() > 4096, "the drain includes multi-kilobyte chunk data");
    assert_eq!(bytes_a, bytes_b);
}

#[test]
fn play_state_never_regresses() {
    let mut world = fresh_world();
    let mut clients: SlotMap<Client> = SlotMap::new();
    let id = login_bob(&mut world, &mut clients);
    // a handshake-shaped frame arriving in play state is taken for the
    // play packet with the same id and never rewinds the phase
    let hs = frame(&[0x00, 0xF8, 0x05, 2]);
    let r = Client::read(&mut clients, &mut world, id, &hs);
    assert!(r.is_ok());
    assert!(clients.get(id).unwrap().is_playing());
    // an unknown play packet errors the connection out, still without
    // leaving the play phase
    let bad = frame(&[0x7E]);
    assert!(Client::read(&mut clients, &mut world, id, &bad).is_err());
    assert!(clients.get(id).unwrap().is_playing());
    // a benign play frame keeps it playing too
    let ping = frame(&[0x1F]);
    Client::read(&mut clients, &mut world, id, &ping).unwrap();
    assert!(clients.get(id).unwrap().is_playing());
}

fn count_nonair(content: &ChunkContent, layer: usize) -> u16 {
    match content {
        ChunkContent::OneToOne { blocks, .. } => {
            let mut n: u16 = 0;
            for idx in layer * 4096..(layer + 1) * 4096 {
                let w = blocks[idx / 4];
                if (w >> (15 * (idx % 4))) & 0x7FFF != 0 {
                    n += 1;
                }
            }
            n
        }
    }
}

#[test]
fn nonair_counts_stay_true_under_set_block() {
    let mut world = fresh_world();
    let mut clients: SlotMap<Client> = SlotMap::new();
    let _id = login_bob(&mut world, &mut clients);
    // hammer one column with placements and removals, inside and
    // outside already-solid layers
    let b = Block::andesite();
    world.set_block(V3 { x: 1, y: 100, z: 1 }, Some(b), &mut clients);
    world.set_block(V3 { x: 1, y: 100, z: 1 }, Some(b), &mut clients);
    world.set_block(V3 { x: 2, y: 100, z: 1 }, Some(b), &mut clients);
    world.set_block(V3 { x: 1, y: 100, z: 1 }, None, &mut clients);
    world.set_block(V3 { x: 3, y: -64, z: 3 }, None, &mut clients);
    world.set_block(V3 { x: 3, y: -64, z: 3 }, None, &mut clients);
    world.set_block(V3 { x: 4, y: -60, z: 2 }, Some(b), &mut clients);
    let chunk = world.chunk_at(0, 0).expect("column is loaded");
    for layer in 0..24 {
        let stored = match &chunk.content {
            ChunkContent::OneToOne { nonaircounts, .. } => nonaircounts[layer],
        };
        assert_eq!(stored, count_nonair(&chunk.content, layer), "layer {layer}");
    }
}

#[test]
fn set_block_reaches_exactly_the_viewers() {
    let mut world = fresh_world();
    let mut clients: SlotMap<Client> = SlotMap::new();
    // five connections; 0 through 3 log in and see the spawn column,
    // 4 stays a spectator in the handshake phase
    for _ in 0..4 {
        login_bob(&mut world, &mut clients);
    }
    let spectator = clients.insert(Client::accept());
    // drain everything queued so far
    for id in 0..4usize {
        drain_ids(&world, &mut clients, id, 4096);
    }
    // have player 2 mutate a block every playing viewer can see
    world.set_block(V3 { x: 5, y: 100, z: 5 }, Some(Block::andesite()), &mut clients);
    for id in 0..4usize {
        let ids = drain_ids(&world, &mut clients, id, 4096);
        assert_eq!(ids, vec![0x09], "connection {id} hears the block change once");
    }
    let c = clients.get_mut(spectator).unwrap();
    c.write(&world, spectator);
    assert!(c.pending_bytes().is_empty(), "the spectator hears nothing");
}

#[test]
fn stale_keepalive_is_logged_out_at_the_boundary() {
    let mut world = fresh_world();
    let mut clients: SlotMap<Client> = SlotMap::new();
    let quiet = login_bob(&mut world, &mut clients);
    let lively = login_bob(&mut world, &mut clients);
    // both acked at tick 0; run past the first maintenance boundary
    // that can find a 100-tick-stale acknowledgement
    world.tick_until(150, &mut clients);
    assert!(clients.get(quiet).is_some());
    // the lively one answers; the quiet one does not
    let r = world.play_request(lively, &mut clients, &[0x1F]);
    assert!(r.is_ok());
    world.tick_until(250, &mut clients);
    assert!(clients.get(quiet).is_none(), "stale connection dropped");
    assert!(clients.get(lively).is_some(), "answering connection kept");
    // and the dropped player's visibility bits are gone: the spawn
    // column no longer lists it
    let chunk = world.chunk_at(0, 0).expect("column still loaded");
    assert_eq!(chunk.visible_to & (1 << quiet), 0);
    assert_ne!(chunk.visible_to & (1 << lively), 0);
}

#[test]
fn chat_reaches_every_playing_connection() {
    let mut world = fresh_world();
    let mut clients: SlotMap<Client> = SlotMap::new();
    let a = login_bob(&mut world, &mut clients);
    let b = login_bob(&mut world, &mut clients);
    drain_ids(&world, &mut clients, a, 4096);
    drain_ids(&world, &mut clients, b, 4096);
    // a sends a chat message
    let mut pkt: Vec<u8> = vec![0x04];
    mcserv::wire::put_str(&mut pkt, b"hello");
    world.play_request(a, &mut clients, &pkt).unwrap();
    assert_eq!(drain_ids(&world, &mut clients, a, 4096), vec![0x5F]);
    assert_eq!(drain_ids(&world, &mut clients, b, 4096), vec![0x5F]);
}

#[test]
fn unknown_play_packet_disconnects() {
    let mut world = fresh_world();
    let mut clients: SlotMap<Client> = SlotMap::new();
    let id = login_bob(&mut world, &mut clients);
    assert!(world.play_request(id, &mut clients, &[0x7E]).is_err());
    // malformed field: a chat frame whose declared length overruns
    let r = world.play_request(id, &mut clients, &[0x04, 9, b'x']);
    assert!(r.is_err());
}

#[test]
fn handshake_rejects_unknown_versions() {
    let mut world = fresh_world();
    let mut clients: SlotMap<Client> = SlotMap::new();
    let id = clients.insert(Client::accept());
    // version 700, next state 2: not negotiable
    let hs = frame(&[0x00, 0xBC, 0x05, 2]);
    assert!(Client::read(&mut clients, &mut world, id, &hs).is_err());
}

#[test]
fn status_phase_answers_ping() {
    let mut world = fresh_world();
    let mut clients: SlotMap<Client> = SlotMap::new();
    let id = clients.insert(Client::accept());
    // next state 1: status, whatever the version
    let hs = frame(&[0x00, 0xBC, 0x05, 1]);
    Client::read(&mut clients, &mut world, id, &hs).unwrap();
    let mut ping: Vec<u8> = vec![0x01];
    ping.extend_from_slice(&[0, 0, 0, 0, 0, 0, 0, 9]);
    let fr = frame(&ping);
    Client::read(&mut clients, &mut world, id, &fr).unwrap();
    let ids = drain_ids(&world, &mut clients, id, 4096);
    assert_eq!(ids, vec![0x01]);
}

#[test]
fn partial_frames_wait_for_the_rest() {
    let mut world = fresh_world();
    let mut clients: SlotMap<Client> = SlotMap::new();
    let id = clients.insert(Client::accept());
    let hs = frame(&[0x00, 0xF8, 0x05, 2]);
    // feed the handshake one byte at a time
    for i in 0..hs.len() {
        Client::read(&mut clients, &mut world, id, &hs[i..i + 1]).unwrap();
    }
    assert!(matches!(
        clients.get(id).unwrap().phase(),
        mcserv::types::State::Login
    ));
}

#[test]
fn kill_command_answers_with_zero_health() {
    let mut world = fresh_world();
    let mut clients: SlotMap<Client> = SlotMap::new();
    let id = login_bob(&mut world, &mut clients);
    drain_ids(&world, &mut clients, id, 4096);
    let mut pkt: Vec<u8> = vec![0x03];
    mcserv::wire::put_str(&mut pkt, b"kill");
    world.play_request(id, &mut clients, &pkt).unwrap();
    assert_eq!(drain_ids(&world, &mut clients, id, 4096), vec![0x52]);
    // any other command is accepted and ignored
    let mut other: Vec<u8> = vec![0x03];
    mcserv::wire::put_str(&mut other, b"fly");
    world.play_request(id, &mut clients, &other).unwrap();
    assert_eq!(drain_ids(&world, &mut clients, id, 4096), Vec::<u8>::new());
}

#[test]
fn shrinking_view_distance_is_a_recoverable_error() {
    let mut world = fresh_world();
    let mut clients: SlotMap<Client> = SlotMap::new();
    let id = login_bob(&mut world, &mut clients);
    let c = clients.get_mut(id).unwrap();
    assert!(world.request_view_distance(id, c, 3).is_ok());
    assert!(world.request_view_distance(id, c, 2).is_err());
    assert!(world.request_view_distance(id, c, 3).is_ok());
}

#[test]
fn placement_respects_player_bounding_boxes() {
    let mut world = fresh_world();
    let mut clients: SlotMap<Client> = SlotMap::new();
    let id = login_bob(&mut world, &mut clients);
    drain_ids(&world, &mut clients, id, 4096);
    // the player stands at the origin: a block in the feet voxel is
    // refused, one far away is placed
    world.try_set_block(V3 { x: 0, y: 0, z: 0 }, Block::andesite(), &mut clients);
    assert_eq!(drain_ids(&world, &mut clients, id, 4096), Vec::<u8>::new());
    world.try_set_block(V3 { x: 6, y: 50, z: 6 }, Block::andesite(), &mut clients);
    assert_eq!(drain_ids(&world, &mut clients, id, 4096), vec![0x09]);
}

#[test]
fn respawn_queues_respawn_and_position() {
    let mut world = fresh_world();
    let mut clients: SlotMap<Client> = SlotMap::new();
    let id = login_bob(&mut world, &mut clients);
    drain_ids(&world, &mut clients, id, 4096);
    world.play_request(id, &mut clients, &[0x06, 0]).unwrap();
    let ids = drain_ids(&world, &mut clients, id, 4096);
    assert_eq!(ids[0], 0x3B);
    assert!(ids.contains(&0x36));
    // the unsupported sub-action disconnects
    assert!(world.play_request(id, &mut clients, &[0x06, 1]).is_err());
}

#[test]
fn movement_updates_position_and_recenters() {
    let mut world = fresh_world();
    let mut clients: SlotMap<Client> = SlotMap::new();
    let id = login_bob(&mut world, &mut clients);
    drain_ids(&world, &mut clients, id, 4096);
    let mut pkt: Vec<u8> = vec![0x13];
    for v in [40.5f64, 5.0, 3.0] {
        pkt.extend_from_slice(&v.to_bits().to_be_bytes());
    }
    pkt.push(1);
    world.play_request(id, &mut clients, &pkt).unwrap();
    let (px, py, pz) = world.player_pos(id);
    assert_eq!(px, (40.5f64 * 16384.0) as i64);
    assert_eq!(py, 5 * 16384);
    assert_eq!(pz, 3 * 16384);
    // two chunk boundaries crossed: the drain starts with the recenter
    let ids = drain_ids(&world, &mut clients, id, 65536);
    assert_eq!(ids[0], 0x48);
    // a non-finite coordinate disconnects
    let mut bad: Vec<u8> = vec![0x13];
    for v in [f64::NAN, 0.0, 0.0] {
        bad.extend_from_slice(&v.to_bits().to_be_bytes());
    }
    bad.push(0);
    assert!(world.play_request(id, &mut clients, &bad).is_err());
}

#[test]
fn creative_slot_then_use_item_places_the_held_block() {
    let mut world = fresh_world();
    let mut clients: SlotMap<Client> = SlotMap::new();
    let id = login_bob(&mut world, &mut clients);
    drain_ids(&world, &mut clients, id, 4096);
    // put an item into window slot 36 (hotbar slot 0, the default hand)
    let mut give: Vec<u8> = vec![0x2A, 0, 36, 1];
    give.push(6);
    give.push(1);
    world.play_request(id, &mut clients, &give).unwrap();
    // use it against the top face of a block beside the player
    let mut use_pkt: Vec<u8> = vec![0x30, 0];
    use_pkt.extend_from_slice(&mcserv::wire::pos_encode(V3 { x: 6, y: 40, z: 6 }).to_be_bytes());
    use_pkt.push(1);
    use_pkt.extend_from_slice(&[0; 12]);
    use_pkt.push(0);
    use_pkt.push(9);
    world.play_request(id, &mut clients, &use_pkt).unwrap();
    // the viewer hears the block change, then the acknowledgement
    let ids = drain_ids(&world, &mut clients, id, 4096);
    assert_eq!(ids, vec![0x09, 0x05]);
    let chunk = world.chunk_at(0, 0).unwrap();
    // the placement lands one voxel above the clicked top face
    let placed = match &chunk.content {
        ChunkContent::OneToOne { blocks, .. } => {
            let idx = (41 + 64) * 256 + 6 * 16 + 6;
            (blocks[idx / 4] >> (15 * (idx % 4))) & 0x7FFF
        }
    };
    assert_eq!(placed, 6, "the held block id ends up in the column");
}

#[test]
fn digging_breaks_the_block_and_acknowledges() {
    let mut world = fresh_world();
    let mut clients: SlotMap<Client> = SlotMap::new();
    let id = login_bob(&mut world, &mut clients);
    drain_ids(&world, &mut clients, id, 4096);
    // dig out a block of the solid floor
    let mut dig: Vec<u8> = vec![0x1C, 0];
    dig.extend_from_slice(&mcserv::wire::pos_encode(V3 { x: 2, y: -50, z: 2 }).to_be_bytes());
    dig.push(1);
    dig.push(7);
    world.play_request(id, &mut clients, &dig).unwrap();
    let ids = drain_ids(&world, &mut clients, id, 4096);
    assert_eq!(ids, vec![0x09, 0x05]);
    let chunk = world.chunk_at(0, 0).unwrap();
    let dug = match &chunk.content {
        ChunkContent::OneToOne { blocks, .. } => {
            let idx = ((-50 + 64) * 256 + 2 * 16 + 2) as usize;
            (blocks[idx / 4] >> (15 * (idx % 4))) & 0x7FFF
        }
    };
    assert_eq!(dug, 0, "the voxel is air now");
    // the unsupported dig sub-action disconnects
    let mut swap: Vec<u8> = vec![0x1C, 6];
    swap.extend_from_slice(&mcserv::wire::pos_encode(V3 { x: 2, y: -50, z: 2 }).to_be_bytes());
    swap.push(1);
    swap.push(7);
    assert!(world.play_request(id, &mut clients, &swap).is_err());
}

#[test]
fn held_item_selection_is_bounded() {
    let mut world = fresh_world();
    let mut clients: SlotMap<Client> = SlotMap::new();
    let id = login_bob(&mut world, &mut clients);
    // select hotbar slot 3
    world.play_request(id, &mut clients, &[0x27, 0, 3]).unwrap();
    // an oversized item id in a creative-slot frame disconnects
    let mut bad: Vec<u8> = vec![0x2A, 0, 36, 1, 0x80, 0x80, 0x02, 1];
    assert!(world.play_request(id, &mut clients, &bad).is_err());
}

#[test]
fn one_keepalive_per_maintenance_boundary() {
    let mut world = fresh_world();
    let mut clients: SlotMap<Client> = SlotMap::new();
    let id = login_bob(&mut world, &mut clients);
    drain_ids(&world, &mut clients, id, 4096);
    // one boundary (tick 0) falls inside [0, 50): exactly one keepalive
    world.tick_until(50, &mut clients);
    assert_eq!(drain_ids(&world, &mut clients, id, 4096), vec![0x2D]);
    // no boundary inside [50, 90): nothing is queued
    world.tick_until(90, &mut clients);
    assert_eq!(drain_ids(&world, &mut clients, id, 4096), Vec::<u8>::new());
    // the boundary at 100 queues exactly one more
    world.tick_until(140, &mut clients);
    assert_eq!(drain_ids(&world, &mut clients, id, 4096), vec![0x2D]);
}

#[test]
fn moving_inside_the_band_paints_the_walked_line() {
    let mut world = fresh_world();
    let mut clients: SlotMap<Client> = SlotMap::new();
    let pid = login_bob(&mut world, &mut clients);
    fn id_at(content: &ChunkContent, x: usize, z: usize) -> u64 {
        let ChunkContent::OneToOne { blocks, .. } = content;
        // the painted band sits one block below the surface datum
        let idx = 63 * 256 + z * 16 + x;
        (blocks[idx / 4] >> (15 * (idx % 4))) & 0x7FFF
    }
    // from the spawn block to (3, 2), one block off the floor: inside
    // the painting band, so every walked cell turns to the demo block
    world.request_move(pid, &mut clients, 3 * 16384, 16384, 2 * 16384);
    let chunk = world.chunk_at(0, 0).expect("spawn column is loaded");
    assert_eq!(id_at(&chunk.content, 3, 2), 6, "the walked endpoint is painted");
    assert_eq!(id_at(&chunk.content, 0, 15), 1, "a cell off the line keeps its floor");
    // ten blocks up is out of the band: the walk paints nothing
    world.request_move(pid, &mut clients, 6 * 16384, 10 * 16384, 5 * 16384);
    let chunk = world.chunk_at(0, 0).expect("spawn column is loaded");
    assert_eq!(id_at(&chunk.content, 6, 5), 1, "no painting above the band");
}

#[test]
fn growing_the_view_appends_one_load_per_ring_column() {
    let mut world = fresh_world();
    let mut clients: SlotMap<Client> = SlotMap::new();
    let id = login_bob(&mut world, &mut clients);
    drain_ids(&world, &mut clients, id, 4096);
    let c = clients.get_mut(id).unwrap();
    world.request_view_distance(id, c, 2).unwrap();
    let ids = drain_ids(&world, &mut clients, id, 4096);
    // the new render distance, then the ring layers from the old
    // distance through the new one: the mirrored enumeration emits
    // 4*(l+1) + 4*l loads for layer l, so 12 + 20 here, nothing else
    assert_eq!(ids[0], 0x49);
    assert_eq!(ids.len(), 1 + 12 + 20);
    assert!(ids[1..].iter().all(|b| *b == 0x1F));
}
