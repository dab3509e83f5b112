use mcserv::response::Response;
use mcserv::types::{Block, Name, V3};
use mcserv::world::World;
use mcserv::wire;

fn tiny_world() -> World {
    World::new(vec![0xAA], vec![0xBB])
}

fn unframe(bytes: &[u8]) -> Vec<u8> {
    let (payload, rest) = wire::str(bytes).expect("frame is complete");
    assert!(rest.is_empty());
    payload.to_vec()
}

#[test]
fn ping_frame_is_exact() {
    let w = tiny_world();
    let bytes = Response::Ping.write(&w, 0);
    assert_eq!(bytes, vec![5, 0x2D, 0x02, 0x1C, 0xF9, 0xEF]);
}

#[test]
fn ack_block_change_carries_the_sequence_number() {
    let w = tiny_world();
    let payload = unframe(&Response::AckBlockChange(300).write(&w, 0));
    assert_eq!(payload, vec![0x05, 0xAC, 0x02]);
}

#[test]
fn set_render_distance_frame() {
    let w = tiny_world();
    let payload = unframe(&Response::SetRenderDistance(7).write(&w, 0));
    assert_eq!(payload, vec![0x49, 7]);
}

#[test]
fn set_health_frame() {
    let w = tiny_world();
    let h = 20.0f32.to_bits();
    let payload = unframe(&Response::SetHealth(h, 3, 0).write(&w, 0));
    let mut expect: Vec<u8> = vec![0x52];
    expect.extend_from_slice(&h.to_be_bytes());
    expect.push(3);
    expect.extend_from_slice(&[0, 0, 0, 0]);
    assert_eq!(payload, expect);
}

#[test]
fn pong_echoes_the_payload() {
    let w = tiny_world();
    let payload = unframe(&Response::Pong(0x1122334455667788).write(&w, 0));
    assert_eq!(payload[0], 0x01);
    assert_eq!(&payload[1..], &[0x11, 0x22, 0x33, 0x44, 0x55, 0x66, 0x77, 0x88]);
}

#[test]
fn set_block_packs_position_and_id() {
    let w = tiny_world();
    let pos = V3 { x: 100, y: 64, z: -100 };
    let payload = unframe(&Response::SetBlock(pos, Some(Block::andesite())).write(&w, 0));
    assert_eq!(payload[0], 0x09);
    let (word, rest) = wire::be_u64(&payload[1..]).unwrap();
    let (decoded, _) = wire::pos(&payload[1..9]).unwrap();
    assert_eq!(decoded, pos);
    assert_eq!(word, wire::pos_encode(pos));
    assert_eq!(rest, &[6]);
    // air is id zero
    let air = unframe(&Response::SetBlock(pos, None).write(&w, 0));
    assert_eq!(air[9], 0);
}

#[test]
fn chat_uses_the_json_document() {
    let w = tiny_world();
    let payload = unframe(&Response::Chat(b"hi \"there\"".to_vec()).write(&w, 0));
    assert_eq!(payload[0], 0x5F);
    let (doc, tail) = wire::str(&payload[1..]).unwrap();
    assert_eq!(tail, &[0]);
    // cross-check against serde_json's own serialization
    let mut m = serde_json::Map::new();
    m.insert(
        "text".to_string(),
        serde_json::Value::String("hi \"there\"".to_string()),
    );
    let expect = serde_json::to_string(&serde_json::Value::Object(m)).unwrap();
    assert_eq!(doc, expect.as_bytes());
}

#[test]
fn status_frame_holds_the_description_document() {
    let w = tiny_world();
    let payload = unframe(&Response::Status.write(&w, 0));
    assert_eq!(payload[0], 0x00);
    let (doc, _) = wire::str(&payload[1..]).unwrap();
    let parsed: serde_json::Value = serde_json::from_slice(doc).expect("valid JSON");
    assert_eq!(parsed["version"]["protocol"], serde_json::Value::from(759));
    assert_eq!(parsed["players"]["max"], serde_json::Value::from(1));
}

#[test]
fn login_frame_pads_the_name_to_sixteen_bytes() {
    let w = tiny_world();
    let name = Name::from_bytes(b"Bob".to_vec()).unwrap();
    let payload = unframe(&Response::Login(name).write(&w, 0));
    assert_eq!(payload[0], 0x02);
    assert_eq!(&payload[1..4], b"Bob");
    for k in 4..17 {
        assert_eq!(payload[k], 0xFF);
    }
    assert_eq!(payload[17], 3);
    assert_eq!(&payload[18..21], b"Bob");
    assert_eq!(payload[21], 0);
    assert_eq!(payload.len(), 22);
}

#[test]
fn play_frame_splices_the_registry_document() {
    let w = World::new(vec![0xDE, 0xAD, 0xBE, 0xEF], vec![0x01]);
    let payload = unframe(&Response::Play(mcserv::types::GameMode::Creative).write(&w, 0));
    assert_eq!(payload[0], 0x23);
    // eid, hardcore flag, game mode, previous mode, empty dimension list
    assert_eq!(&payload[1..5], &[0, 0, 0, 1]);
    assert_eq!(payload[5], 0);
    assert_eq!(payload[6], 1);
    assert_eq!(payload[7], 0xFF);
    assert_eq!(payload[8], 0);
    assert_eq!(&payload[9..13], &[0xDE, 0xAD, 0xBE, 0xEF]);
}

#[test]
fn load_chunk_frame_carries_heightmap_and_sections() {
    let mut w = World::new(vec![0xAA], vec![0xB1, 0xB2, 0xB3]);
    let mut clients = mcserv::slotmap::SlotMap::new();
    let id = clients.insert(mcserv::client::Client::accept());
    match clients.get_mut(id) {
        Some(c) => w.load_chunk(id, c, (0, 0)),
        None => unreachable!(),
    }
    let payload = unframe(&Response::LoadChunk(0, 0).write(&w, 0));
    assert_eq!(payload[0], 0x1F);
    assert_eq!(&payload[1..9], &[0, 0, 0, 0, 0, 0, 0, 0]);
    assert_eq!(&payload[9..12], &[0xB1, 0xB2, 0xB3]);
    let (chunkdata, _light) = wire::str(&payload[12..]).unwrap();
    // first layer: 4096 non-air blocks, 15 bits per block, 1024 words
    assert_eq!(&chunkdata[..2], &[0x10, 0x00]);
    assert_eq!(chunkdata[2], 15);
    let (wordcount, words) = wire::varint(&chunkdata[3..]).unwrap();
    assert_eq!(wordcount, 1024);
    // every word of the bottom layer holds four stone blocks
    let (w0, _) = wire::be_u64(words).unwrap();
    assert_eq!(w0, 0x2000_4000_8001);
}

#[test]
fn unloaded_column_encodes_as_empty_sections() {
    let w = tiny_world();
    let payload = unframe(&Response::LoadChunk(9, 9).write(&w, 0));
    let (chunkdata, _) = wire::str(&payload[10..]).unwrap();
    // 24 sections of: zero count, empty marker, no biome data
    assert_eq!(chunkdata.len(), 24 * 8);
    assert_eq!(&chunkdata[..8], &[0, 0, 0, 0, 0, 0, 0, 0]);
}

#[test]
fn position_frame_sends_the_player_doubles() {
    let mut w = tiny_world();
    let mut clients = mcserv::slotmap::SlotMap::new();
    let id = clients.insert(mcserv::client::Client::accept());
    let name = Name::from_bytes(b"Ann".to_vec()).unwrap();
    match clients.get_mut(id) {
        Some(c) => w.login(id, name, c),
        None => unreachable!(),
    }
    let payload = unframe(&Response::Position.write(&w, id));
    assert_eq!(payload[0], 0x36);
    let (xb, _) = wire::be_u64(&payload[1..]).unwrap();
    assert_eq!(f64::from_bits(xb), 0.0);
    assert_eq!(payload.len(), 1 + 24 + 8 + 3);
}
