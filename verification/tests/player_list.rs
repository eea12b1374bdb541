use bedrock_protocol::connection::ConnState;
use bedrock_protocol::direction::Direction;
use bedrock_protocol::handler::Handler;
use bedrock_protocol::packet_ids;
use bedrock_protocol::steps::player_list_v2168::{
    arm_size_to_v1001, arm_size_to_v2168, format_argb_colour, format_rgb_colour, format_uuid, list_body, parse_hex_colour, parse_uuid, piece_type_to_v1001,
    piece_type_to_v2168, player_list, tint_type_to_v1001, tint_type_to_v2168, ACTION_ADD, ACTION_REMOVE, VARIANT_ADD,
    VARIANT_REMOVE,
};
use bedrock_protocol::steps::sub_chunk::SubChunkShape;
use bedrock_protocol::steps::v1001_v2168;
use bedrock_protocol::wrapper::PacketWrapper;

struct Writer(Vec<u8>);

impl Writer {
    fn new() -> Writer {
        Writer(Vec::new())
    }
    fn write_uvarint(&mut self, mut v: u64) {
        loop {
            let b = (v & 0x7f) as u8;
            v >>= 7;
            if v == 0 {
                self.0.push(b);
                return;
            }
            self.0.push(b | 0x80);
        }
    }
    fn write_count(&mut self, n: usize) {
        self.write_uvarint(n as u64);
    }
    fn write_varint64(&mut self, v: i64) {
        self.write_uvarint(((v << 1) ^ (v >> 63)) as u64);
    }
    fn write_string(&mut self, s: &str) {
        self.write_byte_array(s.as_bytes());
    }
    fn write_byte_array(&mut self, b: &[u8]) {
        self.write_uvarint(b.len() as u64);
        self.0.extend_from_slice(b);
    }
    fn write_u32_le(&mut self, v: u32) {
        self.0.extend_from_slice(&v.to_le_bytes());
    }
    fn write_i32_le(&mut self, v: i32) {
        self.0.extend_from_slice(&v.to_le_bytes());
    }
    fn write_i32_be(&mut self, v: i32) {
        self.0.extend_from_slice(&v.to_be_bytes());
    }
    fn write_f32_le(&mut self, v: f32) {
        self.0.extend_from_slice(&v.to_le_bytes());
    }
    fn write_u8(&mut self, v: u8) {
        self.0.push(v);
    }
    fn write_bool(&mut self, v: bool) {
        self.0.push(v as u8);
    }
    fn write_uuid(&mut self, msb: u64, lsb: u64) {
        self.0.extend_from_slice(&msb.to_le_bytes());
        self.0.extend_from_slice(&lsb.to_le_bytes());
    }
    fn into_vec(self) -> Vec<u8> {
        self.0
    }
}

struct Reader<'a> {
    bytes: &'a [u8],
    pos: usize,
}

impl<'a> Reader<'a> {
    fn new(bytes: &'a [u8]) -> Reader<'a> {
        Reader { bytes, pos: 0 }
    }
    fn read_u8(&mut self) -> u8 {
        let b = self.bytes[self.pos];
        self.pos += 1;
        b
    }
    fn read_uvarint(&mut self) -> u64 {
        let mut v: u64 = 0;
        let mut shift = 0;
        loop {
            let b = self.read_u8();
            v |= u64::from(b & 0x7f) << shift;
            if b & 0x80 == 0 {
                return v;
            }
            shift += 7;
        }
    }
    fn read_varint64(&mut self) -> i64 {
        let u = self.read_uvarint();
        ((u >> 1) as i64) ^ -((u & 1) as i64)
    }
    fn read_string(&mut self) -> String {
        let n = self.read_uvarint() as usize;
        let s = String::from_utf8(self.bytes[self.pos..self.pos + n].to_vec()).unwrap();
        self.pos += n;
        s
    }
    fn read_uuid(&mut self) -> (u64, u64) {
        let msb = u64::from_le_bytes(self.bytes[self.pos..self.pos + 8].try_into().unwrap());
        let lsb = u64::from_le_bytes(self.bytes[self.pos + 8..self.pos + 16].try_into().unwrap());
        self.pos += 16;
        (msb, lsb)
    }
    fn has_remaining(&self) -> bool {
        self.pos < self.bytes.len()
    }
}

fn skin_bytes_v1001(w: &mut Writer) {
    w.write_string("skin-id");
    w.write_string("playfab");
    w.write_byte_array(b"{patch}");
    w.write_u32_le(64);
    w.write_u32_le(32);
    w.write_byte_array(&[1u8, 2, 3, 4]);
    w.write_u32_le(1);
    w.write_u32_le(8);
    w.write_u32_le(8);
    w.write_byte_array(&[9u8]);
    w.write_u32_le(2);
    w.write_f32_le(1.5);
    w.write_u32_le(3);
    w.write_u32_le(0);
    w.write_u32_le(0);
    w.write_byte_array(&[]);
    w.write_byte_array(b"{geo}");
    w.write_byte_array(b"1.8.0");
    w.write_byte_array(b"{anim}");
    w.write_string("cape-id");
    w.write_string("full-id");
    w.write_string("wide");
    w.write_string("#b37b62");
    w.write_u32_le(1);
    w.write_string("piece-id");
    w.write_string("persona_eyes");
    w.write_string("3d29a1a4-1c1e-4e4d-9b2f-000000000001");
    w.write_bool(true);
    w.write_string("product");
    w.write_u32_le(1);
    w.write_string("persona_eyes");
    w.write_u32_le(4);
    for c in ["#ffa12722", "#ff2f1f0f", "#ff3aafd9", "#ff000000"] {
        w.write_string(c);
    }
    w.write_bool(false);
    w.write_bool(true);
    w.write_bool(false);
    w.write_bool(true);
    w.write_bool(false);
}

fn v1001_add() -> Vec<u8> {
    let mut w = Writer::new();
    w.write_u8(ACTION_ADD);
    w.write_count(1);
    w.write_uuid(0x0123_4567_89ab_cdef, 0xfedc_ba98_7654_3210);
    w.write_varint64(42);
    w.write_string("RSxiaotong");
    w.write_string("2535424392028628");
    w.write_string("");
    w.write_i32_le(7);
    skin_bytes_v1001(&mut w);
    w.write_bool(false);
    w.write_bool(true);
    w.write_bool(false);
    w.write_u32_le(0xdd_cc_bb_aa);
    w.write_bool(true);
    w.into_vec()
}

/// Runs the list rewrite: the new body, or none when the list cannot be
/// expressed; panics when it cannot be read.
fn translate(input: &[u8], to_v2168: bool) -> Option<Vec<u8>> {
    let mut w = PacketWrapper::new(input);
    match list_body(&mut w, to_v2168) {
        Ok(true) => Some(w.finish()),
        Ok(false) => None,
        Err(err) => panic!("cannot decode: {err:?}"),
    }
}

#[test]
fn v1001_add_becomes_a_v2168_entry_with_the_name_intact() {
    let input = v1001_add();
    let out = translate(&input, true).expect("translated");

    let mut r = Reader::new(&out);
    assert_eq!(r.read_uvarint(), 1);
    assert_eq!(r.read_uvarint(), VARIANT_ADD as u64);
    assert_eq!(r.read_u8(), ACTION_ADD);
    r.read_uuid();
    assert_eq!(r.read_varint64(), 42);
    assert_eq!(r.read_string(), "RSxiaotong");
    assert_eq!(r.read_string(), "2535424392028628");
}

#[test]
fn add_round_trips_through_v2168_and_back() {
    let input = v1001_add();
    let v2168_bytes = translate(&input, true).expect("up");
    let back = translate(&v2168_bytes, false).expect("down");
    assert_eq!(back, input, "v1001 -> v2168 -> v1001 must be exact");
}

#[test]
fn remove_lists_carry_only_uuids() {
    let mut w = Writer::new();
    w.write_u8(ACTION_REMOVE);
    w.write_count(2);
    w.write_uuid(1, 2);
    w.write_uuid(3, 4);
    let input = w.into_vec();

    let out = translate(&input, true).expect("up");
    let mut r = Reader::new(&out);
    assert_eq!(r.read_uvarint(), 2);
    for expected in [(1u64, 2u64), (3, 4)] {
        assert_eq!(r.read_uvarint(), VARIANT_REMOVE as u64);
        assert_eq!(r.read_u8(), ACTION_REMOVE);
        assert_eq!(r.read_uuid(), expected);
    }
    assert!(!r.has_remaining(), "a removal carries nothing past the UUID");

    assert_eq!(translate(&out, false).expect("down"), input);
}

#[test]
fn player_colour_is_a_byte_reversal_not_a_repack() {
    let input = v1001_add();
    let out = translate(&input, true).expect("up");
    let tail = &out[out.len() - 4..];
    assert_eq!(tail, &[0xdd, 0xcc, 0xbb, 0xaa]);
}

#[test]
fn a_mixed_v2168_list_is_cancelled_rather_than_half_applied() {
    let mut w = Writer::new();
    w.write_count(2);
    w.write_uvarint(VARIANT_REMOVE as u64);
    w.write_u8(ACTION_REMOVE);
    w.write_uuid(1, 2);
    w.write_uvarint(VARIANT_ADD as u64);
    w.write_u8(ACTION_ADD);
    w.write_uuid(3, 4);
    w.write_varint64(1);
    w.write_string("Someone");
    w.write_string("");
    w.write_string("");
    w.write_i32_le(0);
    let input = w.into_vec();

    let mut state = ConnState::new(2168);
    let mut wrapper = PacketWrapper::new(&input);
    assert!(player_list(&mut wrapper, false, &mut state.notices).is_ok());
    assert!(wrapper.is_cancelled());
    assert_eq!(state.notices.len(), 1);
}

#[test]
fn colour_and_uuid_helpers_round_trip() {
    assert_eq!(format_rgb_colour(parse_hex_colour(b"#b37b62")), b"#b37b62".to_vec());
    assert_eq!(format_argb_colour(parse_hex_colour(b"#ffa12722")), b"#ffa12722".to_vec());
    assert_eq!(format_argb_colour(parse_hex_colour(b"#0")), b"#0".to_vec());
    assert_eq!(parse_hex_colour(b"#0"), 0);
    assert_eq!(parse_hex_colour(b""), 0);
    let id = "3d29a1a4-1c1e-4e4d-9b2f-000000000001";
    assert_eq!(format_uuid(&parse_uuid(id.as_bytes())), id.as_bytes().to_vec());
    assert_eq!(format_uuid(&parse_uuid(b"not a uuid")), Vec::<u8>::new());
}

#[test]
fn persona_piece_names_map_onto_the_documented_enum_positions() {
    for (name, expected) in [
        ("persona_skeleton", 1u32),
        ("persona_body", 2),
        ("persona_skin", 3),
        ("persona_bottom", 4),
        ("persona_feet", 5),
        ("persona_top", 7),
        ("persona_mouth", 12),
        ("persona_eyes", 13),
        ("persona_hair", 14),
        ("persona_facial_hair", 11),
    ] {
        assert_eq!(piece_type_to_v2168(name.as_bytes()), expected, "{name}");
        assert_eq!(piece_type_to_v1001(expected), name.as_bytes().to_vec());
    }
    assert_eq!(piece_type_to_v2168(b"persona_something_new"), 0);
}

#[test]
fn tint_piece_names_lose_and_regain_their_prefix() {
    assert_eq!(tint_type_to_v2168(b"persona_eyes"), b"eyes".to_vec());
    assert_eq!(tint_type_to_v1001(b"eyes"), b"persona_eyes".to_vec());
    assert_eq!(tint_type_to_v2168(b"persona_hand"), b"hands".to_vec());
    assert_eq!(tint_type_to_v1001(b"hands"), b"persona_hand".to_vec());
    assert_eq!(tint_type_to_v1001(b"unsupported"), b"unsupported".to_vec());
}

/// A protocol-2168 list that adds one player and removes another.
fn v2168_mixed_complete() -> Vec<u8> {
    let up = translate(&v1001_add(), true).expect("up");
    let mut w = Writer::new();
    w.write_count(2);
    w.write_uvarint(VARIANT_REMOVE as u64);
    w.write_u8(ACTION_REMOVE);
    w.write_uuid(5, 6);
    // the entry of the upgraded list, after its count
    w.0.extend_from_slice(&up[1..]);
    w.into_vec()
}

#[test]
fn a_readable_mixed_list_cannot_go_to_v1001() {
    let input = v2168_mixed_complete();
    assert_eq!(translate(&input, false), None);
    let mut wrapper = PacketWrapper::new(&input);
    assert!(player_list(&mut wrapper, false, &mut Vec::new()).is_ok());
    assert!(wrapper.is_cancelled());
}

#[test]
fn an_empty_list_goes_down_as_additions() {
    let out = translate(&[0x00], false).expect("down");
    assert_eq!(out, vec![ACTION_ADD, 0x00]);
    assert_eq!(translate(&out, true).expect("up"), vec![0x00]);
}

#[test]
fn trailing_bytes_and_unknown_actions_are_refused() {
    let mut input = v1001_add();
    input.push(0);
    let mut w = PacketWrapper::new(&input);
    assert!(list_body(&mut w, true).is_err());
    let mut w = PacketWrapper::new(&[2u8, 0]);
    assert!(list_body(&mut w, true).is_err());
    let mut wrapper = PacketWrapper::new(&[7u8, 1, 0]);
    assert!(player_list(&mut wrapper, false, &mut Vec::new()).is_ok());
    assert!(wrapper.is_cancelled());
}

#[test]
fn the_trusted_flag_moves_into_the_skin_and_back() {
    let input = v1001_add();
    let up = translate(&input, true).expect("up");
    // protocol 2168 ends the skin with "true", the profile hash, the roles
    // and the colour
    let n = up.len();
    assert_eq!(&up[n - 4 - 3 - 1 - 5..n - 4 - 3 - 1], &[4, b't', b'r', b'u', b'e']);
    let mut shouted = up.clone();
    shouted[n - 4 - 3 - 1 - 4] = b'T';
    let down = translate(&shouted, false).expect("down");
    assert_eq!(down, input);
}

#[test]
fn v2168_colours_and_ids_are_written_as_v1001_text() {
    let up = translate(&v1001_add(), true).expect("up");
    let down = translate(&up, false).expect("down");
    let text = String::from_utf8_lossy(&down);
    assert!(text.contains("#b37b62"));
    assert!(text.contains("3d29a1a4-1c1e-4e4d-9b2f-000000000001"));
    assert!(text.contains("#ffa12722"));
    assert!(text.contains("persona_eyes"));
}

#[test]
fn arm_sizes_and_piece_types_map_both_ways() {
    assert_eq!(arm_size_to_v2168(&b"SLIM".to_vec()), 0);
    assert_eq!(arm_size_to_v2168(&b"wide".to_vec()), 1);
    assert_eq!(arm_size_to_v2168(&b"other".to_vec()), 1);
    assert_eq!(arm_size_to_v1001(0), b"slim".to_vec());
    assert_eq!(arm_size_to_v1001(7), b"wide".to_vec());
    assert_eq!(piece_type_to_v2168(b"persona_hands"), 9);
    assert_eq!(piece_type_to_v1001(28), b"persona_unsupported".to_vec());
    assert_eq!(piece_type_to_v1001(0), Vec::<u8>::new());
    assert_eq!(piece_type_to_v1001(29), Vec::<u8>::new());
}

#[test]
fn the_1001_to_2168_step_translates_player_lists() {
    let step = v1001_v2168::downgrade(0, Some(SubChunkShape::default_shape()), true);
    assert!(matches!(step.handler(Direction::Clientbound, packet_ids::PLAYER_LIST), Some(Handler::PlayerList(_))));
    assert!(!step.is_cancelled(Direction::Clientbound, packet_ids::PLAYER_LIST));
}

#[test]
fn a_v2168_list_goes_down_and_up_unchanged() {
    let v2168 = translate(&v1001_add(), true).expect("up");
    let v1001 = translate(&v2168, false).expect("down");
    assert_eq!(translate(&v1001, true).expect("up again"), v2168);
}

#[test]
fn every_piece_number_and_argb_colour_reads_back() {
    for v in 0u32..=30 {
        let expected = if (1..=28).contains(&v) { v } else { 0 };
        assert_eq!(piece_type_to_v2168(&piece_type_to_v1001(v)), expected);
    }
    for c in [0u32, 1, 0xff, 0x1234_5678, 0xffff_ffff] {
        assert_eq!(parse_hex_colour(&format_argb_colour(c)), c);
        assert_eq!(parse_hex_colour(&format_rgb_colour(c)), c - c % 256 + 255);
    }
    let id: Vec<u8> = (1u8..=16).collect();
    assert_eq!(parse_uuid(&format_uuid(&id)), id);
    assert_eq!(parse_uuid(&format_uuid(&[0u8; 16])), vec![0u8; 16]);
}
