use bedrock_protocol::codec::DecodeError;
use bedrock_protocol::direction::Direction;
use bedrock_protocol::packet_ids;
use bedrock_protocol::steps::{v1001_v2168, v860_v898, v924_v944, v944_v975, v975_v1001};
use bedrock_protocol::steps::v1001_v2168::{
    move_delta_actor, player_auth_input, read_bitset, write_bitset, FLAG_CLIENT_PREDICTED_VEHICLE,
    FLAG_PERFORM_BLOCK_ACTIONS, INPUT_FLAG_BITSET_SIZE_V1001, MOVE_DELTA_FORCE_MOVE, MOVE_DELTA_HAS_ROT_X,
    MOVE_DELTA_HAS_ROT_Y, MOVE_DELTA_HAS_ROT_Z, MOVE_DELTA_HAS_X, MOVE_DELTA_HAS_Y, MOVE_DELTA_HAS_Z,
    MOVE_DELTA_ON_GROUND,
};
use bedrock_protocol::steps::v975_v1001::{SUB_CHUNK_MODE_LIMITED, SUB_CHUNK_MODE_LIMITLESS};
use bedrock_protocol::wrapper::PacketWrapper;
use bedrock_protocol::steps::sub_chunk::{
    sub_chunk, sub_chunk_mode_label, sub_chunk_shape, SubChunkShape, HEIGHT_MAP_HAS_DATA, HEIGHT_MAP_LEN, HEIGHT_MAP_NONE,
    SUB_CHUNK_RESULT_LEVEL_CHUNK_DOESNT_EXIST, SUB_CHUNK_RESULT_SUCCESS_ALL_AIR,
};

fn uvarint(out: &mut Vec<u8>, mut v: u64) {
    loop {
        let b = (v & 0x7f) as u8;
        v >>= 7;
        if v == 0 {
            out.push(b);
            return;
        }
        out.push(b | 0x80);
    }
}

fn varint(out: &mut Vec<u8>, v: i32) {
    uvarint(out, ((v << 1) ^ (v >> 31)) as u32 as u64);
}

fn varint64(out: &mut Vec<u8>, v: i64) {
    uvarint(out, ((v << 1) ^ (v >> 63)) as u64);
}

fn string(out: &mut Vec<u8>, s: &str) {
    uvarint(out, s.len() as u64);
    out.extend_from_slice(s.as_bytes());
}

fn f32le(out: &mut Vec<u8>, v: f32) {
    out.extend_from_slice(&v.to_le_bytes());
}

fn run(h: impl Fn(&mut PacketWrapper) -> Result<(), DecodeError>, input: &[u8]) -> Vec<u8> {
    let mut w = PacketWrapper::new(input);
    h(&mut w).expect("handler failed");
    w.finish()
}

fn round_trip(v944: &[u8], f: fn(&mut PacketWrapper, bool) -> Result<(), DecodeError>) {
    let v975 = run(|w| f(w, true), v944);
    let back = run(|w| f(w, false), &v975);
    assert_eq!(back, v944, "round trip changed the packet");
}

#[test]
fn mob_effect_add_then_drop_is_the_identity() {
    let original = [0x01u8, 0x02, 0x04, 0x06, 0x01, 0x08, 0x0A];
    let widened = run(v860_v898::mob_effect_add_ambient, &original);
    assert_eq!(widened.len(), original.len() + 1);
    assert_eq!(*widened.last().unwrap(), 0);
    assert_eq!(run(v860_v898::mob_effect_drop_ambient, &widened), original.to_vec());
}

#[test]
fn interact_only_touches_open_inventory() {
    let original = [6u8, 0x2A];
    let widened = run(v860_v898::interact_add_position, &original);
    assert_eq!(widened.len(), original.len() + 12);
    assert_eq!(run(v860_v898::interact_drop_position, &widened), original.to_vec());

    let mut with_pos = vec![4u8, 0x2A];
    with_pos.extend_from_slice(&[0u8; 12]);
    assert_eq!(run(v860_v898::interact_add_position, &with_pos), with_pos);
    assert_eq!(run(v860_v898::interact_drop_position, &with_pos), with_pos);

    let plain = [0u8, 0x2A];
    assert_eq!(run(v860_v898::interact_add_position, &plain), plain.to_vec());
}

#[test]
fn animate_gains_and_loses_the_float() {
    let original = [0x02u8, 0x05];
    let widened = run(v860_v898::animate_add_data, &original);
    assert_eq!(widened.len(), original.len() + 4);
    assert_eq!(run(v860_v898::animate_drop_data, &widened), original.to_vec());
}

#[test]
fn telemetry_type_width_round_trips_including_negatives() {
    for raw in [0i8, 1, -1, 127, -128] {
        let original = [0x00u8, raw as u8];
        let widened = run(v860_v898::telemetry_widen_type, &original);
        assert_eq!(run(v860_v898::telemetry_narrow_type, &widened), original.to_vec());
    }
}

#[test]
fn both_directions_register_the_same_packets() {
    let down = v860_v898::downgrade();
    let up = v860_v898::upgrade();
    for id in [
        packet_ids::MOB_EFFECT,
        packet_ids::ANIMATE,
        packet_ids::LEVEL_SOUND_EVENT,
        packet_ids::ACTOR_EVENT,
    ] {
        assert!(down.touches(Direction::Clientbound, id));
        assert!(up.touches(Direction::Clientbound, id));
    }
}

#[test]
fn negative_y_survives_the_encoding_change() {
    let mut signed = Vec::new();
    varint(&mut signed, 10);
    varint(&mut signed, -64);
    varint(&mut signed, -3);
    let unsigned = run(v924_v944::pos_to_unsigned, &signed);
    assert_eq!(run(v924_v944::pos_to_signed, &unsigned), signed);
}

#[test]
fn note_instrument_shift_skips_non_note_events() {
    let mut input = Vec::new();
    varint(&mut input, 1);
    uvarint(&mut input, 2);
    varint(&mut input, 3);
    varint(&mut input, 2);
    varint(&mut input, 999);
    let out = run(|w| v924_v944::tile_event_remap(w, true), &input);
    let back = run(v924_v944::pos_to_unsigned, &out);
    assert_eq!(back, input);
}

#[test]
fn v944_v975_actor_event_round_trips() {
    let mut w = Vec::new();
    uvarint(&mut w, 9);
    w.push(3);
    varint(&mut w, -4);
    round_trip(&w, v944_v975::actor_event);
}

#[test]
fn v944_v975_party_changed_round_trips_with_and_without_the_optional() {
    round_trip(&[0u8], v944_v975::party_changed);
    let mut present = vec![1u8];
    string(&mut present, "abc");
    round_trip(&present, v944_v975::party_changed);
}

#[test]
fn v944_v975_update_client_options_round_trips() {
    round_trip(&[0u8], v944_v975::update_client_options);
    round_trip(&[1u8, 2], v944_v975::update_client_options);
}

#[test]
fn v944_v975_movement_prediction_sync_moves_exactly_three_floats() {
    let mut v944 = vec![0x00u8];
    for i in 0..9 {
        f32le(&mut v944, i as f32);
    }
    varint64(&mut v944, 123);
    v944.push(1);
    let v975 = run(|w| v944_v975::client_movement_prediction_sync(w, true), &v944);
    assert_eq!(v975.len(), v944.len() + 12);
    let back = run(|w| v944_v975::client_movement_prediction_sync(w, false), &v975);
    assert_eq!(back, v944);
}

#[test]
fn v944_v975_level_sound_event_shifts_the_id_back_and_forth() {
    let mut w = Vec::new();
    uvarint(&mut w, 700);
    for v in [1.0f32, 2.0, 3.0] {
        f32le(&mut w, v);
    }
    varint(&mut w, 0);
    string(&mut w, "pig");
    w.push(0);
    w.push(0);
    w.extend_from_slice(&(-1i64).to_le_bytes());
    round_trip(&w, v944_v975::level_sound_event);
}

#[test]
fn v944_v975_debug_drawer_and_diagnostics_are_cancelled_in_both_steps() {
    for step in [v944_v975::downgrade(), v944_v975::upgrade()] {
        assert!(step.is_cancelled(Direction::Clientbound, packet_ids::SERVER_SCRIPT_DEBUG_DRAWER));
        assert!(step.is_cancelled(Direction::Serverbound, packet_ids::SERVERBOUND_DIAGNOSTICS));
    }
}

#[test]
fn v944_v975_step_endpoints_are_the_documented_pair() {
    let d = v944_v975::downgrade();
    assert_eq!((d.server_protocol, d.client_protocol), (944, 975));
    let u = v944_v975::upgrade();
    assert_eq!((u.server_protocol, u.client_protocol), (975, 944));
}

fn limited_chunk(tail: &[u8]) -> Vec<u8> {
    let mut w = Vec::new();
    varint(&mut w, -3);
    varint(&mut w, 0);
    varint(&mut w, 1000);
    uvarint(&mut w, v975_v1001::SUB_CHUNK_MODE_LIMITED as u64);
    w.extend_from_slice(&36u16.to_le_bytes());
    w.extend_from_slice(tail);
    w
}

#[test]
fn v975_v1001_level_chunk_drops_the_highest_sub_chunk_cap() {
    let input = limited_chunk(&[0, 3, 1, 2, 1]);
    let out = run(|w| v975_v1001::level_chunk(w, true), &input);
    assert_eq!(out.len(), input.len() - 2);
    let mut expected = Vec::new();
    varint(&mut expected, -3);
    varint(&mut expected, 0);
    varint(&mut expected, 1000);
    uvarint(&mut expected, v975_v1001::SUB_CHUNK_MODE_LIMITLESS as u64);
    expected.extend_from_slice(&[0, 3, 1, 2, 1]);
    assert_eq!(out, expected);
}

#[test]
fn v975_v1001_level_chunk_leaves_limitless_and_plain_counts_alone() {
    for count in [v975_v1001::SUB_CHUNK_MODE_LIMITLESS, 0, 7] {
        let mut input = Vec::new();
        varint(&mut input, 1);
        varint(&mut input, 2);
        varint(&mut input, 0);
        uvarint(&mut input, count as u64);
        input.push(1);
        input.extend_from_slice(&[0xAB, 0xCD]);
        assert_eq!(run(|w| v975_v1001::level_chunk(w, true), &input), input, "count {count} was rewritten");
    }
}

#[test]
fn v975_v1001_level_chunk_keeps_the_cap_when_the_client_is_the_older_one() {
    let input = limited_chunk(&[0, 0]);
    assert_eq!(run(|w| v975_v1001::level_chunk(w, false), &input), input);
}

#[test]
fn v975_v1001_step_endpoints_are_the_documented_pair() {
    let d = v975_v1001::downgrade(true);
    assert_eq!((d.server_protocol, d.client_protocol), (975, 1001));
    let u = v975_v1001::upgrade(true);
    assert_eq!((u.server_protocol, u.client_protocol), (1001, 975));
}

#[test]
fn v975_v1001_the_blob_cache_is_on_unless_asked_otherwise() {
    assert!(!v975_v1001::downgrade(true).touches(Direction::Serverbound, packet_ids::CLIENT_CACHE_STATUS));
    assert!(v975_v1001::downgrade(false).touches(Direction::Serverbound, packet_ids::CLIENT_CACHE_STATUS));
}

#[test]
fn v975_v1001_diagnostics_is_rewritten_not_dropped_and_debug_drawer_passes_through() {
    let down = v975_v1001::downgrade(true);
    assert!(down.handler(Direction::Serverbound, packet_ids::SERVERBOUND_DIAGNOSTICS).is_some());
    assert!(!down.is_cancelled(Direction::Serverbound, packet_ids::SERVERBOUND_DIAGNOSTICS));
    assert!(!down.is_cancelled(Direction::Clientbound, packet_ids::SERVER_SCRIPT_DEBUG_DRAWER));
    assert!(!down.is_cancelled(Direction::Serverbound, packet_ids::SERVER_SCRIPT_DEBUG_DRAWER));
    let up = v975_v1001::upgrade(true);
    assert!(!up.is_cancelled(Direction::Serverbound, packet_ids::SERVERBOUND_DIAGNOSTICS));
    assert!(!up.is_cancelled(Direction::Clientbound, packet_ids::SERVER_SCRIPT_DEBUG_DRAWER));
}

fn biome_definition(w: &mut Vec<u8>, tags: &[u16], chunk_generation: bool) {
    w.extend_from_slice(&3i16.to_le_bytes());
    w.extend_from_slice(&21i16.to_le_bytes());
    for v in [0.8f32, 0.4, 0.0, 0.125, 0.05] {
        f32le(w, v);
    }
    w.extend_from_slice(&(-0x0033_2211i32).to_le_bytes());
    w.push(1);
    w.push(1);
    uvarint(w, tags.len() as u64);
    for t in tags {
        w.extend_from_slice(&t.to_le_bytes());
    }
    w.push(chunk_generation as u8);
}

#[test]
fn v975_v1001_biome_definition_list_passes_through_when_chunk_generation_is_absent() {
    let mut w = Vec::new();
    uvarint(&mut w, 2);
    biome_definition(&mut w, &[1, 2, 3], false);
    biome_definition(&mut w, &[], false);
    uvarint(&mut w, 2);
    string(&mut w, "minecraft:plains");
    string(&mut w, "minecraft:river");
    let out = run(v975_v1001::biome_definition_list, &w);
    assert_eq!(out, w, "the two versions are byte-identical when ChunkGeneration is absent");
}

#[test]
fn v975_v1001_biome_definition_list_refuses_rather_than_corrupting_chunk_generation() {
    let mut w = Vec::new();
    uvarint(&mut w, 1);
    biome_definition(&mut w, &[7], true);
    w.extend_from_slice(&[0u8; 32]);
    let mut wrapper = PacketWrapper::new(&w);
    assert!(v975_v1001::biome_definition_list(&mut wrapper).is_err());
}

#[test]
fn boss_event_round_trips_every_kind_through_v1001() {
    for event in 0u32..=9 {
        let mut v975 = Vec::new();
        varint64(&mut v975, -12);
        uvarint(&mut v975, event as u64);
        match event {
            0 => {
                string(&mut v975, "Wither");
                string(&mut v975, "W");
                f32le(&mut v975, 0.5);
                v975.extend_from_slice(&[0, 0]);
                uvarint(&mut v975, 6);
                uvarint(&mut v975, 3);
            }
            1 | 3 | 8 => varint64(&mut v975, 99),
            4 => f32le(&mut v975, 0.25),
            5 => {
                string(&mut v975, "Dragon");
                string(&mut v975, "");
            }
            6 => {
                v975.extend_from_slice(&[0, 0]);
                uvarint(&mut v975, 4);
                uvarint(&mut v975, 1);
            }
            7 => {
                uvarint(&mut v975, 2);
                uvarint(&mut v975, 0);
            }
            _ => {}
        }
        let v1001 = run(|w| v975_v1001::boss_event(w, true), &v975);
        let back = run(|w| v975_v1001::boss_event(w, false), &v1001);
        assert_eq!(back, v975, "event {event}");
    }
}

#[test]
fn boss_event_colour_six_becomes_seven() {
    let mut v975 = Vec::new();
    varint64(&mut v975, 1);
    uvarint(&mut v975, 7);
    uvarint(&mut v975, 6);
    uvarint(&mut v975, 300);
    let v1001 = run(|w| v975_v1001::boss_event(w, true), &v975);
    let mut expected = Vec::new();
    varint64(&mut expected, 1);
    varint64(&mut expected, 0);
    expected.push(7);
    string(&mut expected, "");
    string(&mut expected, "");
    f32le(&mut expected, 0.0);
    expected.push(7);
    expected.push((300u32 & 0xff) as u8);
    assert_eq!(v1001, expected);
}

#[test]
fn boss_event_with_bytes_left_over_is_refused() {
    let mut v975 = Vec::new();
    varint64(&mut v975, 1);
    uvarint(&mut v975, 2);
    v975.push(0xFF);
    let mut w = PacketWrapper::new(&v975);
    assert!(v975_v1001::boss_event(&mut w, true).is_err());
}

#[test]
fn sub_chunk_request_round_trips_and_moves_the_centre() {
    let mut v975 = Vec::new();
    varint(&mut v975, 1);
    varint(&mut v975, -5);
    varint(&mut v975, 3);
    varint(&mut v975, 200);
    v975.extend_from_slice(&2u32.to_le_bytes());
    v975.extend_from_slice(&[1, 2, 3, 4, 5, 6]);
    v975.extend_from_slice(&[9, 9]);
    let v1001 = run(|w| v975_v1001::sub_chunk_request(w, true), &v975);
    let mut expected = Vec::new();
    varint(&mut expected, 1);
    uvarint(&mut expected, 2);
    expected.extend_from_slice(&[1, 2, 3, 4, 5, 6]);
    expected.extend_from_slice(&(-5i32).to_le_bytes());
    expected.extend_from_slice(&3i32.to_le_bytes());
    expected.extend_from_slice(&200i32.to_le_bytes());
    expected.extend_from_slice(&[9, 9]);
    assert_eq!(v1001, expected);
    assert_eq!(run(|w| v975_v1001::sub_chunk_request(w, false), &v1001), v975);
}

#[test]
fn blob_status_round_trips_and_regroups_the_hashes() {
    let mut v975 = Vec::new();
    uvarint(&mut v975, 1);
    uvarint(&mut v975, 2);
    v975.extend_from_slice(&[1u8; 8]);
    v975.extend_from_slice(&[2u8; 16]);
    let v1001 = run(|w| v975_v1001::client_cache_blob_status(w, true), &v975);
    let mut expected = Vec::new();
    uvarint(&mut expected, 1);
    expected.extend_from_slice(&[1u8; 8]);
    uvarint(&mut expected, 2);
    expected.extend_from_slice(&[2u8; 16]);
    assert_eq!(v1001, expected);
    assert_eq!(run(|w| v975_v1001::client_cache_blob_status(w, false), &v1001), v975);
}

#[test]
fn client_cache_status_is_turned_off() {
    assert_eq!(run(v975_v1001::client_cache_status, &[1]), vec![0]);
}

#[test]
fn v1001_v2168_move_delta_up_then_down_is_the_identity() {
    for flags in [
        0u16,
        MOVE_DELTA_HAS_X | MOVE_DELTA_HAS_Z,
        MOVE_DELTA_HAS_X | MOVE_DELTA_HAS_Y | MOVE_DELTA_HAS_Z | MOVE_DELTA_ON_GROUND,
        MOVE_DELTA_HAS_ROT_Y | MOVE_DELTA_FORCE_MOVE,
    ] {
        let mut original = Vec::new();
        uvarint(&mut original, 42);
        original.extend_from_slice(&flags.to_le_bytes());
        for bit in [MOVE_DELTA_HAS_X, MOVE_DELTA_HAS_Y, MOVE_DELTA_HAS_Z] {
            if flags & bit != 0 {
                f32le(&mut original, 3.5);
            }
        }
        for bit in [MOVE_DELTA_HAS_ROT_X, MOVE_DELTA_HAS_ROT_Y, MOVE_DELTA_HAS_ROT_Z] {
            if flags & bit != 0 {
                original.push(200);
            }
        }
        let widened = run(|w| move_delta_actor(w, true), &original);
        let back = run(|w| move_delta_actor(w, false), &widened);
        assert_eq!(back, original, "round trip failed for flags {flags:#x}");
    }
}

#[test]
fn v1001_v2168_bitset_and_flag_list_round_trip() {
    for set in [vec![], vec![0u32], vec![6, 7], vec![0, 34, 64], vec![1, 2, 3, 45]] {
        let mut w = PacketWrapper::new(&[]);
        write_bitset(&mut w, &set, INPUT_FLAG_BITSET_SIZE_V1001);
        let bytes = w.finish();
        let mut w = PacketWrapper::new(&bytes);
        let decoded = read_bitset(&mut w, INPUT_FLAG_BITSET_SIZE_V1001).unwrap();
        assert_eq!(decoded, set, "bitset round trip failed for {set:?}");
    }
}

#[test]
fn v1001_v2168_bitset_rejects_a_flag_past_the_end() {
    let body = [0xFF, 0xFF, 0xFF, 0xFF, 0xFF, 0xFF, 0xFF, 0xFF, 0xFF, 0x7F];
    let mut w = PacketWrapper::new(&body);
    assert!(read_bitset(&mut w, INPUT_FLAG_BITSET_SIZE_V1001).is_err());
}

fn auth_input_v1001(flags: &[u32]) -> Vec<u8> {
    let mut w = PacketWrapper::new(&[]);
    let mut head = Vec::new();
    for _ in 0..2 {
        f32le(&mut head, 1.5);
    }
    for v in [1.0f32, 2.0, 3.0, 0.5, 0.25, 0.75] {
        f32le(&mut head, v);
    }
    w.write_bytes(&head);
    write_bitset(&mut w, &flags.to_vec(), INPUT_FLAG_BITSET_SIZE_V1001);
    let mut tail = Vec::new();
    uvarint(&mut tail, 1);
    uvarint(&mut tail, 0);
    uvarint(&mut tail, 2);
    f32le(&mut tail, 0.0);
    f32le(&mut tail, 0.0);
    uvarint(&mut tail, 1234);
    for _ in 0..3 {
        f32le(&mut tail, 0.0);
    }
    if flags.contains(&FLAG_CLIENT_PREDICTED_VEHICLE) {
        f32le(&mut tail, 9.0);
        f32le(&mut tail, 8.0);
        varint64(&mut tail, -77);
    }
    for _ in 0..7 {
        f32le(&mut tail, 0.0);
    }
    w.write_bytes(&tail);
    w.finish()
}

#[test]
fn v1001_v2168_auth_input_up_then_down_is_the_identity() {
    for flags in [vec![], vec![0u32, 12], vec![FLAG_CLIENT_PREDICTED_VEHICLE]] {
        let original = auth_input_v1001(&flags);
        let widened = run(|w| player_auth_input(w, true), &original);
        let back = run(|w| player_auth_input(w, false), &widened);
        assert_eq!(back, original, "round trip failed for flags {flags:?}");
    }
}

fn v2168_auth_input(flags: &[u32], block_actions: &[(i32, (i32, i32, i32), i32)], stack_request: bool) -> Vec<u8> {
    let mut w = Vec::new();
    f32le(&mut w, 1.0);
    f32le(&mut w, 2.0);
    for v in [3.0f32, 4.0, 5.0, 0.0, 0.0, 6.0] {
        f32le(&mut w, v);
    }
    w.push(1);
    uvarint(&mut w, flags.len() as u64);
    for f in flags {
        varint(&mut w, *f as i32);
    }
    uvarint(&mut w, 1);
    uvarint(&mut w, 0);
    varint(&mut w, 0);
    f32le(&mut w, 7.0);
    f32le(&mut w, 8.0);
    uvarint(&mut w, 1234);
    for _ in 0..3 {
        f32le(&mut w, 0.0);
    }
    w.push(0);
    if stack_request {
        w.push(1);
        w.push(1);
        uvarint(&mut w, 0);
    } else {
        w.push(0);
    }
    if block_actions.is_empty() {
        w.push(0);
    } else {
        w.push(1);
        w.push(1);
        uvarint(&mut w, block_actions.len() as u64);
        for (action, pos, face) in block_actions {
            varint(&mut w, *action);
            varint(&mut w, pos.0);
            varint(&mut w, pos.1);
            varint(&mut w, pos.2);
            varint(&mut w, *face);
        }
    }
    w.push(0);
    w.push(0);
    w.extend_from_slice(&[0xAA, 0xBB]);
    w
}

#[test]
fn v1001_v2168_block_actions_reach_the_server_and_set_their_own_flag() {
    let input = v2168_auth_input(&[], &[(0, (10, 64, -3), 1), (8, (0, 0, 0), 0)], false);
    let out = run(|w| player_auth_input(w, false), &input);
    let mut expected = Vec::new();
    f32le(&mut expected, 1.0);
    f32le(&mut expected, 2.0);
    for v in [3.0f32, 4.0, 5.0, 0.0, 0.0, 6.0] {
        f32le(&mut expected, v);
    }
    let mut bits = PacketWrapper::new(&[]);
    write_bitset(&mut bits, &vec![FLAG_PERFORM_BLOCK_ACTIONS], INPUT_FLAG_BITSET_SIZE_V1001);
    expected.extend_from_slice(&bits.finish());
    uvarint(&mut expected, 1);
    uvarint(&mut expected, 0);
    uvarint(&mut expected, 0);
    f32le(&mut expected, 7.0);
    f32le(&mut expected, 8.0);
    uvarint(&mut expected, 1234);
    for _ in 0..3 {
        f32le(&mut expected, 0.0);
    }
    varint(&mut expected, 2);
    varint(&mut expected, 0);
    varint(&mut expected, 10);
    varint(&mut expected, 64);
    varint(&mut expected, -3);
    varint(&mut expected, 1);
    varint(&mut expected, 8);
    expected.extend_from_slice(&[0xAA, 0xBB]);
    assert_eq!(out, expected);
}

#[test]
fn v1001_v2168_a_flag_without_its_payload_is_cleared() {
    let input = v2168_auth_input(&[FLAG_PERFORM_BLOCK_ACTIONS], &[], false);
    let out = run(|w| player_auth_input(w, false), &input);
    assert_eq!(out[32], 0, "no flags, one empty bitset group");
    assert_eq!(out[33], 1);
}

#[test]
fn v1001_v2168_a_tick_carrying_an_item_stack_request_is_dropped() {
    let input = v2168_auth_input(&[], &[], true);
    let mut wrapper = PacketWrapper::new(&input);
    v1001_v2168::player_auth_input(&mut wrapper, false).expect("handler failed");
    assert!(wrapper.is_cancelled());
}

#[test]
fn v1001_v2168_full_chunk_data_round_trips_each_request_mode() {
    for count in [3u32, SUB_CHUNK_MODE_LIMITED, SUB_CHUNK_MODE_LIMITLESS] {
        for cache in [false, true] {
            let mut original = Vec::new();
            varint(&mut original, 4);
            varint(&mut original, -9);
            varint(&mut original, 0);
            uvarint(&mut original, count as u64);
            if count == SUB_CHUNK_MODE_LIMITED {
                original.extend_from_slice(&7u16.to_le_bytes());
            }
            original.push(cache as u8);
            if cache {
                uvarint(&mut original, 2);
                original.extend_from_slice(&11u64.to_le_bytes());
                original.extend_from_slice(&22u64.to_le_bytes());
            }
            uvarint(&mut original, 3);
            original.extend_from_slice(&[1, 2, 3]);
            let widened = run(|w| v1001_v2168::full_chunk_data(w, true), &original);
            let back = run(|w| v1001_v2168::full_chunk_data(w, false), &widened);
            assert_eq!(back, original, "count {count:#x} cache {cache}");
        }
    }
}

#[test]
fn v1001_v2168_dimension_data_gains_and_loses_the_pack_id() {
    let mut original = Vec::new();
    uvarint(&mut original, 1);
    string(&mut original, "overworld");
    for v in [320i32, -64, 0, 0] {
        varint(&mut original, v);
    }
    let widened = run(|w| v1001_v2168::dimension_data(w, true), &original);
    assert_eq!(widened.len(), original.len() + 16);
    let back = run(|w| v1001_v2168::dimension_data(w, false), &widened);
    assert_eq!(back, original);
}

#[test]
fn v1001_v2168_play_sound_never_asks_the_client_to_repeat_forever() {
    let mut v1001 = Vec::new();
    string(&mut v1001, "mob.pig.say");
    varint(&mut v1001, 64);
    varint(&mut v1001, 72);
    varint(&mut v1001, -16);
    f32le(&mut v1001, 1.0);
    f32le(&mut v1001, 1.0);
    v1001.push(0);
    let v2168 = run(|w| v1001_v2168::play_sound(w, true, 0), &v1001);
    let head = v1001.len() - 1;
    assert_eq!(&v2168[..head], &v1001[..head]);
    assert_eq!(v2168[head], 0, "LoopCount is zero, never the loop-forever sentinel");
    assert_eq!(&v2168[head + 1..], &v1001[head..]);
}

#[test]
fn v1001_v2168_step_endpoints_are_the_documented_pair() {
    assert_eq!(v1001_v2168::downgrade(0, Some(SubChunkShape::default_shape()), true).server_protocol, 1001);
    assert_eq!(v1001_v2168::downgrade(0, Some(SubChunkShape::default_shape()), true).client_protocol, 2168);
    assert_eq!(v1001_v2168::upgrade(0, Some(SubChunkShape::default_shape()), true).server_protocol, 2168);
    assert_eq!(v1001_v2168::upgrade(0, Some(SubChunkShape::default_shape()), true).client_protocol, 1001);
}

#[test]
fn move_player_teleport_cause_gains_and_loses_its_flag() {
    for mode in [0u8, 2] {
        let mut v1001 = Vec::new();
        uvarint(&mut v1001, 5);
        for _ in 0..6 {
            f32le(&mut v1001, 1.0);
        }
        v1001.push(mode);
        v1001.push(1);
        uvarint(&mut v1001, 0);
        if mode == 2 {
            v1001.extend_from_slice(&3i32.to_le_bytes());
            v1001.extend_from_slice(&4i32.to_le_bytes());
        }
        v1001.extend_from_slice(&[7, 7]);
        let v2168 = run(|w| v1001_v2168::move_player(w, true), &v1001);
        assert_eq!(v2168.len(), v1001.len() + 1);
        assert_eq!(run(|w| v1001_v2168::move_player(w, false), &v2168), v1001);
    }
}

#[test]
fn transfer_and_anvil_damage_round_trip() {
    let mut t = Vec::new();
    string(&mut t, "example.org");
    t.extend_from_slice(&19132u16.to_le_bytes());
    t.push(0);
    let up = run(|w| v1001_v2168::transfer(w, true), &t);
    assert_eq!(up.len(), t.len() + 1);
    assert_eq!(run(|w| v1001_v2168::transfer(w, false), &up), t);

    let a = [5u8, 1, 2];
    let down = run(|w| v1001_v2168::anvil_damage(w, true), &a);
    assert_eq!(down, vec![1, 2]);
    assert_eq!(run(|w| v1001_v2168::anvil_damage(w, false), &down), vec![0, 1, 2]);
}

fn uuid(out: &mut Vec<u8>, msb: u64, lsb: u64) {
    out.extend_from_slice(&msb.to_le_bytes());
    out.extend_from_slice(&lsb.to_le_bytes());
}

fn join_info_v1001() -> Vec<u8> {
    let mut w = vec![1u8, 1];
    uuid(&mut w, 1, 2);
    string(&mut w, "experience");
    uuid(&mut w, 3, 4);
    string(&mut w, "world");
    string(&mut w, "creator");
    uuid(&mut w, 5, 6);
    string(&mut w, "scenario");
    string(&mut w, "server");
    w.push(1);
    string(&mut w, "store");
    string(&mut w, "store name");
    w.push(1);
    w.push(0);
    w.push(0);
    string(&mut w, "rich");
    w
}

#[test]
fn v1001_v2168_join_info_up_then_down_is_the_identity() {
    let original = join_info_v1001();
    let widened = run(|w| v1001_v2168::server_join_information(w, true), &original);
    assert_ne!(widened, original, "the optionals must change the encoding");
    let back = run(|w| v1001_v2168::server_join_information(w, false), &widened);
    assert_eq!(back, original);
}

#[test]
fn v1001_v2168_an_absent_join_info_leaves_the_trailing_ids_alone() {
    let ids: [u8; 4] = [0, 0, 0, 0];
    for inner in [vec![0u8], vec![1u8, 0, 0, 0]] {
        let mut original = inner.clone();
        original.extend_from_slice(&ids);
        for to_v2168 in [true, false] {
            let out = run(|w| v1001_v2168::server_join_information(w, to_v2168), &original);
            assert_eq!(out, original, "absent join info must be byte-identical in both directions");
        }
        let out = run(|w| v1001_v2168::server_join_information(w, true), &original);
        assert_eq!(out.len(), inner.len() + ids.len(), "handler must not consume the trailing IDs");
    }
}

#[test]
fn v1001_v2168_pack_response_round_trips_and_shifts_the_enum() {
    let mut original = vec![2u8];
    original.extend_from_slice(&2u16.to_le_bytes());
    string(&mut original, "a_1.0.0");
    string(&mut original, "b_2.0.0");
    let widened = run(|w| v1001_v2168::resource_pack_client_response(w, true), &original);
    assert_eq!(widened[0], 1, "v2168 numbering is one lower");
    let back = run(|w| v1001_v2168::resource_pack_client_response(w, false), &widened);
    assert_eq!(back, original);
}

#[test]
fn v1001_v2168_pack_response_without_packs_still_round_trips() {
    let mut original = vec![4u8];
    original.extend_from_slice(&0u16.to_le_bytes());
    let widened = run(|w| v1001_v2168::resource_pack_client_response(w, true), &original);
    let mut expected = vec![3u8];
    string(&mut expected, "resourcepackstackfinished");
    assert_eq!(widened, expected);
    let back = run(|w| v1001_v2168::resource_pack_client_response(w, false), &widened);
    assert_eq!(back, original);
}

#[test]
fn v1001_v2168_pack_response_rejects_an_out_of_range_value() {
    let body = [0u8, 0, 0];
    let mut w = PacketWrapper::new(&body);
    assert!(v1001_v2168::resource_pack_client_response(&mut w, true).is_err());
}

#[test]
fn resource_packs_info_count_changes_width() {
    let mut v1001 = vec![0u8, 1, 0, 1];
    uuid(&mut v1001, 7, 8);
    string(&mut v1001, "1.0");
    v1001.extend_from_slice(&300u16.to_le_bytes());
    v1001.push(0xEE);
    let v2168 = run(|w| v1001_v2168::resource_packs_info(w, true), &v1001);
    assert_eq!(v2168.len(), v1001.len());
    assert_eq!(run(|w| v1001_v2168::resource_packs_info(w, false), &v2168), v1001);
}

#[test]
fn structure_block_update_save_mode_changes_encoding_both_ways() {
    assert!(!v1001_v2168::downgrade(0, Some(SubChunkShape::default_shape()), true).is_cancelled(Direction::Serverbound, packet_ids::STRUCTURE_BLOCK_UPDATE));
    let v2168 = vec![0x11u8, 0x22, 0x33, 0x44, 1, 1, 0];
    let mut w = PacketWrapper::new(&v2168);
    v1001_v2168::structure_block_update(&mut w, false, &mut Vec::new()).expect("handler failed");
    assert!(!w.is_cancelled());
    let v1001 = w.finish();
    assert_eq!(v1001, vec![0x11, 0x22, 0x33, 0x44, 0x02, 0x01, 0x00]);
    assert_eq!(run(|w| v1001_v2168::structure_block_update(w, true, &mut Vec::new()), &v1001), v2168);
}

#[test]
fn structure_block_update_keeps_every_length() {
    for save_mode in 0..=v1001_v2168::STRUCTURE_REDSTONE_SAVE_MODE_MAX {
        for trigger in [false, true] {
            for waterlogged in [false, true] {
                let mut v2168 = vec![0xAAu8; 20];
                v2168.push(save_mode);
                v2168.push(trigger as u8);
                v2168.push(waterlogged as u8);
                let v1001 = run(|w| v1001_v2168::structure_block_update(w, false, &mut Vec::new()), &v2168);
                assert_eq!(v1001.len(), v2168.len(), "save mode {save_mode}");
                assert_eq!(&v1001[..20], &v2168[..20], "the head must be untouched");
                assert_eq!(run(|w| v1001_v2168::structure_block_update(w, true, &mut Vec::new()), &v1001), v2168);
            }
        }
    }
}

#[test]
fn structure_block_update_with_a_strange_tail_is_cancelled() {
    let cases: [(&[u8], bool); 4] = [
        (&[0x11, 0x22, 0x07, 0x05, 0x00], false),
        (&[0x11, 0x22, 0x09, 0x00, 0x00], false),
        (&[0x11, 0x22, 0x01, 0x00, 0x00], true),
        (&[0x00, 0x01], false),
    ];
    for (body, to_v2168) in cases {
        let mut notes = Vec::new();
        let mut w = PacketWrapper::new(body);
        v1001_v2168::structure_block_update(&mut w, to_v2168, &mut notes).expect("handler failed");
        assert!(w.is_cancelled(), "a tail this shape must fall back to dropping: {body:02x?}");
        assert_eq!(notes.len(), 1);
    }
}

#[test]
fn a_strange_structure_block_tail_leaves_its_length_and_last_bytes() {
    let mut notes = Vec::new();
    let mut w = PacketWrapper::new(&[0x11, 0x22, 0x07, 0x05, 0x00]);
    v1001_v2168::structure_block_update(&mut w, false, &mut notes).expect("handler failed");
    assert_eq!(
        notes,
        vec![
            "StructureBlockUpdate tail is not the expected [RedstoneSaveMode][ShouldTrigger][Waterlogged]; \
             dropping it (5 B, last three bytes [07, 05, 00])"
                .to_string()
        ]
    );
    let mut short = Vec::new();
    let mut w = PacketWrapper::new(&[0x00, 0x01]);
    v1001_v2168::structure_block_update(&mut w, false, &mut short).expect("handler failed");
    assert_eq!(short[0], "StructureBlockUpdate tail is not the expected [RedstoneSaveMode][ShouldTrigger][Waterlogged]; dropping it (2 B, last three bytes [00, 01])");
    let mut none = Vec::new();
    let mut w = PacketWrapper::new(&[0x11, 0x22, 0x33, 0x44, 1, 1, 0]);
    v1001_v2168::structure_block_update(&mut w, false, &mut none).expect("handler failed");
    assert!(none.is_empty());
}

#[test]
fn v1001_v2168_play_sound_round_trips_with_any_loop_count() {
    let mut v1001 = Vec::new();
    string(&mut v1001, "random.click");
    varint(&mut v1001, 8);
    varint(&mut v1001, -8);
    varint(&mut v1001, 300);
    f32le(&mut v1001, 0.5);
    f32le(&mut v1001, 2.0);
    v1001.extend_from_slice(&[9, 9]);
    let v2168 = run(|w| v1001_v2168::play_sound(w, true, 3), &v1001);
    let head = v1001.len() - 2;
    assert_eq!(v2168[head], 6, "a loop count of three is written as a zig-zag integer");
    assert_eq!(run(|w| v1001_v2168::play_sound(w, false, 3), &v2168), v1001);
}

#[test]
fn v1001_v2168_serverbound_diagnostics_gains_an_empty_list_and_loses_it() {
    let mut v1001 = vec![0u8; 36];
    uvarint(&mut v1001, 1);
    v1001.push(3);
    v1001.extend_from_slice(&[1, 2, 3, 4, 5, 6, 7, 8]);
    uvarint(&mut v1001, 0);
    uvarint(&mut v1001, 1);
    string(&mut v1001, "tick");
    v1001.extend_from_slice(&[0; 16]);
    v1001.push(1);
    let v2168 = run(|w| v1001_v2168::serverbound_diagnostics(w, true), &v1001);
    let mut expected = v1001.clone();
    expected.push(0);
    assert_eq!(v2168, expected);
    assert_eq!(run(|w| v1001_v2168::serverbound_diagnostics(w, false), &v2168), v1001);
}

#[test]
fn v1001_v2168_join_info_down_then_up_is_the_identity_when_every_optional_is_present() {
    let original = join_info_v1001();
    let widened = run(|w| v1001_v2168::server_join_information(w, true), &original);
    let narrowed = run(|w| v1001_v2168::server_join_information(w, false), &widened);
    let again = run(|w| v1001_v2168::server_join_information(w, true), &narrowed);
    assert_eq!(again, widened);
}

#[test]
fn v1001_v2168_auth_input_down_then_up_is_the_identity() {
    for flags in [vec![], vec![3u32, 64], vec![FLAG_CLIENT_PREDICTED_VEHICLE]] {
        let v1001 = auth_input_v1001(&flags);
        let v2168 = run(|w| player_auth_input(w, true), &v1001);
        let narrowed = run(|w| player_auth_input(w, false), &v2168);
        let again = run(|w| player_auth_input(w, true), &narrowed);
        assert_eq!(again, v2168, "round trip failed for flags {flags:?}");
    }
}

#[test]
fn v1001_v2168_resource_packs_info_round_trips_in_both_directions() {
    let mut v1001 = vec![1u8, 0, 1, 0];
    v1001.extend_from_slice(&[7u8; 16]);
    string(&mut v1001, "1.0.0");
    v1001.extend_from_slice(&300u16.to_le_bytes());
    v1001.push(42);
    let v2168 = run(|w| v1001_v2168::resource_packs_info(w, true), &v1001);
    assert_eq!(run(|w| v1001_v2168::resource_packs_info(w, false), &v2168), v1001);
    assert_eq!(run(|w| v1001_v2168::resource_packs_info(w, true), &v1001), v2168);
}

#[test]
fn v975_v1001_level_chunk_limited_count_becomes_limitless_toward_1001() {
    let mut v975 = Vec::new();
    varint(&mut v975, 1);
    varint(&mut v975, 2);
    varint(&mut v975, 0);
    uvarint(&mut v975, SUB_CHUNK_MODE_LIMITED as u64);
    v975.extend_from_slice(&12u16.to_le_bytes());
    v975.push(5);
    let v1001 = run(|w| v975_v1001::level_chunk(w, true), &v975);
    let mut expected = Vec::new();
    varint(&mut expected, 1);
    varint(&mut expected, 2);
    varint(&mut expected, 0);
    uvarint(&mut expected, SUB_CHUNK_MODE_LIMITLESS as u64);
    expected.push(5);
    assert_eq!(v1001, expected);
    assert_eq!(run(|w| v975_v1001::level_chunk(w, false), &v1001), v1001);
}

fn v1001_entry(w: &mut Vec<u8>, result: u8, payload: &[u8], height_map: bool) {
    w.push(0);
    w.push(1);
    w.push(0xFF);
    w.push(result);
    if result != SUB_CHUNK_RESULT_SUCCESS_ALL_AIR {
        uvarint(w, payload.len() as u64);
        w.extend_from_slice(payload);
    }
    if height_map {
        w.push(HEIGHT_MAP_HAS_DATA);
        w.extend_from_slice(&[3u8; HEIGHT_MAP_LEN]);
    } else {
        w.push(0);
    }
    w.push(0);
    w.extend_from_slice(&0xDEAD_BEEF_CAFE_F00Du64.to_le_bytes());
}

fn v1001_sub_chunk(entries: &[(u8, Vec<u8>, bool)]) -> Vec<u8> {
    let mut w = vec![1u8];
    varint(&mut w, 1000);
    varint(&mut w, -5);
    varint(&mut w, 2);
    varint(&mut w, -4);
    w.extend_from_slice(&(entries.len() as u32).to_le_bytes());
    for (result, payload, height_map) in entries {
        v1001_entry(&mut w, *result, payload, *height_map);
    }
    w
}

#[test]
fn v1001_v2168_sub_chunk_round_trips_a_mixed_entry_list() {
    let original = v1001_sub_chunk(&[
        (1, vec![9; 40], true),
        (SUB_CHUNK_RESULT_SUCCESS_ALL_AIR, vec![], false),
        (1, vec![7; 12], false),
    ]);

    let widened = run(|w| sub_chunk(w, true, SubChunkShape::documented()), &original);
    let back = run(|w| sub_chunk(w, false, SubChunkShape::documented()), &widened);
    assert_eq!(back, original);
}

#[test]
fn v1001_v2168_sub_chunk_position_widens_and_the_count_narrows() {
    let original = v1001_sub_chunk(&[(1, vec![1, 2, 3], false)]);
    let widened = run(|w| sub_chunk(w, true, SubChunkShape::documented()), &original);

    assert_eq!(widened.len(), original.len() + 9 - 3 + 4);

    assert_eq!(
        &widened[3..15],
        &[0xFB, 0xFF, 0xFF, 0xFF, 0x02, 0x00, 0x00, 0x00, 0xFC, 0xFF, 0xFF, 0xFF,]
    );
    assert_eq!(widened[15], 0x01, "entry count is a uvarint now");
}

#[test]
fn v1001_v2168_sub_chunk_without_the_cache_has_no_blob_hash_on_the_v1001_side() {
    let mut w = vec![0u8];
    for _ in 0..4 {
        varint(&mut w, 0);
    }
    w.extend_from_slice(&2u32.to_le_bytes());
    for _ in 0..2 {
        w.push(0);
        w.push(0);
        w.push(0);
        w.push(SUB_CHUNK_RESULT_SUCCESS_ALL_AIR);
        uvarint(&mut w, 2);
        w.extend_from_slice(&[4, 5]);
        w.push(0);
        w.push(0);
    }
    let original = w;

    let widened = run(|w| sub_chunk(w, true, SubChunkShape::documented()), &original);
    let back = run(|w| sub_chunk(w, false, SubChunkShape::documented()), &widened);
    assert_eq!(back, original);
}

#[test]
fn v1001_v2168_every_sub_chunk_shape_round_trips() {
    let original = v1001_sub_chunk(&[
        (1, vec![9; 40], true),
        (SUB_CHUNK_RESULT_SUCCESS_ALL_AIR, vec![], false),
        (1, vec![7; 12], false),
    ]);
    for type_bytes in [true, false] {
        for announce_blob_hash in [true, false] {
            for zero_blob_hash in [true, false] {
                for empty_payload in [true, false] {
                    let shape = SubChunkShape {
                        type_bytes,
                        announce_blob_hash,
                        zero_blob_hash,
                        empty_payload,
                        strip_content: false,
                    };
                    let widened = run(|w| sub_chunk(w, true, shape), &original);
                    let back = run(|w| sub_chunk(w, false, shape), &widened);
                    if announce_blob_hash {
                        assert_eq!(back, original, "shape {shape:?} is not its own inverse");
                    } else {
                        assert_eq!(back.len(), original.len(), "shape {shape:?} moved something other than the hash");
                    }
                }
            }
        }
    }
}

#[test]
fn v1001_v2168_air_mode_empties_every_entry_and_keeps_the_framing() {
    let original = v1001_sub_chunk(&[
        (1, vec![9; 40], true),
        (SUB_CHUNK_RESULT_SUCCESS_ALL_AIR, vec![], false),
        (1, vec![7; 12], false),
    ]);
    let air = SubChunkShape { strip_content: true, ..SubChunkShape::documented() };
    let stripped = run(|w| sub_chunk(w, true, air), &original);

    assert_eq!(stripped.len(), 3 + 12 + 1 + 3 * 10);
    for entry in 0..3 {
        let at = 16 + entry * 10;
        assert_eq!(
            &stripped[at..at + 10],
            &[
                stripped[at],
                stripped[at + 1],
                stripped[at + 2],
                SUB_CHUNK_RESULT_SUCCESS_ALL_AIR,
                0,
                HEIGHT_MAP_NONE,
                0,
                HEIGHT_MAP_NONE,
                0,
                0,
            ]
        );
    }
}

#[test]
fn v1001_v2168_sub_chunk_matches_the_captured_packet_byte_for_byte() {
    let entry = |y: u8| [0xfe, y, 0x03, 0x06, 0x02, 0x02, 0, 0, 0, 0, 0, 0, 0, 0];
    let mut input = vec![0x01, 0xd0, 0x0f, 0x07, 0x00, 0x09, 0x02, 0x00, 0x00, 0x00];
    input.extend_from_slice(&entry(0xe0));
    input.extend_from_slice(&entry(0xe1));

    let widened = run(|w| sub_chunk(w, true, SubChunkShape::documented()), &input);

    let out_entry = |y: u8| [0xfe, y, 0x03, 0x06, 0x00, 0x02, 0x00, 0x02, 0x00, 0x01, 0, 0, 0, 0, 0, 0, 0, 0];
    let mut expected = vec![
        0x01, 0xd0, 0x0f, 0xfc, 0xff, 0xff, 0xff, 0x00, 0x00, 0x00, 0x00, 0xfb, 0xff, 0xff, 0xff, 0x02,
    ];
    expected.extend_from_slice(&out_entry(0xe0));
    expected.extend_from_slice(&out_entry(0xe1));
    assert_eq!(widened, expected);

    let lean = run(
        |w| {
            sub_chunk(
                w,
                true,
                SubChunkShape {
                    type_bytes: false,
                    announce_blob_hash: true,
                    zero_blob_hash: false,
                    empty_payload: true,
                    strip_content: false,
                },
            )
        },
        &input,
    );
    assert_eq!(lean.len(), widened.len() - 2 * (2 + 8));
}

#[test]
fn v1001_v2168_the_default_shape_announces_a_real_hash_and_hides_a_zero_one() {
    let default = SubChunkShape::default_shape();
    assert!(
        default.announce_blob_hash,
        "a v2168 client leaves the world when an entry with a payload carries no blob hash; see the capture in the devdocs"
    );
    assert!(!default.zero_blob_hash);
    assert!(default.type_bytes);
    assert!(!default.strip_content);

    let original = v1001_sub_chunk(&[(SUB_CHUNK_RESULT_SUCCESS_ALL_AIR, vec![], false)]);
    let kept = run(|w| sub_chunk(w, true, default), &original);
    assert_eq!(kept[kept.len() - 9], 0x01, "a real hash stays present");

    let mut all_air = original.clone();
    let len = all_air.len();
    all_air[len - 8..].fill(0);
    let dropped = run(|w| sub_chunk(w, true, default), &all_air);
    assert_eq!(*dropped.last().unwrap(), 0x00, "a zero hash goes absent");
    assert_eq!(dropped.len(), kept.len() - 8);
}

#[test]
fn v1001_v2168_an_empty_payload_is_written_absent_by_default() {
    assert!(!SubChunkShape::default_shape().empty_payload);
    assert!(SubChunkShape::suppress_zero_hash().empty_payload);

    let mut w = vec![1u8];
    varint(&mut w, 1000);
    varint(&mut w, 0);
    varint(&mut w, 0);
    varint(&mut w, 0);
    w.extend_from_slice(&1u32.to_le_bytes());
    w.push(-114i8 as u8);
    w.push(12);
    w.push(-114i8 as u8);
    w.push(SUB_CHUNK_RESULT_LEVEL_CHUNK_DOESNT_EXIST);
    uvarint(&mut w, 0);
    w.push(HEIGHT_MAP_NONE);
    w.push(HEIGHT_MAP_NONE);
    w.extend_from_slice(&0u64.to_le_bytes());
    let original = w;

    let absent = run(|w| sub_chunk(w, true, SubChunkShape::default_shape()), &original);
    let announced = run(|w| sub_chunk(w, true, SubChunkShape::suppress_zero_hash()), &original);

    assert_eq!(
        absent.len(),
        announced.len() - 1,
        "the only difference is the zero-length byte array behind the presence bool"
    );
    assert_eq!(absent[20], 0x00, "a v975 chunk-doesn't-exist entry hands over no sub-chunk, so the optional is None");
    assert_eq!(announced[20], 0x01);
    assert_eq!(absent[19], SUB_CHUNK_RESULT_LEVEL_CHUNK_DOESNT_EXIST);

    let back = run(|w| sub_chunk(w, false, SubChunkShape::default_shape()), &absent);
    assert_eq!(back, original, "None widens back into the empty array v975 wrote");
}

#[test]
fn v1001_v2168_a_real_payload_survives_the_empty_payload_rule() {
    let original = v1001_sub_chunk(&[(1, vec![9; 40], true), (1, vec![7; 12], false)]);
    let widened = run(|w| sub_chunk(w, true, SubChunkShape::default_shape()), &original);
    let back = run(|w| sub_chunk(w, false, SubChunkShape::default_shape()), &widened);
    assert_eq!(back, original);
}

#[test]
fn v1001_v2168_mode_e_drops_every_hash_and_is_not_the_default() {
    assert!(!SubChunkShape::no_blob_hash().announce_blob_hash);
    assert_ne!(
        SubChunkShape::default_shape(),
        SubChunkShape::no_blob_hash(),
        "mode e is opt-in: it costs 8 bytes per entry and a v2168 client refuses the result"
    );

    let original = v1001_sub_chunk(&[(SUB_CHUNK_RESULT_SUCCESS_ALL_AIR, vec![], false)]);
    let lean = run(|w| sub_chunk(w, true, SubChunkShape::no_blob_hash()), &original);
    let announced = run(|w| sub_chunk(w, true, SubChunkShape::default_shape()), &original);

    assert_eq!(*lean.last().unwrap(), 0x00);
    assert_eq!(lean.len(), announced.len() - 8, "8 bytes per entry, which is what the -617 in the capture was");

    let back = run(|w| sub_chunk(w, false, SubChunkShape::no_blob_hash()), &lean);
    assert_eq!(back.len(), original.len(), "only the hash is lost; the framing has to survive");
}

#[test]
fn sub_chunk_setting_picks_the_shapes_by_letter() {
    assert_eq!(sub_chunk_shape(""), Some(SubChunkShape::default_shape()));
    assert_eq!(sub_chunk_shape(" OFF "), None);
    assert_eq!(sub_chunk_shape("drop"), None);
    assert_eq!(sub_chunk_shape("a"), Some(SubChunkShape::documented()));
    assert_eq!(sub_chunk_shape("E"), Some(SubChunkShape::no_blob_hash()));
    assert_eq!(sub_chunk_shape("b").map(|s| s.type_bytes), Some(false));
    assert_eq!(sub_chunk_shape("strip").map(|s| s.strip_content), Some(true));
    assert_eq!(sub_chunk_shape("zzz"), Some(SubChunkShape::default_shape()));
    assert_eq!(sub_chunk_mode_label(None), "off (packet dropped)");
    assert!(sub_chunk_mode_label(Some(SubChunkShape::default_shape())).starts_with("g "));
    assert!(sub_chunk_mode_label(sub_chunk_shape("f")).starts_with("e/f"));
    assert!(sub_chunk_mode_label(sub_chunk_shape("h")).starts_with("b/d/h"));
}

#[test]
fn sub_chunk_is_dropped_toward_2168_when_no_shape_is_picked() {
    let down = v1001_v2168::downgrade(0, None, true);
    assert!(down.is_cancelled(Direction::Clientbound, packet_ids::SUB_CHUNK));
    let kept = v1001_v2168::downgrade(0, Some(SubChunkShape::default_shape()), true);
    assert!(!kept.is_cancelled(Direction::Clientbound, packet_ids::SUB_CHUNK));
}

fn enchant_options_v944() -> Vec<u8> {
    let mut w = Vec::new();
    uvarint(&mut w, 1);
    uvarint(&mut w, 30);
    w.extend_from_slice(&2i32.to_le_bytes());
    for _ in 0..3 {
        uvarint(&mut w, 1);
        w.push(5);
        w.push(2);
    }
    string(&mut w, "sharp");
    uvarint(&mut w, 77);
    w
}

#[test]
fn v944_v975_player_enchant_options_round_trips() {
    round_trip(&enchant_options_v944(), v944_v975::player_enchant_options);
}

#[test]
fn tests_player_enchant_options_round_trips() {
    round_trip(&enchant_options_v944(), v944_v975::player_enchant_options);
}

#[test]
fn enchant_costs_become_one_byte_toward_975_capped_at_255() {
    let mut w = Vec::new();
    uvarint(&mut w, 2);
    for cost in [300u64, 7] {
        uvarint(&mut w, cost);
        w.extend_from_slice(&0i32.to_le_bytes());
        for _ in 0..3 {
            uvarint(&mut w, 0);
        }
        string(&mut w, "");
        uvarint(&mut w, 1);
    }
    let out = run(|p| v944_v975::player_enchant_options(p, true), &w);
    let mut expected = Vec::new();
    uvarint(&mut expected, 2);
    for cost in [255u8, 7] {
        expected.push(cost);
        expected.extend_from_slice(&0i32.to_le_bytes());
        expected.extend_from_slice(&[0, 0, 0, 0, 1]);
    }
    assert_eq!(out, expected);
    let back = run(|p| v944_v975::player_enchant_options(p, false), &out);
    assert_eq!(back[1..3], [0xff, 0x01]);
}

#[test]
fn the_975_step_rewrites_enchant_options_toward_the_client() {
    let d = v944_v975::downgrade();
    assert!(d.touches(Direction::Clientbound, packet_ids::PLAYER_ENCHANT_OPTIONS));
    assert!(!d.touches(Direction::Serverbound, packet_ids::PLAYER_ENCHANT_OPTIONS));
}

/// A waypoint's head: id, colour, an absent flag, and a position with its
/// dimension.
fn waypoint_head(w: &mut Vec<u8>) {
    w.extend_from_slice(&[7u8; 16]);
    w.extend_from_slice(&0xff00ffu32.to_le_bytes());
    w.push(0);
    w.push(1);
    f32le(w, 1.0);
    f32le(w, 2.0);
    f32le(w, 3.0);
    varint(w, 0);
}

/// A waypoint's tail: a present four-byte value, a present flag, an absent
/// actor id and a count.
fn waypoint_tail(w: &mut Vec<u8>) {
    w.push(1);
    w.extend_from_slice(&9i32.to_le_bytes());
    w.push(1);
    w.push(1);
    w.push(0);
    uvarint(w, 3);
}

#[test]
fn locator_waypoints_trade_their_optionals_between_944_and_975() {
    let mut v944 = Vec::new();
    uvarint(&mut v944, 1);
    waypoint_head(&mut v944);
    v944.push(1);
    v944.extend_from_slice(&5u32.to_le_bytes());
    waypoint_tail(&mut v944);

    let up = run(|p| v944_v975::locator_bar(p, true), &v944);
    let mut expected = Vec::new();
    uvarint(&mut expected, 1);
    waypoint_head(&mut expected);
    expected.push(0);
    expected.push(0);
    waypoint_tail(&mut expected);
    assert_eq!(up, expected);

    let mut v975 = Vec::new();
    uvarint(&mut v975, 1);
    waypoint_head(&mut v975);
    v975.push(1);
    string(&mut v975, "home");
    v975.push(1);
    f32le(&mut v975, 4.0);
    f32le(&mut v975, 5.0);
    waypoint_tail(&mut v975);
    let down = run(|p| v944_v975::locator_bar(p, false), &v975);
    let mut expected = Vec::new();
    uvarint(&mut expected, 1);
    waypoint_head(&mut expected);
    expected.push(0);
    waypoint_tail(&mut expected);
    assert_eq!(down, expected);
}

#[test]
fn a_truncated_locator_bar_is_refused() {
    let mut v944 = Vec::new();
    uvarint(&mut v944, 2);
    waypoint_head(&mut v944);
    v944.push(0);
    waypoint_tail(&mut v944);
    let mut w = PacketWrapper::new(&v944);
    assert!(v944_v975::locator_bar(&mut w, true).is_err());
}

#[test]
fn enchant_options_go_down_to_944_and_back_unchanged() {
    let v975 = run(|p| v944_v975::player_enchant_options(p, true), &enchant_options_v944());
    let v944 = run(|p| v944_v975::player_enchant_options(p, false), &v975);
    assert_eq!(run(|p| v944_v975::player_enchant_options(p, true), &v944), v975);
}

#[test]
fn a_locator_bar_written_toward_975_survives_a_trip_to_944() {
    let mut v944 = Vec::new();
    uvarint(&mut v944, 2);
    for present in [true, false] {
        waypoint_head(&mut v944);
        v944.push(present as u8);
        if present {
            v944.extend_from_slice(&5u32.to_le_bytes());
        }
        waypoint_tail(&mut v944);
    }
    let up = run(|p| v944_v975::locator_bar(p, true), &v944);
    let down = run(|p| v944_v975::locator_bar(p, false), &up);
    assert_eq!(run(|p| v944_v975::locator_bar(p, true), &down), up);
}

#[test]
fn a_zero_hash_sub_chunk_round_trips_without_announced_hashes() {
    let mut zeroed = v1001_sub_chunk(&[(1, vec![9; 40], true)]);
    let m = zeroed.len();
    for b in &mut zeroed[m - 8..] {
        *b = 0;
    }
    let lean = run(|w| sub_chunk(w, true, SubChunkShape::no_blob_hash()), &zeroed);
    assert_eq!(run(|w| sub_chunk(w, false, SubChunkShape::no_blob_hash()), &lean), zeroed);
}
