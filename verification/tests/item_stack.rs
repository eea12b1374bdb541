use bedrock_protocol::codec::DecodeError;
use bedrock_protocol::steps::item_stack_v2168::{
    action, action_id, action_variant, item_stack_request, item_stack_response, ActionOutcome, ACTION_MAX,
    ACTION_PLACE_IN_CONTAINER, ACTION_TAKE_OUT_CONTAINER, DESCRIPTOR_DEFAULT, RESPONSE_STATUS_OK,
};
use bedrock_protocol::wrapper::PacketWrapper;

fn maps() -> (Vec<(Vec<u8>, i32)>, Vec<(i32, Vec<u8>)>) {
    (vec![(b"apple".to_vec(), 5), (b"air".to_vec(), 0)], vec![(5, b"apple".to_vec())])
}

fn run(body: &[u8], to_v2168: bool) -> Result<(ActionOutcome, Vec<u8>), DecodeError> {
    let (names, ids) = maps();
    let mut w = PacketWrapper::new(body);
    let outcome = action(&mut w, to_v2168, &names, &ids)?;
    Ok((outcome, w.finish()))
}

#[test]
fn a_take_action_changes_its_header_and_stack_ids_and_comes_back() {
    let v1001 = vec![
        0x00, 0x05, // take, count
        0x01, 0x00, 0x02, 0x0e, // source: container 1, no dynamic id, slot 2, stack id 7
        0x03, 0x01, 1, 2, 3, 4, 0x04, 0x01, // destination: dynamic id, slot 4, stack id -1
    ];
    let (outcome, v2168) = run(&v1001, true).unwrap();
    assert_eq!(outcome, ActionOutcome::Written);
    assert_eq!(
        v2168,
        vec![0x00, 0x00, 0x05, 0x01, 0x00, 0x02, 7, 0, 0, 0, 0x03, 0x01, 1, 2, 3, 4, 0x04, 0xff, 0xff, 0xff, 0xff]
    );
    assert_eq!(run(&v2168, false).unwrap(), (ActionOutcome::Written, v1001));
}

#[test]
fn actions_past_the_removed_container_ids_shift_their_variant() {
    let (outcome, v2168) = run(&[9], true).unwrap();
    assert_eq!(outcome, ActionOutcome::Written);
    assert_eq!(v2168, vec![7, 9]);
    assert_eq!(run(&v2168, false).unwrap(), (ActionOutcome::Written, vec![9]));
}

#[test]
fn an_automatic_recipe_craft_blocks_and_container_actions_do_not_decode() {
    assert_eq!(run(&[13, 0, 0], true).unwrap().0, ActionOutcome::Blocked);
    assert_eq!(run(&[11, 0, 0], false).unwrap().0, ActionOutcome::Blocked);
    assert!(run(&[7], true).is_err());
    assert!(run(&[8], true).is_err());
    assert!(run(&[20], true).is_err());
    assert!(run(&[18, 0], false).is_err());
}

#[test]
fn crafting_results_trade_network_ids_for_names() {
    let v1001 = vec![19, 0x01, 0x0a, 2, 0, 0x03, 0x02, 0x01, 0xAB, 0x01];
    let (outcome, v2168) = run(&v1001, true).unwrap();
    assert_eq!(outcome, ActionOutcome::Written);
    let mut expected = vec![17, 19, 0x01, 0x01, 0x01, 5];
    expected.extend_from_slice(b"apple");
    expected.extend_from_slice(&[0x06, 2, 0, 0x01, 0x01, 0xAB, 0x01]);
    assert_eq!(v2168, expected);
    assert_eq!(run(&v2168, false).unwrap(), (ActionOutcome::Written, v1001));
}

#[test]
fn an_unknown_result_item_blocks_the_request() {
    let (outcome, _) = run(&[19, 0x01, 0x0c, 2, 0, 0x03, 0x02, 0x00, 0x01], true).unwrap();
    assert_eq!(outcome, ActionOutcome::Blocked);
    let mut v2168 = vec![17, 19, 0x01, 0x01, 0x01, 4];
    v2168.extend_from_slice(b"pear");
    v2168.extend_from_slice(&[0x06, 2, 0, 0x01, 0x00, 0x01]);
    assert_eq!(run(&v2168, false).unwrap().0, ActionOutcome::Blocked);
}

#[test]
fn an_empty_result_item_is_written_as_the_invalid_descriptor() {
    let (outcome, v2168) = run(&[19, 0x01, 0x00, 0x01], true).unwrap();
    assert_eq!(outcome, ActionOutcome::Written);
    assert_eq!(v2168, vec![17, 19, 0x01, 0x00, 0x00, 0x00, 0x00, 0x00, 0x00, 0x01]);
    assert_eq!(run(&v2168, false).unwrap(), (ActionOutcome::Written, vec![19, 0x01, 0x00, 0x01]));
}

fn uvarint(w: &mut Vec<u8>, mut v: u64) {
    while v >= 0x80 {
        w.push((v as u8) | 0x80);
        v >>= 7;
    }
    w.push(v as u8);
}

fn varint(w: &mut Vec<u8>, v: i32) {
    uvarint(w, ((v << 1) ^ (v >> 31)) as u32 as u64);
}

fn string(w: &mut Vec<u8>, s: &str) {
    uvarint(w, s.len() as u64);
    w.extend_from_slice(s.as_bytes());
}

type Tables = (Vec<(Vec<u8>, i32)>, Vec<(i32, Vec<u8>)>);

fn empty_tables() -> Tables {
    (Vec::new(), Vec::new())
}

fn stone_tables() -> Tables {
    (vec![(b"minecraft:stone".to_vec(), 1)], vec![(1, b"minecraft:stone".to_vec())])
}

fn v1001_slot(w: &mut Vec<u8>, slot: u8, net: i32) {
    w.push(0);
    w.push(0);
    w.push(slot);
    varint(w, net);
}

fn v1001_creative_pull() -> Vec<u8> {
    let mut w = Vec::new();
    uvarint(&mut w, 1);
    varint(&mut w, -3);
    uvarint(&mut w, 3);

    w.push(14);
    uvarint(&mut w, 755);
    w.push(1);

    w.push(4);
    w.push(64);
    v1001_slot(&mut w, 50, 12);

    w.push(19);
    uvarint(&mut w, 0);
    w.push(1);

    uvarint(&mut w, 0);
    w.extend_from_slice(&0i32.to_le_bytes());
    w
}

fn run_request(input: &[u8], to_v2168: bool) -> Vec<u8> {
    let (names, ids) = empty_tables();
    let mut w = PacketWrapper::new(input);
    assert!(item_stack_request(&mut w, to_v2168, &names, &ids).expect("handler failed"));
    w.finish()
}

#[test]
fn variant_mapping_is_invertible_and_skips_the_container_pair() {
    for id in 0..=ACTION_MAX {
        if id == ACTION_PLACE_IN_CONTAINER || id == ACTION_TAKE_OUT_CONTAINER {
            continue;
        }
        assert_eq!(action_id(action_variant(id)), id, "id {id} did not survive");
    }
    assert_eq!(action_variant(6), 6);
    assert_eq!(action_variant(9), 7);
    assert_eq!(action_id(7), 9);
}

#[test]
fn a_creative_pull_round_trips() {
    let original = v1001_creative_pull();
    let widened = run_request(&original, true);
    assert_ne!(widened, original, "the header and slot id must change");
    let back = run_request(&widened, false);
    assert_eq!(back, original);
}

#[test]
fn the_slot_network_id_becomes_fixed_width() {
    let original = v1001_creative_pull();
    let widened = run_request(&original, true);
    assert_eq!(widened.len(), original.len() + 3 + 3);
}

#[test]
fn shift_click_crafting_is_refused_rather_than_guessed() {
    let mut w = Vec::new();
    uvarint(&mut w, 1);
    varint(&mut w, 1);
    uvarint(&mut w, 1);
    w.push(13);
    let mut wrapper = PacketWrapper::new(&w);
    let (names, ids) = empty_tables();
    assert!(!item_stack_request(&mut wrapper, true, &names, &ids).unwrap());
}

#[test]
fn an_out_of_range_variant_is_an_error_not_a_silent_shift() {
    let mut w = Vec::new();
    uvarint(&mut w, 1);
    varint(&mut w, 1);
    uvarint(&mut w, 1);
    uvarint(&mut w, 99);
    w.push(99);
    let mut wrapper = PacketWrapper::new(&w);
    let (names, ids) = empty_tables();
    assert!(item_stack_request(&mut wrapper, false, &names, &ids).is_err());
}

fn v2168_pull_with_result(name: &str) -> Vec<u8> {
    let mut w = Vec::new();
    uvarint(&mut w, 1);
    varint(&mut w, -3);
    uvarint(&mut w, 1);
    uvarint(&mut w, action_variant(19) as u64);
    w.push(19);
    uvarint(&mut w, 1);
    uvarint(&mut w, DESCRIPTOR_DEFAULT as u64);
    w.push(DESCRIPTOR_DEFAULT as u8);
    string(&mut w, name);
    varint(&mut w, 0);
    w.extend_from_slice(&64i16.to_le_bytes());
    uvarint(&mut w, 0);
    uvarint(&mut w, 0);
    w.push(1);
    uvarint(&mut w, 0);
    w.extend_from_slice(&0i32.to_le_bytes());
    w
}

#[test]
fn a_result_list_never_comes_out_empty() {
    let (names, ids) = stone_tables();
    let input = v2168_pull_with_result("minecraft:stone");
    let mut w = PacketWrapper::new(&input);
    assert!(item_stack_request(&mut w, false, &names, &ids).unwrap());
    let out = w.finish();
    // count 1, request -3, one action, id 19, one result (the list must
    // survive), network id 1 from the registry, count 64.
    assert_eq!(&out[..8], &[0x01, 0x05, 0x01, 19, 0x01, 0x02, 64, 0]);
}

#[test]
fn an_unknown_item_refuses_instead_of_emitting_a_hole() {
    let (names, ids) = stone_tables();
    let input = v2168_pull_with_result("modded:widget");
    let mut w = PacketWrapper::new(&input);
    assert!(
        !item_stack_request(&mut w, false, &names, &ids).unwrap(),
        "a name the server never registered must block the request"
    );
}

#[test]
fn an_empty_registry_blocks_rather_than_crashing() {
    let (names, ids) = empty_tables();
    let input = v2168_pull_with_result("minecraft:stone");
    let mut w = PacketWrapper::new(&input);
    assert!(!item_stack_request(&mut w, false, &names, &ids).unwrap());
}

#[test]
fn a_result_item_round_trips_through_the_registry() {
    let (names, ids) = stone_tables();
    let input = v2168_pull_with_result("minecraft:stone");
    let mut w = PacketWrapper::new(&input);
    assert!(item_stack_request(&mut w, false, &names, &ids).unwrap());
    let down = w.finish();

    let mut w = PacketWrapper::new(&down);
    assert!(item_stack_request(&mut w, true, &names, &ids).unwrap());
    assert_eq!(w.finish(), input);
}

#[test]
fn a_response_round_trips_and_moves_the_optional() {
    let mut w = Vec::new();
    uvarint(&mut w, 1);
    w.push(RESPONSE_STATUS_OK);
    varint(&mut w, -3);
    uvarint(&mut w, 1);
    w.push(0);
    w.push(0);
    uvarint(&mut w, 1);
    w.push(50);
    w.push(50);
    w.push(64);
    varint(&mut w, 12);
    string(&mut w, "");
    string(&mut w, "");
    varint(&mut w, 0);
    let original = w;

    let mut wrapper = PacketWrapper::new(&original);
    item_stack_response(&mut wrapper, true).unwrap();
    let widened = wrapper.finish();
    assert_eq!(widened.len(), original.len() + 4, "two optional bool pairs");

    let mut wrapper = PacketWrapper::new(&widened);
    item_stack_response(&mut wrapper, false).unwrap();
    assert_eq!(wrapper.finish(), original);
}

#[test]
fn a_rejected_response_carries_no_container_list_down() {
    let mut w = Vec::new();
    uvarint(&mut w, 1);
    w.push(1);
    varint(&mut w, 7);
    w.push(1);
    w.push(1);
    uvarint(&mut w, 0);

    let mut wrapper = PacketWrapper::new(&w);
    item_stack_response(&mut wrapper, false).unwrap();
    let out = wrapper.finish();
    // count 1, status 1, request 7, and nothing follows a non-OK status.
    assert_eq!(out, vec![0x01, 0x01, 0x0e]);
}
