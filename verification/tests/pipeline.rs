use bedrock_protocol::connection::{leave_note, ConnState};
use bedrock_protocol::direction::Direction;
use bedrock_protocol::manager::Registry;
use bedrock_protocol::packet_ids;
use bedrock_protocol::pipeline::{hex_head, translate_inner, Outcome, Translation};
use bedrock_protocol::sound_events::SoundTable;
use bedrock_protocol::steps::all;
use bedrock_protocol::steps::sub_chunk::SubChunkShape;
use bedrock_protocol::versions::translatable;
use bedrock_protocol::steps::inventory_v2168::inventory_transaction;
use bedrock_protocol::wrapper::PacketWrapper;

fn registry(server: u32) -> Registry {
    let sounds = SoundTable::parse("0\titem.use.on\n1\thit\n");
    Registry::build(server, all(true, 0, Some(SubChunkShape::default_shape()), true), Vec::new(), sounds)
}

#[test]
fn every_adjacent_pair_has_both_directions() {
    let steps = all(true, 0, Some(SubChunkShape::default_shape()), true);
    let table = translatable();
    for pair in table.windows(2) {
        let (older, newer) = (pair[0], pair[1]);
        assert!(
            steps.iter().any(|s| s.server_protocol == older && s.client_protocol == newer),
            "missing downgrade step {older} <- {newer}"
        );
        assert!(
            steps.iter().any(|s| s.server_protocol == newer && s.client_protocol == older),
            "missing upgrade step {newer} <- {older}"
        );
    }
}

#[test]
fn no_step_claims_a_version_outside_the_translatable_set() {
    let table = translatable();
    for step in all(true, 0, Some(SubChunkShape::default_shape()), true) {
        assert!(table.contains(&step.server_protocol), "{} names untranslatable server protocol {}", step.name, step.server_protocol);
        assert!(table.contains(&step.client_protocol), "{} names untranslatable client protocol {}", step.name, step.client_protocol);
    }
}

#[test]
fn every_other_translatable_client_gets_a_chain_of_adjacent_hops() {
    let reg = registry(1001);
    assert_eq!(reg.chains.len(), 8);
    for chain in &reg.chains {
        let first = &reg.steps[chain.clientbound[0]];
        let last = &reg.steps[*chain.clientbound.last().unwrap()];
        assert_eq!(first.server_protocol, 1001);
        assert_eq!(last.client_protocol, chain.client_protocol);
        let mut rev = chain.clientbound.clone();
        rev.reverse();
        assert_eq!(chain.serverbound, rev);
    }
    let v859 = reg.chain(859).expect("a chain for 859");
    assert_eq!(v859.clientbound.len(), 6);
    assert!(reg.chain(1001).is_none());
    assert!(reg.chain(844).is_none());
}

#[test]
fn an_untranslatable_server_has_no_chains() {
    assert!(registry(844).chains.is_empty());
}

fn run(reg: &Registry, state: &mut ConnState, d: Direction, id: u16, body: &[u8]) -> Translation {
    translate_inner(reg, state, d, id, body)
}

#[test]
fn a_v2168_client_reaches_a_v1001_server() {
    let reg = registry(1001);
    let mut state = ConnState::new(1001);
    state.identify(2168);
    let mut body = vec![42u8];
    body.extend_from_slice(&1u16.to_le_bytes());
    body.extend_from_slice(&3.5f32.to_le_bytes());
    let t = run(&reg, &mut state, Direction::Clientbound, packet_ids::MOVE_ACTOR_DELTA, &body);
    let mut expected = vec![42u8, 1];
    expected.extend_from_slice(&3.5f32.to_le_bytes());
    expected.extend_from_slice(&[0, 0, 0, 0, 0, 0, 0, 0, 0]);
    assert_eq!(t.outcome, Outcome::Rewritten(expected));
    assert!(t.notices.is_empty());

    let skin = run(&reg, &mut state, Direction::Clientbound, packet_ids::PLAYER_SKIN, &[1, 2, 3]);
    assert_eq!(skin.outcome, Outcome::Drop);

    let other = run(&reg, &mut state, Direction::Clientbound, 9999, &[1, 2, 3]);
    assert_eq!(other.outcome, Outcome::Unchanged);
}

#[test]
fn a_malformed_body_is_forwarded_with_a_notice() {
    let reg = registry(1001);
    let mut state = ConnState::new(1001);
    state.identify(2168);
    let t = run(&reg, &mut state, Direction::Clientbound, packet_ids::MOVE_ACTOR_DELTA, &[]);
    assert_eq!(t.outcome, Outcome::Unchanged);
    assert_eq!(t.notices, vec!["v2168->v1001: failed to translate clientbound packet 111: malformed body".to_string()]);
}

#[test]
fn a_native_or_unidentified_client_is_left_alone() {
    let reg = registry(1001);
    let mut native = ConnState::new(1001);
    native.identify(1001);
    let body = [42u8, 1, 0, 0, 0, 0, 0];
    assert_eq!(run(&reg, &mut native, Direction::Clientbound, packet_ids::MOVE_ACTOR_DELTA, &body).outcome, Outcome::Unchanged);
    let mut fresh = ConnState::new(1001);
    assert_eq!(run(&reg, &mut fresh, Direction::Clientbound, packet_ids::MOVE_ACTOR_DELTA, &body).outcome, Outcome::Unchanged);
}

#[test]
fn a_client_with_no_path_is_warned_once() {
    let reg = registry(1001);
    let mut state = ConnState::new(1001);
    state.identify(844);
    let first = run(&reg, &mut state, Direction::Clientbound, 9999, &[1]);
    assert_eq!(first.outcome, Outcome::Unchanged);
    assert_eq!(
        first.notices,
        vec!["no translation path from 1.21.111 (protocol 844) to 1.26.30 (protocol 1001); forwarding untranslated".to_string()]
    );
    let second = run(&reg, &mut state, Direction::Clientbound, 9999, &[1]);
    assert!(second.notices.is_empty());
}

#[test]
fn sounds_are_named_between_975_and_1001() {
    let reg = registry(975);
    let mut state = ConnState::new(975);
    state.identify(1001);
    let t = run(&reg, &mut state, Direction::Clientbound, packet_ids::LEVEL_SOUND_EVENT, &[1, 0xEE]);
    assert_eq!(t.outcome, Outcome::Rewritten(vec![3, b'h', b'i', b't', 0xEE]));
    let back = run(&reg, &mut state, Direction::Serverbound, packet_ids::LEVEL_SOUND_EVENT, &[3, b'h', b'i', b't', 0xEE]);
    assert_eq!(back.outcome, Outcome::Rewritten(vec![1, 0xEE]));
}

#[test]
fn hex_head_prints_the_first_bytes() {
    assert_eq!(hex_head(&[0x00, 0xab, 0x10], 2), "00 ab");
    assert_eq!(hex_head(&[0x0f], 16), "0f");
    assert_eq!(hex_head(&[], 4), "");
}

#[test]
fn a_note_left_by_a_handler_is_reported_with_its_packet() {
    let reg = registry(2168);
    let mut state = ConnState::new(2168);
    state.identify(1001);
    let t = run(&reg, &mut state, Direction::Clientbound, packet_ids::STRUCTURE_BLOCK_UPDATE, &[0x00, 0x01]);
    assert_eq!(t.outcome, Outcome::Drop);
    assert!(t.notices.is_empty());
    assert_eq!(state.notices.len(), 1);
    let next = run(&reg, &mut state, Direction::Clientbound, 9999, &[1]);
    assert_eq!(next.outcome, Outcome::Unchanged);
    assert_eq!(
        next.notices,
        vec!["StructureBlockUpdate tail is not the expected [RedstoneSaveMode][ShouldTrigger][Waterlogged]; dropping it (2 B, last three bytes [00, 01])".to_string()]
    );
    assert!(state.notices.is_empty());
}

#[test]
fn a_score_note_is_given_once_per_packet_kind() {
    let sounds = SoundTable::parse("0\titem.use.on\n");
    let reg = Registry::build(1001, all(true, 0, Some(SubChunkShape::default_shape()), false), Vec::new(), sounds);
    let mut state = ConnState::new(1001);
    state.identify(2168);
    let off = "SetScore: dropped, CROSSBIND_SET_SCORE=off. A sidebar on a 1.26.40 client shows its title and no lines while this is off";
    let first = run(&reg, &mut state, Direction::Clientbound, packet_ids::SET_SCORE, &[0, 0]);
    assert_eq!(first.outcome, Outcome::Drop);
    let second = run(&reg, &mut state, Direction::Clientbound, packet_ids::SET_SCORE, &[0, 0]);
    assert_eq!(second.outcome, Outcome::Drop);
    let next = run(&reg, &mut state, Direction::Clientbound, 9999, &[1]);
    assert_eq!(next.notices, vec![off.to_string()]);
    assert_eq!(state.reported, vec![packet_ids::SET_SCORE]);
}

#[test]
fn a_v2168_only_packet_is_dropped_toward_an_older_client() {
    let reg = registry(2168);
    let mut state = ConnState::new(2168);
    state.identify(1001);
    let t = run(&reg, &mut state, Direction::Clientbound, packet_ids::SERVER_PLAYER_POST_MOVE_POSITION, &[1, 2, 3]);
    assert_eq!(t.outcome, Outcome::Drop);
    let located = run(&reg, &mut state, Direction::Clientbound, packet_ids::PLAYER_LOCATION, &[1, 2, 3]);
    assert_eq!(located.outcome, Outcome::Drop);
}

#[test]
fn an_item_stack_response_is_translated_toward_a_v2168_client() {
    let reg = registry(1001);
    let mut state = ConnState::new(1001);
    state.identify(2168);
    let t = run(&reg, &mut state, Direction::Clientbound, packet_ids::ITEM_STACK_RESPONSE, &[0x01, 0x01, 0x0e]);
    assert_eq!(t.outcome, Outcome::Rewritten(vec![0x01, 0x01, 0x0e, 0x01, 0x00]));
}

#[test]
fn a_second_note_for_the_same_packet_kind_is_not_left() {
    let mut pending = Vec::new();
    let mut reported = Vec::new();
    leave_note(&mut pending, &mut reported, Some(108), "first".to_string());
    leave_note(&mut pending, &mut reported, Some(108), "second".to_string());
    leave_note(&mut pending, &mut reported, None, "always".to_string());
    leave_note(&mut pending, &mut reported, None, "always".to_string());
    assert_eq!(pending, vec!["first".to_string(), "always".to_string(), "always".to_string()]);
    assert_eq!(reported, vec![108]);
}

#[test]
fn inventory_transaction_is_translated_not_cancelled() {
    let body = vec![0x00u8, 0x00, 0x01, 0x00, 0x01, 0x00];
    let reg = registry(1001);
    let mut state = ConnState::new(1001);
    state.identify(2168);
    for direction in [Direction::Serverbound, Direction::Clientbound] {
        let result = run(&reg, &mut state, direction, packet_ids::INVENTORY_TRANSACTION, &body);
        assert_eq!(
            result.outcome,
            Outcome::Rewritten(body.clone()),
            "{} InventoryTransaction must be translated",
            direction.as_str()
        );
    }
}

#[test]
fn inventory_transaction_is_cancelled_in_neither_direction() {
    let step = bedrock_protocol::steps::v1001_v2168::downgrade(0, Some(SubChunkShape::default_shape()), true);
    assert!(!step.is_cancelled(Direction::Clientbound, packet_ids::INVENTORY_TRANSACTION));
    assert!(!step.is_cancelled(Direction::Serverbound, packet_ids::INVENTORY_TRANSACTION));
    assert!(step.handler(Direction::Clientbound, packet_ids::INVENTORY_TRANSACTION).is_some());
    assert!(step.handler(Direction::Serverbound, packet_ids::INVENTORY_TRANSACTION).is_some());
}

#[test]
fn an_inventory_transaction_keeps_its_legacy_slot_block_and_refuses_items() {
    // request -4, legacy block of one container (12) with slots 0, 1, 2,
    // then a normal transaction with no actions and a trailing byte.
    let body = vec![0x07u8, 0x01, 0x01, 12, 0x03, 0, 1, 2, 0x01, 0x00, 0x01, 0x00, 0xEE];
    let mut w = PacketWrapper::new(&body);
    inventory_transaction(&mut w).expect("an item-free transaction is copied");
    assert_eq!(w.finish(), body);

    // A release-item transaction carries an item: refused.
    let release = vec![0x00u8, 0x00, 0x01, 0x04, 0x01, 0x00];
    assert!(inventory_transaction(&mut PacketWrapper::new(&release)).is_err());
    // So does any inventory action.
    let with_action = vec![0x00u8, 0x00, 0x01, 0x00, 0x01, 0x01, 0x00];
    assert!(inventory_transaction(&mut PacketWrapper::new(&with_action)).is_err());
}
