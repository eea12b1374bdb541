//! Protocol 924 and protocol 944: block positions in SetSpawnPosition and
//! TileEvent changed between the signed and the network (unsigned y) form,
//! four note-block instruments were inserted at 16, and two sounds at 597.
use vstd::prelude::*;
use crate::codec::{
    lemma_i32v_round_trip, lemma_parse_uvarint_bounds, lemma_u32v_round_trip, parse_i32v,
    parse_u32v, ser_i32v, ser_u32v, DecodeError, Field,
};
use crate::direction::Direction;
use crate::handler::Handler;
use crate::mapping::IdShift;
use crate::packet_ids;
use crate::rewriter::{no_keys, SoundRewriter};
use crate::translator::Translator;
use crate::wrapper::{dropped, finished, pass, put, start, PacketWrapper, WireState};

verus! {

/// The note-block instruments inserted in protocol 944.
pub open spec fn note_instrument() -> IdShift {
    IdShift { insert_at: 16, count: 4 }
}

/// The sounds inserted in protocol 944.
pub open spec fn sound() -> IdShift {
    IdShift { insert_at: 597, count: 2 }
}

/// The block event type of a note block.
pub const NOTE_BLOCK_EVENT: i32 = 1;

/// A block position in network form (the y coordinate unsigned) rewritten
/// in signed form.
pub open spec fn spec_pos_to_signed(st: WireState) -> Option<WireState> {
    match parse_i32v(st.rest) {
        Some((x, n1)) => match parse_u32v(st.rest.skip(n1 as int)) {
            Some((y, n2)) => match parse_i32v(st.rest.skip((n1 + n2) as int)) {
                Some((z, n3)) => Some(put(
                    dropped(st, n1 + n2 + n3),
                    ser_i32v(x) + ser_i32v(y as i32) + ser_i32v(z),
                )),
                None => None,
            },
            None => None,
        },
        None => None,
    }
}

/// A block position in signed form rewritten in network form.
pub open spec fn spec_pos_to_unsigned(st: WireState) -> Option<WireState> {
    match parse_i32v(st.rest) {
        Some((x, n1)) => match parse_i32v(st.rest.skip(n1 as int)) {
            Some((y, n2)) => match parse_i32v(st.rest.skip((n1 + n2) as int)) {
                Some((z, n3)) => Some(put(
                    dropped(st, n1 + n2 + n3),
                    ser_i32v(x) + ser_u32v(y as u32) + ser_i32v(z),
                )),
                None => None,
            },
            None => None,
        },
        None => None,
    }
}

/// Rewrites the block position at the read position from network form to
/// signed form.
pub fn pos_to_signed(w: &mut PacketWrapper) -> (r: Result<(), DecodeError>)
    requires
        old(w).wf(),
    ensures
        final(w).wf(),
        match spec_pos_to_signed(old(w)@) {
            Some(st) => r is Ok && final(w)@ == st,
            None => r is Err,
        },
{
    let ghost st0 = w@;
    let x = w.read_i32v()?;
    let ghost n1 = parse_i32v(st0.rest).unwrap().1;
    proof {
        lemma_parse_uvarint_bounds(st0.rest, 5);
    }
    let y = w.read_u32v()?;
    let ghost n2 = parse_u32v(st0.rest.skip(n1 as int)).unwrap().1;
    proof {
        lemma_parse_uvarint_bounds(st0.rest.skip(n1 as int), 5);
        assert(st0.rest.skip(n1 as int).skip(n2 as int) =~= st0.rest.skip((n1 + n2) as int));
    }
    let z = w.read_i32v()?;
    proof {
        lemma_parse_uvarint_bounds(st0.rest.skip((n1 + n2) as int), 5);
        let n3 = parse_i32v(st0.rest.skip((n1 + n2) as int)).unwrap().1;
        assert(st0.rest.skip((n1 + n2) as int).skip(n3 as int) =~= st0.rest.skip((n1 + n2 + n3) as int));
    }
    w.write_i32v(x);
    w.write_i32v(y as i32);
    w.write_i32v(z);
    assert(w@.out =~= st0.out + (ser_i32v(x) + ser_i32v(y as i32) + ser_i32v(z)));
    Ok(())
}

/// Rewrites the block position at the read position from signed form to
/// network form.
pub fn pos_to_unsigned(w: &mut PacketWrapper) -> (r: Result<(), DecodeError>)
    requires
        old(w).wf(),
    ensures
        final(w).wf(),
        match spec_pos_to_unsigned(old(w)@) {
            Some(st) => r is Ok && final(w)@ == st,
            None => r is Err,
        },
{
    let ghost st0 = w@;
    let x = w.read_i32v()?;
    let ghost n1 = parse_i32v(st0.rest).unwrap().1;
    proof {
        lemma_parse_uvarint_bounds(st0.rest, 5);
    }
    let y = w.read_i32v()?;
    let ghost n2 = parse_i32v(st0.rest.skip(n1 as int)).unwrap().1;
    proof {
        lemma_parse_uvarint_bounds(st0.rest.skip(n1 as int), 5);
        assert(st0.rest.skip(n1 as int).skip(n2 as int) =~= st0.rest.skip((n1 + n2) as int));
    }
    let z = w.read_i32v()?;
    proof {
        lemma_parse_uvarint_bounds(st0.rest.skip((n1 + n2) as int), 5);
        let n3 = parse_i32v(st0.rest.skip((n1 + n2) as int)).unwrap().1;
        assert(st0.rest.skip((n1 + n2) as int).skip(n3 as int) =~= st0.rest.skip((n1 + n2 + n3) as int));
    }
    w.write_i32v(x);
    w.write_u32v(y as u32);
    w.write_i32v(z);
    assert(w@.out =~= st0.out + (ser_i32v(x) + ser_u32v(y as u32) + ser_i32v(z)));
    Ok(())
}

/// SetSpawnPosition in signed form: the spawn type, the position, the
/// dimension and the second position; both positions become signed.
pub open spec fn spec_spawn_position_to_signed(st: WireState) -> Option<WireState> {
    match pass(st, Field::VarInt) {
        Some(s1) => match spec_pos_to_signed(s1) {
            Some(s2) => match pass(s2, Field::VarInt) {
                Some(s3) => spec_pos_to_signed(s3),
                None => None,
            },
            None => None,
        },
        None => None,
    }
}

/// SetSpawnPosition in network form.
pub open spec fn spec_spawn_position_to_unsigned(st: WireState) -> Option<WireState> {
    match pass(st, Field::VarInt) {
        Some(s1) => match spec_pos_to_unsigned(s1) {
            Some(s2) => match pass(s2, Field::VarInt) {
                Some(s3) => spec_pos_to_unsigned(s3),
                None => None,
            },
            None => None,
        },
        None => None,
    }
}

pub fn spawn_position_to_signed(w: &mut PacketWrapper) -> (r: Result<(), DecodeError>)
    requires
        old(w).wf(),
    ensures
        final(w).wf(),
        match spec_spawn_position_to_signed(old(w)@) {
            Some(st) => r is Ok && final(w)@ == st,
            None => r is Err,
        },
{
    w.passthrough(Field::VarInt)?;
    pos_to_signed(w)?;
    w.passthrough(Field::VarInt)?;
    pos_to_signed(w)?;
    Ok(())
}

pub fn spawn_position_to_unsigned(w: &mut PacketWrapper) -> (r: Result<(), DecodeError>)
    requires
        old(w).wf(),
    ensures
        final(w).wf(),
        match spec_spawn_position_to_unsigned(old(w)@) {
            Some(st) => r is Ok && final(w)@ == st,
            None => r is Err,
        },
{
    w.passthrough(Field::VarInt)?;
    pos_to_unsigned(w)?;
    w.passthrough(Field::VarInt)?;
    pos_to_unsigned(w)?;
    Ok(())
}

/// TileEvent toward the signed form: the position becomes signed, the event
/// type is kept, and for a note block the instrument (the event data) moves
/// up (`shift_up`) or down across the inserted instruments.
pub open spec fn spec_tile_event_remap(st: WireState, shift_up: bool) -> Option<WireState> {
    match spec_pos_to_signed(st) {
        Some(s1) => match parse_i32v(s1.rest) {
            Some((event_type, n)) => {
                let s2 = pass(s1, Field::VarInt).unwrap();
                if event_type == NOTE_BLOCK_EVENT {
                    match parse_i32v(s2.rest) {
                        Some((instrument, m)) => {
                            let i = instrument as u32;
                            let mapped = if shift_up {
                                note_instrument().spec_up(i)
                            } else {
                                note_instrument().spec_down(i)
                            };
                            Some(put(dropped(s2, m), ser_i32v(mapped as i32)))
                        },
                        None => None,
                    }
                } else {
                    Some(s2)
                }
            },
            None => None,
        },
        None => None,
    }
}

pub fn tile_event_remap(w: &mut PacketWrapper, shift_up: bool) -> (r: Result<(), DecodeError>)
    requires
        old(w).wf(),
    ensures
        final(w).wf(),
        match spec_tile_event_remap(old(w)@, shift_up) {
            Some(st) => r is Ok && final(w)@ == st,
            None => r is Err,
        },
{
    pos_to_signed(w)?;
    let ghost s1 = w@;
    let event_type = w.pass_i32v()?;
    proof {
        crate::codec::lemma_field_len_agrees(s1.rest);
    }
    if event_type == NOTE_BLOCK_EVENT {
        let instrument = w.read_i32v()? as u32;
        let shift = IdShift::inserted(4, 16);
        let remapped = if shift_up { shift.up(instrument) } else { shift.down(instrument) };
        w.write_i32v(remapped as i32);
    }
    Ok(())
}

/// The instrument a note-block TileEvent carries once rewritten: moving up,
/// an instrument at or past 16 moves past the four instruments protocol 944
/// inserts there; moving down, one past those four moves back down by four;
/// any other instrument is kept.
pub open spec fn moved_instrument(instrument: i32, shift_up: bool) -> i32 {
    if shift_up {
        if instrument >= 16 { (instrument + 4) as i32 } else { instrument }
    } else {
        if instrument >= 20 { (instrument - 4) as i32 } else { instrument }
    }
}

/// A note-block TileEvent keeps its event type and what follows the
/// instrument, and its instrument moves across the block of instruments
/// protocol 944 inserts at 16; any other TileEvent keeps everything after
/// its position.
pub proof fn law_tile_event_moves_note_instruments(st: WireState, s1: WireState, event_type: i32, instrument: i32,
    t: Seq<u8>, shift_up: bool)
    requires
        spec_pos_to_signed(st) == Some(s1),
        0 <= instrument <= i32::MAX - 4,
    ensures
        event_type == NOTE_BLOCK_EVENT && s1.rest == ser_i32v(event_type) + ser_i32v(instrument) + t
            ==> spec_tile_event_remap(st, shift_up) == Some(WireState {
                rest: t,
                out: s1.out + ser_i32v(event_type) + ser_i32v(moved_instrument(instrument, shift_up)),
                ..s1
            }),
        event_type != NOTE_BLOCK_EVENT && s1.rest == ser_i32v(event_type) + t
            ==> spec_tile_event_remap(st, shift_up) == Some(WireState {
                rest: t,
                out: s1.out + ser_i32v(event_type),
                ..s1
            }),
{
    if event_type == NOTE_BLOCK_EVENT && s1.rest == ser_i32v(event_type) + ser_i32v(instrument) + t {
        let u = ser_i32v(instrument) + t;
        assert(s1.rest =~= ser_i32v(event_type) + u);
        lemma_i32v_round_trip(event_type, u);
        crate::codec::lemma_field_len_agrees(s1.rest);
        let n = ser_i32v(event_type).len();
        assert(s1.rest.skip(n as int) =~= u);
        assert(s1.rest.take(n as int) =~= ser_i32v(event_type));
        lemma_i32v_round_trip(instrument, t);
        let m = ser_i32v(instrument).len();
        assert(u.skip(m as int) =~= t);
        let i = instrument as u32;
        assert(i as int == instrument as int);
        let mapped = if shift_up { note_instrument().spec_up(i) } else { note_instrument().spec_down(i) };
        assert(mapped as i32 == moved_instrument(instrument, shift_up));
    } else if event_type != NOTE_BLOCK_EVENT && s1.rest == ser_i32v(event_type) + t {
        lemma_i32v_round_trip(event_type, t);
        crate::codec::lemma_field_len_agrees(s1.rest);
        let n = ser_i32v(event_type).len();
        assert(s1.rest.skip(n as int) =~= t);
        assert(s1.rest.take(n as int) =~= ser_i32v(event_type));
    }
}

/// A block position survives the change of form both ways: writing it in
/// network form, rewriting it to signed form and back gives the same bytes.
pub proof fn law_block_pos_round_trip(x: i32, y: u32, z: i32, t: Seq<u8>)
    ensures
        ({
            let input = ser_i32v(x) + ser_u32v(y) + ser_i32v(z) + t;
            &&& spec_pos_to_signed(start(input)) matches Some(a)
            &&& spec_pos_to_unsigned(start(finished(a))) matches Some(b)
            &&& finished(b) == input
        }),
{
    let input = ser_i32v(x) + ser_u32v(y) + ser_i32v(z) + t;
    let (l1, l2, l3) = (ser_i32v(x).len(), ser_u32v(y).len(), ser_i32v(z).len());
    lemma_i32v_round_trip(x, ser_u32v(y) + ser_i32v(z) + t);
    assert(input =~= ser_i32v(x) + (ser_u32v(y) + ser_i32v(z) + t));
    assert(input.skip(l1 as int) =~= ser_u32v(y) + (ser_i32v(z) + t));
    lemma_u32v_round_trip(y, ser_i32v(z) + t);
    assert(input.skip((l1 + l2) as int) =~= ser_i32v(z) + t);
    lemma_i32v_round_trip(z, t);
    assert(input.skip((l1 + l2 + l3) as int) =~= t);
    let a = spec_pos_to_signed(start(input)).unwrap();
    let mid = ser_i32v(x) + ser_i32v(y as i32) + ser_i32v(z) + t;
    assert(finished(a) =~= mid);
    let m2 = ser_i32v(y as i32).len();
    lemma_i32v_round_trip(x, ser_i32v(y as i32) + ser_i32v(z) + t);
    assert(mid =~= ser_i32v(x) + (ser_i32v(y as i32) + ser_i32v(z) + t));
    assert(mid.skip(l1 as int) =~= ser_i32v(y as i32) + (ser_i32v(z) + t));
    lemma_i32v_round_trip(y as i32, ser_i32v(z) + t);
    assert(mid.skip((l1 + m2) as int) =~= ser_i32v(z) + t);
    assert(mid.skip((l1 + m2 + l3) as int) =~= t);
    assert((y as i32) as u32 == y) by (bit_vector);
    let b = spec_pos_to_unsigned(start(mid)).unwrap();
    assert(finished(b) =~= input);
}

/// The signed-to-network direction of the same law.
pub proof fn law_block_pos_round_trip_signed(x: i32, y: i32, z: i32, t: Seq<u8>)
    ensures
        ({
            let input = ser_i32v(x) + ser_i32v(y) + ser_i32v(z) + t;
            &&& spec_pos_to_unsigned(start(input)) matches Some(a)
            &&& spec_pos_to_signed(start(finished(a))) matches Some(b)
            &&& finished(b) == input
        }),
{
    let input = ser_i32v(x) + ser_i32v(y) + ser_i32v(z) + t;
    let (l1, l2, l3) = (ser_i32v(x).len(), ser_i32v(y).len(), ser_i32v(z).len());
    lemma_i32v_round_trip(x, ser_i32v(y) + ser_i32v(z) + t);
    assert(input =~= ser_i32v(x) + (ser_i32v(y) + ser_i32v(z) + t));
    assert(input.skip(l1 as int) =~= ser_i32v(y) + (ser_i32v(z) + t));
    lemma_i32v_round_trip(y, ser_i32v(z) + t);
    assert(input.skip((l1 + l2) as int) =~= ser_i32v(z) + t);
    lemma_i32v_round_trip(z, t);
    assert(input.skip((l1 + l2 + l3) as int) =~= t);
    let a = spec_pos_to_unsigned(start(input)).unwrap();
    let mid = ser_i32v(x) + ser_u32v(y as u32) + ser_i32v(z) + t;
    assert(finished(a) =~= mid);
    let m2 = ser_u32v(y as u32).len();
    lemma_i32v_round_trip(x, ser_u32v(y as u32) + ser_i32v(z) + t);
    assert(mid =~= ser_i32v(x) + (ser_u32v(y as u32) + ser_i32v(z) + t));
    assert(mid.skip(l1 as int) =~= ser_u32v(y as u32) + (ser_i32v(z) + t));
    lemma_u32v_round_trip(y as u32, ser_i32v(z) + t);
    assert(mid.skip((l1 + m2) as int) =~= ser_i32v(z) + t);
    assert(mid.skip((l1 + m2 + l3) as int) =~= t);
    assert((y as u32) as i32 == y) by (bit_vector);
    let b = spec_pos_to_signed(start(mid)).unwrap();
    assert(finished(b) =~= input);
}

// ---------------------------------------------------------------------------
// The steps.

/// The actor data key of the heartbeat sound.
pub const HEARTBEAT_KEY: u32 = 126;

/// The handlers of a step between 924 and 944 (`client_is_newer` when the
/// client speaks 944).
pub open spec fn step_handlers(client_is_newer: bool) -> (Map<u16, Handler>, Map<u16, Handler>) {
    let snd = SoundRewriter {
        shift: sound(),
        client_is_newer,
        sound_key: HEARTBEAT_KEY,
        dropped_keys: no_keys(),
        skip_level_sound_event: false,
        item_encoding_changed: false,
    };
    if client_is_newer {
        (
            map![
                packet_ids::SET_SPAWN_POSITION => Handler::SpawnPositionToSigned,
                packet_ids::TILE_EVENT => Handler::TileEvent(true),
                packet_ids::LEVEL_SOUND_EVENT => Handler::LevelSoundEvent(snd, Direction::Clientbound),
            ],
            map![
                packet_ids::SET_SPAWN_POSITION => Handler::SpawnPositionToUnsigned,
                packet_ids::LEVEL_SOUND_EVENT => Handler::LevelSoundEvent(snd, Direction::Serverbound),
            ],
        )
    } else {
        (
            map![
                packet_ids::SET_SPAWN_POSITION => Handler::SpawnPositionToUnsigned,
                packet_ids::TILE_EVENT => Handler::TileEvent(false),
                packet_ids::LEVEL_SOUND_EVENT => Handler::LevelSoundEvent(snd, Direction::Clientbound),
            ],
            map![
                packet_ids::SET_SPAWN_POSITION => Handler::SpawnPositionToSigned,
                packet_ids::LEVEL_SOUND_EVENT => Handler::LevelSoundEvent(snd, Direction::Serverbound),
            ],
        )
    }
}

/// Serves a protocol 944 client from a protocol 924 server.
pub fn downgrade() -> (t: Translator)
    ensures
        t.wf(),
        t.name@ == "v944->v924"@,
        t.server_protocol == 924,
        t.client_protocol == 944,
        t.handlers(Direction::Clientbound) == step_handlers(true).0,
        t.handlers(Direction::Serverbound) == step_handlers(true).1,
        forall|d: Direction| #[trigger] t.cancels(d) == Set::<u16>::empty(),
{
    let step = Translator::new("v944->v924", 924, 944)
        .clientbound(packet_ids::SET_SPAWN_POSITION, Handler::SpawnPositionToSigned)
        .clientbound(packet_ids::TILE_EVENT, Handler::TileEvent(true))
        .serverbound(packet_ids::SET_SPAWN_POSITION, Handler::SpawnPositionToUnsigned);
    let step = SoundRewriter::new(IdShift::inserted(2, 597), true, HEARTBEAT_KEY).register(step);
    assert(step.handlers(Direction::Clientbound) =~= step_handlers(true).0);
    assert(step.handlers(Direction::Serverbound) =~= step_handlers(true).1);
    step
}

/// Serves a protocol 924 client from a protocol 944 server.
pub fn upgrade() -> (t: Translator)
    ensures
        t.wf(),
        t.name@ == "v924->v944"@,
        t.server_protocol == 944,
        t.client_protocol == 924,
        t.handlers(Direction::Clientbound) == step_handlers(false).0,
        t.handlers(Direction::Serverbound) == step_handlers(false).1,
        forall|d: Direction| #[trigger] t.cancels(d) == Set::<u16>::empty(),
{
    let step = Translator::new("v924->v944", 944, 924)
        .clientbound(packet_ids::SET_SPAWN_POSITION, Handler::SpawnPositionToUnsigned)
        .clientbound(packet_ids::TILE_EVENT, Handler::TileEvent(false))
        .serverbound(packet_ids::SET_SPAWN_POSITION, Handler::SpawnPositionToSigned);
    let step = SoundRewriter::new(IdShift::inserted(2, 597), false, HEARTBEAT_KEY).register(step);
    assert(step.handlers(Direction::Clientbound) =~= step_handlers(false).0);
    assert(step.handlers(Direction::Serverbound) =~= step_handlers(false).1);
    step
}

} // verus!
