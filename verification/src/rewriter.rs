//! Rewriters shared by several steps: id remapping of actor events and of
//! sound events.
use vstd::prelude::*;
use crate::codec::{parse_u32v, parse_u8, ser_u32v, ser_u8, DecodeError, Field};
use crate::direction::Direction;
use crate::handler::{handler_wf, Handler};
use crate::mapping::IdShift;
use crate::packet_ids;
use crate::translator::Translator;
use crate::wrapper::{pass, put, dropped, PacketWrapper, WireState};

verus! {

/// Whether a packet going `direction` moves from the older version to the
/// newer one.
pub open spec fn spec_going_to_newer(client_is_newer: bool, direction: Direction) -> bool {
    match direction {
        Direction::Clientbound => client_is_newer,
        Direction::Serverbound => !client_is_newer,
    }
}

fn going_to_newer(client_is_newer: bool, direction: Direction) -> (b: bool)
    ensures
        b == spec_going_to_newer(client_is_newer, direction),
{
    match direction {
        Direction::Clientbound => client_is_newer,
        Direction::Serverbound => !client_is_newer,
    }
}

/// Remaps the event id of ActorEvent packets across a block of inserted ids.
#[derive(Debug, Clone, Copy, PartialEq, Eq)]
pub struct ActorEventRewriter {
    pub shift: IdShift,
    pub client_is_newer: bool,
}

/// An ActorEvent after the rewrite: the actor id is kept; the event id (one
/// byte) moves up toward the newer version; toward the older one an event id
/// it does not have drops the packet, any other moves down.
pub open spec fn spec_actor_event(rw: ActorEventRewriter, direction: Direction, st: WireState) -> Option<WireState> {
    match pass(st, Field::UVarInt64) {
        Some(s1) => match parse_u8(s1.rest) {
            Some((e, n)) => {
                let s2 = dropped(s1, n);
                if spec_going_to_newer(rw.client_is_newer, direction) {
                    Some(put(s2, ser_u8((rw.shift.spec_up(e as u32) % 256) as u8)))
                } else if rw.shift.spec_is_inserted(e as u32) {
                    Some(WireState { cancelled: true, ..s2 })
                } else {
                    Some(put(s2, ser_u8((rw.shift.spec_down(e as u32) % 256) as u8)))
                }
            },
            None => None,
        },
        None => None,
    }
}

impl ActorEventRewriter {
    pub fn new(shift: IdShift, client_is_newer: bool) -> (r: ActorEventRewriter)
        ensures
            r == (ActorEventRewriter { shift, client_is_newer }),
    {
        ActorEventRewriter { shift, client_is_newer }
    }

    /// Rewrites one ActorEvent body.
    pub fn actor_event(&self, w: &mut PacketWrapper, direction: Direction) -> (r: Result<(), DecodeError>)
        requires
            old(w).wf(),
            self.shift.wf(),
        ensures
            final(w).wf(),
            match spec_actor_event(*self, direction, old(w)@) {
                Some(st) => r is Ok && final(w)@ == st,
                None => r is Err,
            },
    {
        w.passthrough(Field::UVarInt64)?;
        let event_id = w.read_u8()? as u32;
        if going_to_newer(self.client_is_newer, direction) {
            w.write_u8((self.shift.up(event_id) % 256) as u8);
            return Ok(());
        }
        if self.shift.is_inserted(event_id) {
            w.cancel();
            return Ok(());
        }
        w.write_u8((self.shift.down(event_id) % 256) as u8);
        Ok(())
    }

    /// Registers the ActorEvent rewrite for clientbound packets of `step`.
    pub fn register(self, step: Translator) -> (t: Translator)
        requires
            step.wf(),
            self.shift.wf(),
            !step.handlers(Direction::Clientbound).contains_key(packet_ids::ACTOR_EVENT),
        ensures
            t.wf(),
            t.name == step.name,
            t.server_protocol == step.server_protocol,
            t.client_protocol == step.client_protocol,
            t.handlers(Direction::Clientbound) == step.handlers(Direction::Clientbound).insert(
                packet_ids::ACTOR_EVENT,
                Handler::ActorEvent(self, Direction::Clientbound),
            ),
            t.handlers(Direction::Serverbound) == step.handlers(Direction::Serverbound),
            forall|d: Direction| #[trigger] t.cancels(d) == step.cancels(d),
    {
        step.clientbound(packet_ids::ACTOR_EVENT, Handler::ActorEvent(self, Direction::Clientbound))
    }
}

/// Remaps sound event ids across a block of inserted ids.
#[derive(Debug, Clone, Copy, PartialEq, Eq)]
pub struct SoundRewriter {
    pub shift: IdShift,
    pub client_is_newer: bool,
    pub sound_key: u32,
    pub dropped_keys: &'static [u32],
    pub skip_level_sound_event: bool,
    pub item_encoding_changed: bool,
}

/// The empty list of dropped actor data keys.
pub open spec fn no_keys() -> &'static [u32] {
    choose|k: &'static [u32]| k@.len() == 0
}

/// A sound id moved to the version the packet goes to.
pub open spec fn spec_remap(rw: SoundRewriter, direction: Direction, id: u32) -> u32 {
    if spec_going_to_newer(rw.client_is_newer, direction) {
        rw.shift.spec_up(id)
    } else {
        rw.shift.spec_down(id)
    }
}

/// A LevelSoundEvent after the rewrite: its leading sound id is remapped and
/// the rest of the body is kept.
pub open spec fn spec_level_sound_event(rw: SoundRewriter, direction: Direction, st: WireState) -> Option<WireState> {
    match parse_u32v(st.rest) {
        Some((id, n)) => Some(put(dropped(st, n), ser_u32v(spec_remap(rw, direction, id)))),
        None => None,
    }
}

impl SoundRewriter {
    pub fn new(shift: IdShift, client_is_newer: bool, sound_key: u32) -> (r: SoundRewriter)
        ensures
            r == (SoundRewriter {
                shift,
                client_is_newer,
                sound_key,
                dropped_keys: no_keys(),
                skip_level_sound_event: false,
                item_encoding_changed: false,
            }),
    {
        let keys: &'static [u32] = &[];
        proof {
            assert(keys@.len() == 0);
            assert(no_keys()@.len() == 0);
            assert(keys@ =~= no_keys()@);
            broadcast use vstd::slice::axiom_slice_ext_equal;
            assert(keys =~= no_keys());
        }
        SoundRewriter {
            shift,
            client_is_newer,
            sound_key,
            dropped_keys: keys,
            skip_level_sound_event: false,
            item_encoding_changed: false,
        }
    }

    /// The same rewriter, leaving LevelSoundEvent to the step itself.
    pub fn without_level_sound_event(self) -> (r: SoundRewriter)
        ensures
            r == (SoundRewriter { skip_level_sound_event: true, ..self }),
    {
        SoundRewriter { skip_level_sound_event: true, ..self }
    }

    /// The same rewriter, for a pair of versions whose item encoding differs.
    pub fn with_item_encoding_change(self) -> (r: SoundRewriter)
        ensures
            r == (SoundRewriter { item_encoding_changed: true, ..self }),
    {
        SoundRewriter { item_encoding_changed: true, ..self }
    }

    /// The same rewriter, with actor data keys that the older version lacks.
    pub fn with_dropped_keys(self, keys: &'static [u32]) -> (r: SoundRewriter)
        ensures
            r == (SoundRewriter { dropped_keys: keys, ..self }),
    {
        SoundRewriter { dropped_keys: keys, ..self }
    }

    /// Moves a sound id to the version the packet goes to.
    pub fn remap(&self, direction: Direction, id: u32) -> (r: u32)
        requires
            self.shift.wf(),
        ensures
            r == spec_remap(*self, direction, id),
    {
        if going_to_newer(self.client_is_newer, direction) {
            self.shift.up(id)
        } else {
            self.shift.down(id)
        }
    }

    /// Rewrites one LevelSoundEvent body.
    pub fn level_sound_event(&self, w: &mut PacketWrapper, direction: Direction) -> (r: Result<(), DecodeError>)
        requires
            old(w).wf(),
            self.shift.wf(),
        ensures
            final(w).wf(),
            match spec_level_sound_event(*self, direction, old(w)@) {
                Some(st) => r is Ok && final(w)@ == st,
                None => r is Err,
            },
    {
        let event_id = w.read_u32v()?;
        w.write_u32v(self.remap(direction, event_id));
        Ok(())
    }

    /// Registers the LevelSoundEvent rewrite for both directions of `step`,
    /// unless the step rewrites that packet itself.
    pub fn register(self, step: Translator) -> (t: Translator)
        requires
            step.wf(),
            self.shift.wf(),
            !self.skip_level_sound_event ==> !step.handlers(Direction::Clientbound).contains_key(
                packet_ids::LEVEL_SOUND_EVENT,
            ),
            !self.skip_level_sound_event ==> !step.handlers(Direction::Serverbound).contains_key(
                packet_ids::LEVEL_SOUND_EVENT,
            ),
        ensures
            t.wf(),
            t.name == step.name,
            t.server_protocol == step.server_protocol,
            t.client_protocol == step.client_protocol,
            forall|d: Direction| #[trigger] t.handlers(d) == if self.skip_level_sound_event {
                step.handlers(d)
            } else {
                step.handlers(d).insert(packet_ids::LEVEL_SOUND_EVENT, Handler::LevelSoundEvent(self, d))
            },
            forall|d: Direction| #[trigger] t.cancels(d) == step.cancels(d),
    {
        if self.skip_level_sound_event {
            return step;
        }
        let step = step.register(
            Direction::Clientbound,
            packet_ids::LEVEL_SOUND_EVENT,
            Handler::LevelSoundEvent(self, Direction::Clientbound),
        );
        let step = step.register(
            Direction::Serverbound,
            packet_ids::LEVEL_SOUND_EVENT,
            Handler::LevelSoundEvent(self, Direction::Serverbound),
        );
        step
    }
}

/// Whether a packet going `direction` reaches the newer version: a
/// clientbound packet when the client is the newer side, a serverbound one
/// when the server is.
pub open spec fn reaches_newer(client_is_newer: bool, direction: Direction) -> bool {
    (direction == Direction::Clientbound && client_is_newer) || (direction == Direction::Serverbound
        && !client_is_newer)
}

/// A sound id moves across the block of sounds the newer version inserts:
/// toward the newer version an id at or past the block's start moves up by
/// the block's size and any other stays; toward the older version an id past
/// the block moves down by its size, and any other (below the block, or one
/// of the inserted sounds, which the older version lacks) stays.
pub proof fn law_sound_remap_moves_across_the_inserted_block(rw: SoundRewriter, direction: Direction, id: u32)
    requires
        rw.shift.wf(),
    ensures
        ({
            let r = spec_remap(rw, direction, id);
            let at = rw.shift.insert_at;
            let n = rw.shift.count;
            &&& reaches_newer(rw.client_is_newer, direction) && id < at ==> r == id
            &&& reaches_newer(rw.client_is_newer, direction) && id >= at && id + n <= u32::MAX ==> r == id + n
            &&& !reaches_newer(rw.client_is_newer, direction) && id < at + n ==> r == id
            &&& !reaches_newer(rw.client_is_newer, direction) && id >= at + n ==> r == id - n
        }),
{
}

/// A sound id taken to the newer version and back is unchanged, and so is
/// an id of the newer version that the older one also has, taken back and
/// forth again.
pub proof fn law_sound_remap_round_trip(rw: SoundRewriter, id: u32)
    requires
        rw.shift.wf(),
        id < rw.shift.insert_at || id + rw.shift.count <= u32::MAX,
    ensures
        ({
            let (up, down) = if rw.client_is_newer {
                (Direction::Clientbound, Direction::Serverbound)
            } else {
                (Direction::Serverbound, Direction::Clientbound)
            };
            spec_remap(rw, down, spec_remap(rw, up, id)) == id
        }),
{
}

/// The event byte an ActorEvent carries once it reaches the other version:
/// toward the newer version an event at or past the inserted block moves up
/// by its size; toward the older version an event past the block moves down
/// by its size; any other event is kept.
pub open spec fn moved_event(rw: ActorEventRewriter, direction: Direction, e: u8) -> u8 {
    let at = rw.shift.insert_at;
    let n = rw.shift.count;
    if reaches_newer(rw.client_is_newer, direction) {
        if e as u32 >= at { ((e as u32 + n) % 256) as u8 } else { e }
    } else {
        if e as u32 >= at + n { (e as u32 - n) as u8 } else { e }
    }
}

/// An ActorEvent keeps its actor id and the rest of its body; its event id
/// moves across the block of events the newer version inserts, and toward
/// the older version an event that only the newer one has drops the packet.
pub proof fn law_actor_event_moves_across_the_inserted_block(
    rw: ActorEventRewriter,
    direction: Direction,
    st: WireState,
    k: nat,
)
    requires
        rw.shift.wf(),
        rw.shift.insert_at + rw.shift.count + 256 <= u32::MAX,
        crate::codec::field_len(Field::UVarInt64, st.rest) == Some(k),
        k < st.rest.len(),
    ensures
        ({
            let e = st.rest[k as int];
            let kept = WireState { rest: st.rest.skip(k + 1int), out: st.out + st.rest.take(k as int), ..st };
            spec_actor_event(rw, direction, st) == if !reaches_newer(rw.client_is_newer, direction)
                && rw.shift.insert_at <= e as u32 && (e as u32) < rw.shift.insert_at + rw.shift.count {
                Some(WireState { cancelled: true, ..kept })
            } else {
                Some(put(kept, ser_u8(moved_event(rw, direction, e))))
            }
        }),
{
    let s1 = pass(st, Field::UVarInt64).unwrap();
    assert(s1.rest =~= st.rest.skip(k as int));
    assert(s1.rest[0] == st.rest[k as int]);
    assert(s1.rest.skip(1) =~= st.rest.skip(k + 1int));
    let e = st.rest[k as int];
    assert(((e as u32 + rw.shift.count) % 0x1_0000_0000) as u32 == e as u32 + rw.shift.count) by {
        assert(e as u32 + rw.shift.count <= u32::MAX);
    }
}

} // verus!
