//! Protocol 898 and protocol 924: nineteen sounds were inserted at 578, and
//! three aim-assist actor data keys exist only in 924.
use vstd::prelude::*;
use crate::direction::Direction;
use crate::handler::Handler;
use crate::mapping::IdShift;
use crate::packet_ids;
use crate::rewriter::SoundRewriter;
use crate::translator::Translator;

verus! {

/// The sounds inserted in protocol 924.
pub open spec fn sound() -> IdShift {
    IdShift { insert_at: 578, count: 19 }
}

/// The actor data key of the heartbeat sound.
pub const HEARTBEAT_KEY: u32 = 126;

/// The actor data keys of aim assist, which protocol 898 lacks.
pub open spec fn aim_assist_keys() -> Seq<u32> {
    seq![136u32, 137, 138]
}

/// The sound rewriter of this step.
pub open spec fn sound_rewriter(client_is_newer: bool, keys: &'static [u32]) -> SoundRewriter {
    SoundRewriter {
        shift: sound(),
        client_is_newer,
        sound_key: HEARTBEAT_KEY,
        dropped_keys: keys,
        skip_level_sound_event: false,
        item_encoding_changed: false,
    }
}

fn make(name: &'static str, server: u32, client: u32, client_is_newer: bool) -> (t: Translator)
    ensures
        t.wf(),
        t.name == name,
        t.server_protocol == server,
        t.client_protocol == client,
        exists|keys: &'static [u32]| keys@ == aim_assist_keys() && forall|d: Direction| #[trigger] t.handlers(d)
            == map![packet_ids::LEVEL_SOUND_EVENT => Handler::LevelSoundEvent(sound_rewriter(client_is_newer, keys), d)],
        forall|d: Direction| #[trigger] t.cancels(d) == Set::<u16>::empty(),
{
    let keys: &'static [u32] = &[136, 137, 138];
    assert(keys@ =~= aim_assist_keys());
    let step = Translator::new(name, server, client);
    let rw = SoundRewriter::new(IdShift::inserted(19, 578), client_is_newer, HEARTBEAT_KEY).with_dropped_keys(keys);
    let step = rw.register(step);
    assert forall|d: Direction| #[trigger] step.handlers(d)
        =~= map![packet_ids::LEVEL_SOUND_EVENT => Handler::LevelSoundEvent(sound_rewriter(client_is_newer, keys), d)] by {}
    step
}

/// Serves a protocol 924 client from a protocol 898 server.
pub fn downgrade() -> (t: Translator)
    ensures
        t.wf(),
        t.name@ == "v924->v898"@,
        t.server_protocol == 898,
        t.client_protocol == 924,
        exists|keys: &'static [u32]| keys@ == aim_assist_keys() && forall|d: Direction| #[trigger] t.handlers(d)
            == map![packet_ids::LEVEL_SOUND_EVENT => Handler::LevelSoundEvent(sound_rewriter(true, keys), d)],
        forall|d: Direction| #[trigger] t.cancels(d) == Set::<u16>::empty(),
{
    make("v924->v898", 898, 924, true)
}

/// Serves a protocol 898 client from a protocol 924 server.
pub fn upgrade() -> (t: Translator)
    ensures
        t.wf(),
        t.name@ == "v898->v924"@,
        t.server_protocol == 924,
        t.client_protocol == 898,
        exists|keys: &'static [u32]| keys@ == aim_assist_keys() && forall|d: Direction| #[trigger] t.handlers(d)
            == map![packet_ids::LEVEL_SOUND_EVENT => Handler::LevelSoundEvent(sound_rewriter(false, keys), d)],
        forall|d: Direction| #[trigger] t.cancels(d) == Set::<u16>::empty(),
{
    make("v898->v924", 924, 898, false)
}

} // verus!
