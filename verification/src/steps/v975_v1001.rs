//! Protocol 975 and protocol 1001: the boss event became one flat record,
//! sounds are named rather than numbered, inventory actions changed their
//! window id, and sub-chunk requests and blob-cache status changed shape.
use vstd::prelude::*;
use crate::codec::{
    lemma_take_fixed, lemma_take_i64v, lemma_take_str, lemma_take_u32v, lemma_take_u8, ser_i64v,
    ser_str, ser_u32v, ser_u8, take_fixed, take_i64v, take_str, take_u32v, take_u8, two32, zeros,
    DecodeError,
};
use crate::codec::{
    from_le32, le32, le32_bytes, lemma_le32_round_trip, lemma_take_i32v, ser_i32v, take_i32v,
    u32_from_le, Field, ser_bool,
};
use crate::sound_events::{bytes_map, id_map, id_to_name, name_bytes_to_id, SoundTable};
use crate::direction::Direction;
use crate::handler::Handler;
use crate::packet_ids;
use crate::translator::Translator;
use crate::wrapper::{pass_fields, pass_list, put, PacketWrapper, WireState};
use vstd::utf8::{encode_utf8, encode_utf8_decode_utf8};

verus! {

pub const BOSS_SHOW: u32 = 0;
pub const BOSS_REGISTER_PLAYER: u32 = 1;
pub const BOSS_HIDE: u32 = 2;
pub const BOSS_UNREGISTER_PLAYER: u32 = 3;
pub const BOSS_HEALTH_PERCENTAGE: u32 = 4;
pub const BOSS_TITLE: u32 = 5;
pub const BOSS_APPEARANCE_PROPERTIES: u32 = 6;
pub const BOSS_TEXTURE: u32 = 7;
pub const BOSS_REQUEST: u32 = 8;

/// A boss event, with every field either layout can carry. The health is
/// the four bytes of a little-endian float.
pub struct Boss {
    pub boss_id: i64,
    pub player_id: i64,
    pub event: u32,
    pub title: Seq<u8>,
    pub filtered: Seq<u8>,
    pub health: Seq<u8>,
    pub colour: u32,
    pub overlay: u32,
}

/// A boss event whose fields but the id and kind are at their zero values.
pub open spec fn boss_blank(boss_id: i64, event: u32) -> Boss {
    Boss {
        boss_id,
        player_id: 0,
        event,
        title: Seq::empty(),
        filtered: Seq::empty(),
        health: zeros(4),
        colour: 0,
        overlay: 0,
    }
}

/// The event kinds that carry a player id.
pub open spec fn has_player(event: u32) -> bool {
    event == BOSS_REGISTER_PLAYER || event == BOSS_UNREGISTER_PLAYER || event == BOSS_REQUEST
}

/// The fields of a protocol-975 boss event after its id and kind, read into
/// `b`: the titles, the health, an unused 16-bit value, the colour and the
/// overlay, as far as the kind carries them.
pub open spec fn take_payload_v975(b: Boss, s: Seq<u8>) -> Option<(Boss, Seq<u8>)> {
    let e = b.event;
    if e == BOSS_SHOW {
        match take_str(s) {
            Some((t, s1)) => match take_str(s1) {
                Some((f, s2)) => match take_fixed(4, s2) {
                    Some((h, s3)) => match take_fixed(2, s3) {
                        Some((_, s4)) => match take_u32v(s4) {
                            Some((c, s5)) => match take_u32v(s5) {
                                Some((o, s6)) => Some((
                                    Boss { title: t, filtered: f, health: h, colour: c, overlay: o, ..b },
                                    s6,
                                )),
                                None => None,
                            },
                            None => None,
                        },
                        None => None,
                    },
                    None => None,
                },
                None => None,
            },
            None => None,
        }
    } else if has_player(e) {
        match take_i64v(s) {
            Some((p, s1)) => Some((Boss { player_id: p, ..b }, s1)),
            None => None,
        }
    } else if e == BOSS_HEALTH_PERCENTAGE {
        match take_fixed(4, s) {
            Some((h, s1)) => Some((Boss { health: h, ..b }, s1)),
            None => None,
        }
    } else if e == BOSS_TITLE {
        match take_str(s) {
            Some((t, s1)) => match take_str(s1) {
                Some((f, s2)) => Some((Boss { title: t, filtered: f, ..b }, s2)),
                None => None,
            },
            None => None,
        }
    } else if e == BOSS_APPEARANCE_PROPERTIES || e == BOSS_TEXTURE {
        let s0 = if e == BOSS_APPEARANCE_PROPERTIES {
            match take_fixed(2, s) { Some((_, r)) => Some(r), None => None }
        } else {
            Some(s)
        };
        match s0 {
            Some(s1) => match take_u32v(s1) {
                Some((c, s2)) => match take_u32v(s2) {
                    Some((o, s3)) => Some((Boss { colour: c, overlay: o, ..b }, s3)),
                    None => None,
                },
                None => None,
            },
            None => None,
        }
    } else {
        Some((b, s))
    }
}

/// A whole protocol-975 boss event: the id, the kind as a 32-bit
/// variable-length integer, the kind's fields, and nothing after them.
pub open spec fn decode_boss_v975(s: Seq<u8>) -> Option<Boss> {
    match take_i64v(s) {
        Some((id, s1)) => match take_u32v(s1) {
            Some((e, s2)) => match take_payload_v975(boss_blank(id, e), s2) {
                Some((b, rest)) => if rest.len() == 0 { Some(b) } else { None },
                None => None,
            },
            None => None,
        },
        None => None,
    }
}

/// The bytes of a protocol-975 boss event: only the fields its kind carries,
/// with the unused 16-bit value written as zero.
pub open spec fn layout_v975(b: Boss) -> Seq<u8> {
    let e = b.event;
    let appearance = ser_u32v(b.colour) + ser_u32v(b.overlay);
    ser_i64v(b.boss_id) + ser_u32v(e) + if e == BOSS_SHOW {
        ser_str(b.title) + ser_str(b.filtered) + b.health + zeros(2) + appearance
    } else if has_player(e) {
        ser_i64v(b.player_id)
    } else if e == BOSS_HEALTH_PERCENTAGE {
        b.health
    } else if e == BOSS_TITLE {
        ser_str(b.title) + ser_str(b.filtered)
    } else if e == BOSS_APPEARANCE_PROPERTIES {
        zeros(2) + appearance
    } else if e == BOSS_TEXTURE {
        appearance
    } else {
        Seq::empty()
    }
}

/// A whole protocol-1001 boss event: the id, the player id, the kind as a
/// byte, both titles, the health, the colour and overlay as bytes.
pub open spec fn decode_boss_v1001(s: Seq<u8>) -> Option<Boss> {
    match take_i64v(s) {
        Some((id, s1)) => match take_i64v(s1) {
            Some((p, s2)) => match take_u8(s2) {
                Some((e, s3)) => match take_str(s3) {
                    Some((t, s4)) => match take_str(s4) {
                        Some((f, s5)) => match take_fixed(4, s5) {
                            Some((h, s6)) => match take_u8(s6) {
                                Some((c, s7)) => match take_u8(s7) {
                                    Some((o, s8)) => if s8.len() == 0 {
                                        Some(Boss {
                                            boss_id: id,
                                            player_id: p,
                                            event: e as u32,
                                            title: t,
                                            filtered: f,
                                            health: h,
                                            colour: c as u32,
                                            overlay: o as u32,
                                        })
                                    } else {
                                        None
                                    },
                                    None => None,
                                },
                                None => None,
                            },
                            None => None,
                        },
                        None => None,
                    },
                    None => None,
                },
                None => None,
            },
            None => None,
        },
        None => None,
    }
}

/// The bytes of a protocol-1001 boss event; the kind, colour and overlay
/// keep their low eight bits.
pub open spec fn layout_v1001(b: Boss) -> Seq<u8> {
    ser_i64v(b.boss_id) + ser_i64v(b.player_id) + ser_u8(b.event as u8) + ser_str(b.title)
        + ser_str(b.filtered) + b.health + ser_u8(b.colour as u8) + ser_u8(b.overlay as u8)
}

/// Colour 6 of protocol 975 is colour 7 of protocol 1001.
pub open spec fn spec_colour_to_v1001(colour: u32) -> u8 {
    if colour == 6 { 7 } else { (colour % 256) as u8 }
}

pub open spec fn spec_colour_to_v975(colour: u32) -> u8 {
    if colour == 7 { 6 } else { (colour % 256) as u8 }
}

fn colour_to_v1001(colour: u32) -> (c: u8)
    ensures
        c == spec_colour_to_v1001(colour),
{
    assert(colour & 0xff == colour % 256) by (bit_vector);
    if colour == 6 { 7 } else { (colour & 0xff) as u8 }
}

fn colour_to_v975(colour: u32) -> (c: u8)
    ensures
        c == spec_colour_to_v975(colour),
{
    assert(colour & 0xff == colour % 256) by (bit_vector);
    if colour == 7 { 6 } else { (colour & 0xff) as u8 }
}

/// What a protocol-975 boss event becomes in protocol 1001.
pub open spec fn boss_to_v1001(b: Boss) -> Boss {
    Boss { colour: spec_colour_to_v1001(b.colour) as u32, overlay: b.overlay % 256, ..b }
}

/// What a protocol-1001 boss event becomes in protocol 975.
pub open spec fn boss_to_v975(b: Boss) -> Boss {
    Boss { colour: spec_colour_to_v975(b.colour) as u32, ..b }
}

/// BossEvent: the whole body is read in one layout and written in the
/// other; a body with bytes left over is refused.
pub open spec fn spec_boss_event(st: WireState, to_v1001: bool) -> Option<WireState> {
    let decoded = if to_v1001 { decode_boss_v975(st.rest) } else { decode_boss_v1001(st.rest) };
    match decoded {
        Some(b) => Some(WireState {
            rest: Seq::empty(),
            out: st.out + if to_v1001 { layout_v1001(boss_to_v1001(b)) } else {
                layout_v975(boss_to_v975(b))
            },
            cancelled: st.cancelled,
        }),
        None => None,
    }
}

/// The boss event as read, in executable form.
struct BossFields {
    boss_id: i64,
    player_id: i64,
    event: u32,
    title: Vec<u8>,
    filtered: Vec<u8>,
    health: Vec<u8>,
    colour: u32,
    overlay: u32,
}

impl View for BossFields {
    type V = Boss;

    closed spec fn view(&self) -> Boss {
        Boss {
            boss_id: self.boss_id,
            player_id: self.player_id,
            event: self.event,
            title: self.title@,
            filtered: self.filtered@,
            health: self.health@,
            colour: self.colour,
            overlay: self.overlay,
        }
    }
}

fn read_titles(w: &mut PacketWrapper, b: &mut BossFields) -> (r: Result<(), DecodeError>)
    requires
        old(w).wf(),
    ensures
        final(w).wf(),
        match take_str(old(w)@.rest) {
            Some((t, s1)) => match take_str(s1) {
                Some((f, s2)) => r is Ok && final(w)@ == (WireState { rest: s2, ..old(w)@ })
                    && final(b)@ == (Boss { title: t, filtered: f, ..old(b)@ }),
                None => r is Err,
            },
            None => r is Err,
        },
{
    b.title = w.read_str()?;
    b.filtered = w.read_str()?;
    Ok(())
}

fn read_appearance(w: &mut PacketWrapper, b: &mut BossFields) -> (r: Result<(), DecodeError>)
    requires
        old(w).wf(),
    ensures
        final(w).wf(),
        match take_u32v(old(w)@.rest) {
            Some((c, s1)) => match take_u32v(s1) {
                Some((o, s2)) => r is Ok && final(w)@ == (WireState { rest: s2, ..old(w)@ })
                    && final(b)@ == (Boss { colour: c, overlay: o, ..old(b)@ }),
                None => r is Err,
            },
            None => r is Err,
        },
{
    b.colour = w.read_u32v()?;
    b.overlay = w.read_u32v()?;
    Ok(())
}

fn read_payload_v975(w: &mut PacketWrapper, b: &mut BossFields) -> (r: Result<(), DecodeError>)
    requires
        old(w).wf(),
    ensures
        final(w).wf(),
        match take_payload_v975(old(b)@, old(w)@.rest) {
            Some((nb, rest)) => r is Ok && final(w)@ == (WireState { rest, ..old(w)@ })
                && final(b)@ == nb,
            None => r is Err,
        },
{
    let e = b.event;
    if e == BOSS_SHOW {
        read_titles(w, b)?;
        b.health = w.read_fixed(4)?;
        w.read_fixed(2)?;
        read_appearance(w, b)?;
    } else if e == BOSS_REGISTER_PLAYER || e == BOSS_UNREGISTER_PLAYER || e == BOSS_REQUEST {
        b.player_id = w.read_i64v()?;
    } else if e == BOSS_HEALTH_PERCENTAGE {
        b.health = w.read_fixed(4)?;
    } else if e == BOSS_TITLE {
        read_titles(w, b)?;
    } else if e == BOSS_APPEARANCE_PROPERTIES {
        w.read_fixed(2)?;
        read_appearance(w, b)?;
    } else if e == BOSS_TEXTURE {
        read_appearance(w, b)?;
    }
    Ok(())
}

fn write_v1001(w: &mut PacketWrapper, b: &BossFields)
    requires
        old(w).wf(),
        b.title@.len() < two32(),
        b.filtered@.len() < two32(),
    ensures
        final(w).wf(),
        final(w)@ == (WireState { out: old(w)@.out + layout_v1001(b@), ..old(w)@ }),
{
    w.write_i64v(b.boss_id);
    w.write_i64v(b.player_id);
    w.write_u8(b.event as u8);
    w.write_str(b.title.as_slice());
    w.write_str(b.filtered.as_slice());
    w.write_bytes(b.health.as_slice());
    w.write_u8(b.colour as u8);
    w.write_u8(b.overlay as u8);
    assert(w@.out =~= old(w)@.out + layout_v1001(b@));
}

fn write_v975(w: &mut PacketWrapper, b: &BossFields)
    requires
        old(w).wf(),
        b.title@.len() < two32(),
        b.filtered@.len() < two32(),
    ensures
        final(w).wf(),
        final(w)@ == (WireState { out: old(w)@.out + layout_v975(b@), ..old(w)@ }),
{
    let e = b.event;
    w.write_i64v(b.boss_id);
    w.write_u32v(e);
    if e == BOSS_SHOW {
        w.write_str(b.title.as_slice());
        w.write_str(b.filtered.as_slice());
        w.write_bytes(b.health.as_slice());
        w.write_zeros(2);
        w.write_u32v(b.colour);
        w.write_u32v(b.overlay);
    } else if e == BOSS_REGISTER_PLAYER || e == BOSS_UNREGISTER_PLAYER || e == BOSS_REQUEST {
        w.write_i64v(b.player_id);
    } else if e == BOSS_HEALTH_PERCENTAGE {
        w.write_bytes(b.health.as_slice());
    } else if e == BOSS_TITLE {
        w.write_str(b.title.as_slice());
        w.write_str(b.filtered.as_slice());
    } else if e == BOSS_APPEARANCE_PROPERTIES {
        w.write_zeros(2);
        w.write_u32v(b.colour);
        w.write_u32v(b.overlay);
    } else if e == BOSS_TEXTURE {
        w.write_u32v(b.colour);
        w.write_u32v(b.overlay);
    }
    assert(w@.out =~= old(w)@.out + layout_v975(b@));
}

/// BossEvent: protocol 975 writes only the fields an event kind carries;
/// protocol 1001 writes all of them in one record.
pub fn boss_event(w: &mut PacketWrapper, to_v1001: bool) -> (r: Result<(), DecodeError>)
    requires
        old(w).wf(),
    ensures
        final(w).wf(),
        match spec_boss_event(old(w)@, to_v1001) {
            Some(st) => r is Ok && final(w)@ == st,
            None => r is Err,
        },
{
    if to_v1001 {
        let boss_id = w.read_i64v()?;
        let event = w.read_u32v()?;
        let mut b = BossFields {
            boss_id,
            player_id: 0,
            event,
            title: Vec::new(),
            filtered: Vec::new(),
            health: vec![0u8, 0u8, 0u8, 0u8],
            colour: 0,
            overlay: 0,
        };
        assert(b@ == boss_blank(boss_id, event)) by {
            assert(b.health@ =~= zeros(4));
        }
        read_payload_v975(w, &mut b)?;
        if w.has_remaining() {
            return Err(DecodeError);
        }
        b.colour = colour_to_v1001(b.colour) as u32;
        let o = b.overlay;
        b.overlay = o & 0xff;
        assert(o & 0xff == o % 256) by (bit_vector);
        write_v1001(w, &b);
        assert(w@.rest =~= Seq::<u8>::empty());
    } else {
        let boss_id = w.read_i64v()?;
        let player_id = w.read_i64v()?;
        let event = w.read_u8()? as u32;
        let title = w.read_str()?;
        let filtered = w.read_str()?;
        let health = w.read_fixed(4)?;
        let colour = w.read_u8()? as u32;
        let overlay = w.read_u8()? as u32;
        if w.has_remaining() {
            return Err(DecodeError);
        }
        let b = BossFields {
            boss_id,
            player_id,
            event,
            title,
            filtered,
            health,
            colour: colour_to_v975(colour) as u32,
            overlay,
        };
        write_v975(w, &b);
        assert(w@.rest =~= Seq::<u8>::empty());
    }
    Ok(())
}

/// The fields of `b` that its kind carries in protocol 975, the others at
/// their zero values.
pub open spec fn carried_v975(b: Boss) -> Boss {
    let z = boss_blank(b.boss_id, b.event);
    let e = b.event;
    if e == BOSS_SHOW {
        Boss { title: b.title, filtered: b.filtered, health: b.health, colour: b.colour, overlay: b.overlay, ..z }
    } else if has_player(e) {
        Boss { player_id: b.player_id, ..z }
    } else if e == BOSS_HEALTH_PERCENTAGE {
        Boss { health: b.health, ..z }
    } else if e == BOSS_TITLE {
        Boss { title: b.title, filtered: b.filtered, ..z }
    } else if e == BOSS_APPEARANCE_PROPERTIES || e == BOSS_TEXTURE {
        Boss { colour: b.colour, overlay: b.overlay, ..z }
    } else {
        z
    }
}

/// A protocol-975 boss event reads back as the fields its kind carries.
pub proof fn lemma_decode_layout_v975(b: Boss)
    requires
        b.title.len() < two32(),
        b.filtered.len() < two32(),
        b.health.len() == 4,
    ensures
        decode_boss_v975(layout_v975(b)) == Some(carried_v975(b)),
{
    let e = b.event;
    let empty = Seq::<u8>::empty();
    let app = ser_u32v(b.colour) + ser_u32v(b.overlay);
    let payload = if e == BOSS_SHOW {
        ser_str(b.title) + ser_str(b.filtered) + b.health + zeros(2) + app
    } else if has_player(e) {
        ser_i64v(b.player_id)
    } else if e == BOSS_HEALTH_PERCENTAGE {
        b.health
    } else if e == BOSS_TITLE {
        ser_str(b.title) + ser_str(b.filtered)
    } else if e == BOSS_APPEARANCE_PROPERTIES {
        zeros(2) + app
    } else if e == BOSS_TEXTURE {
        app
    } else {
        empty
    };
    assert(layout_v975(b) =~= ser_i64v(b.boss_id) + (ser_u32v(e) + payload));
    lemma_take_i64v(b.boss_id, ser_u32v(e) + payload);
    lemma_take_u32v(e, payload);
    lemma_take_u32v(b.colour, ser_u32v(b.overlay) + empty);
    lemma_take_u32v(b.overlay, empty);
    assert(ser_u32v(b.overlay) + empty =~= ser_u32v(b.overlay));
    assert(app =~= ser_u32v(b.colour) + (ser_u32v(b.overlay) + empty));
    let z = zeros(2);
    assert(z.len() == 2);
    lemma_take_fixed(z, app);
    if e == BOSS_SHOW {
        assert(payload =~= ser_str(b.title) + (ser_str(b.filtered) + (b.health + (z + app))));
        lemma_take_str(b.title, ser_str(b.filtered) + (b.health + (z + app)));
        lemma_take_str(b.filtered, b.health + (z + app));
        lemma_take_fixed(b.health, z + app);
    } else if has_player(e) {
        assert(payload =~= ser_i64v(b.player_id) + empty);
        lemma_take_i64v(b.player_id, empty);
    } else if e == BOSS_HEALTH_PERCENTAGE {
        assert(payload =~= b.health + empty);
        lemma_take_fixed(b.health, empty);
    } else if e == BOSS_TITLE {
        assert(payload =~= ser_str(b.title) + (ser_str(b.filtered) + empty));
        lemma_take_str(b.title, ser_str(b.filtered) + empty);
        lemma_take_str(b.filtered, empty);
    }
}

/// A protocol-1001 boss event whose kind, colour and overlay fit in a byte
/// reads back as itself.
pub proof fn lemma_decode_layout_v1001(b: Boss)
    requires
        b.event < 256,
        b.colour < 256,
        b.overlay < 256,
        b.title.len() < two32(),
        b.filtered.len() < two32(),
        b.health.len() == 4,
    ensures
        decode_boss_v1001(layout_v1001(b)) == Some(b),
{
    let empty = Seq::<u8>::empty();
    let t7 = ser_u8(b.overlay as u8) + empty;
    let t6 = ser_u8(b.colour as u8) + t7;
    let t5 = b.health + t6;
    let t4 = ser_str(b.filtered) + t5;
    let t3 = ser_str(b.title) + t4;
    let t2 = ser_u8(b.event as u8) + t3;
    let t1 = ser_i64v(b.player_id) + t2;
    assert(layout_v1001(b) =~= ser_i64v(b.boss_id) + t1);
    lemma_take_i64v(b.boss_id, t1);
    lemma_take_i64v(b.player_id, t2);
    lemma_take_u8(b.event as u8, t3);
    lemma_take_str(b.title, t4);
    lemma_take_str(b.filtered, t5);
    lemma_take_fixed(b.health, t6);
    lemma_take_u8(b.colour as u8, t7);
    lemma_take_u8(b.overlay as u8, empty);
}

#[verifier::rlimit(80)]
#[verifier::spinoff_prover]
/// A protocol-975 boss event taken to protocol 1001 and back is unchanged,
/// for an event kind, colour and overlay that fit in a byte and a colour
/// other than 7 (protocol 1001's 7 comes back as 6).
pub proof fn law_boss_event_round_trip(b: Boss)
    requires
        b.event < 256,
        b.colour < 256,
        b.colour != 7,
        b.overlay < 256,
        b.title.len() < two32(),
        b.filtered.len() < two32(),
        b.health.len() == 4,
    ensures
        spec_boss_event(crate::wrapper::start(layout_v975(b)), true) matches Some(st1)
            && spec_boss_event(crate::wrapper::start(crate::wrapper::finished(st1)), false) matches Some(st2)
            && crate::wrapper::finished(st2) == layout_v975(b),
{
    let c = carried_v975(b);
    lemma_decode_layout_v975(b);
    let up = boss_to_v1001(c);
    assert(zeros(4).len() == 4);
    lemma_decode_layout_v1001(up);
    let st1 = spec_boss_event(crate::wrapper::start(layout_v975(b)), true).unwrap();
    assert(crate::wrapper::finished(st1) =~= layout_v1001(up));
    let down = boss_to_v975(up);
    assert(down == c);
    let st2 = spec_boss_event(crate::wrapper::start(crate::wrapper::finished(st1)), false).unwrap();
    assert(crate::wrapper::finished(st2) =~= layout_v975(c));
    assert(layout_v975(c) =~= layout_v975(b));
}

pub const SUB_CHUNK_MODE_LIMITLESS: u32 = 0xFFFF_FFFF;
pub const SUB_CHUNK_MODE_LIMITED: u32 = 0xFFFF_FFFE;

/// The chunk position of a LevelChunk: three zig-zag integers.
pub open spec fn chunk_position_fields() -> Seq<Field> {
    seq![Field::VarInt, Field::VarInt, Field::VarInt]
}

/// LevelChunk: after the position, a sub-chunk count that says "limited"
/// carries a 16-bit cap in protocol 975; toward 1001 the cap is dropped and
/// the count says "limitless". Every other count, and the other direction,
/// is kept.
pub open spec fn spec_level_chunk(st: WireState, to_v1001: bool) -> Option<WireState> {
    match pass_fields(st, chunk_position_fields()) {
        Some(s1) => match take_u32v(s1.rest) {
            Some((count, r1)) => if to_v1001 && count == SUB_CHUNK_MODE_LIMITED {
                match take_fixed(2, r1) {
                    Some((_, r2)) => Some(put(WireState { rest: r2, ..s1 }, ser_u32v(SUB_CHUNK_MODE_LIMITLESS))),
                    None => None,
                }
            } else {
                Some(put(WireState { rest: r1, ..s1 }, ser_u32v(count)))
            },
            None => None,
        },
        None => None,
    }
}

pub fn level_chunk(w: &mut PacketWrapper, to_v1001: bool) -> (r: Result<(), DecodeError>)
    requires
        old(w).wf(),
    ensures
        final(w).wf(),
        match spec_level_chunk(old(w)@, to_v1001) {
            Some(st) => r is Ok && final(w)@ == st,
            None => r is Err,
        },
{
    let fs = vec![Field::VarInt, Field::VarInt, Field::VarInt];
    assert(fs@.skip(0) =~= chunk_position_fields());
    w.passthrough_fields(fs.as_slice(), 0)?;
    let count = w.read_u32v()?;
    if to_v1001 && count == SUB_CHUNK_MODE_LIMITED {
        w.read_fixed(2)?;
        w.write_u32v(SUB_CHUNK_MODE_LIMITLESS);
    } else {
        w.write_u32v(count);
    }
    Ok(())
}

/// A LevelChunk whose sub-chunk count is not the "limited" marker passes
/// unchanged in both directions; toward protocol 975 every count does;
/// toward protocol 1001 a "limited" count loses its cap and becomes
/// "limitless".
pub proof fn law_level_chunk_counts(pos: Seq<u8>, count: u32, cap: Seq<u8>, t: Seq<u8>)
    requires
        crate::wrapper::fields_len(chunk_position_fields(), pos) == Some(pos.len()),
        cap.len() == 2,
    ensures
        spec_level_chunk(crate::wrapper::start(pos + ser_u32v(count) + t), false) matches Some(a)
            && crate::wrapper::finished(a) == pos + ser_u32v(count) + t,
        count != SUB_CHUNK_MODE_LIMITED ==> (spec_level_chunk(crate::wrapper::start(pos + ser_u32v(count) + t), true)
            matches Some(b) && crate::wrapper::finished(b) == pos + ser_u32v(count) + t),
        spec_level_chunk(crate::wrapper::start(pos + ser_u32v(SUB_CHUNK_MODE_LIMITED) + cap + t), true) matches Some(c)
            && crate::wrapper::finished(c) == pos + ser_u32v(SUB_CHUNK_MODE_LIMITLESS) + t,
{
    let e = Seq::<u8>::empty();
    crate::wrapper::lemma_pass_fields_replay(chunk_position_fields(), pos, ser_u32v(count) + t, e, false);
    assert(pos.take(pos.len() as int) =~= pos);
    assert(e + pos =~= pos);
    assert(pos + ser_u32v(count) + t =~= pos + (ser_u32v(count) + t));
    lemma_take_u32v(count, t);
    let a = spec_level_chunk(crate::wrapper::start(pos + ser_u32v(count) + t), false).unwrap();
    assert(crate::wrapper::finished(a) =~= pos + ser_u32v(count) + t);
    let m = SUB_CHUNK_MODE_LIMITED;
    crate::wrapper::lemma_pass_fields_replay(chunk_position_fields(), pos, ser_u32v(m) + (cap + t), e, false);
    assert(pos + ser_u32v(m) + cap + t =~= pos + (ser_u32v(m) + (cap + t)));
    lemma_take_u32v(m, cap + t);
    lemma_take_fixed(cap, t);
    let c = spec_level_chunk(crate::wrapper::start(pos + ser_u32v(m) + cap + t), true).unwrap();
    assert(crate::wrapper::finished(c) =~= pos + ser_u32v(SUB_CHUNK_MODE_LIMITLESS) + t);
}

/// SubChunkRequest: the dimension is kept. Protocol 975 writes the centre
/// as three zig-zag integers, then the offset count as four little-endian
/// bytes and three bytes per offset; protocol 1001 writes the count as a
/// variable-length integer, the offsets, then the centre as three
/// little-endian 32-bit integers.
pub open spec fn spec_sub_chunk_request(st: WireState, to_v1001: bool) -> Option<WireState> {
    match crate::wrapper::pass(st, Field::VarInt) {
        Some(s1) => if to_v1001 { sub_chunk_request_up(s1) } else { sub_chunk_request_down(s1) },
        None => None,
    }
}

/// The protocol-975 request fields after the dimension, in protocol-1001 order.
pub open spec fn sub_chunk_request_up(s1: WireState) -> Option<WireState> {
    match take_i32v(s1.rest) {
        Some((x, r1)) => match take_i32v(r1) {
            Some((y, r2)) => match take_i32v(r2) {
                Some((z, r3)) => match take_fixed(4, r3) {
                    Some((cb, r4)) => match take_fixed((from_le32(cb) * 3) as nat, r4) {
                        Some((offsets, r5)) => Some(WireState {
                            rest: r5,
                            out: s1.out + ser_u32v(from_le32(cb)) + offsets + le32(x as u32)
                                + le32(y as u32) + le32(z as u32),
                            ..s1
                        }),
                        None => None,
                    },
                    None => None,
                },
                None => None,
            },
            None => None,
        },
        None => None,
    }
}

/// The protocol-1001 request fields after the dimension, in protocol-975 order.
pub open spec fn sub_chunk_request_down(s1: WireState) -> Option<WireState> {
    match take_u32v(s1.rest) {
        Some((count, r1)) => match take_fixed((count * 3) as nat, r1) {
            Some((offsets, r2)) => match take_fixed(4, r2) {
                Some((xb, r3)) => match take_fixed(4, r3) {
                    Some((yb, r4)) => match take_fixed(4, r4) {
                        Some((zb, r5)) => Some(WireState {
                            rest: r5,
                            out: s1.out + ser_i32v(from_le32(xb) as i32) + ser_i32v(from_le32(yb) as i32)
                                + ser_i32v(from_le32(zb) as i32) + le32(count) + offsets,
                            ..s1
                        }),
                        None => None,
                    },
                    None => None,
                },
                None => None,
            },
            None => None,
        },
        None => None,
    }
}

/// Reads `count` records of `width` bytes.
pub(crate) fn read_records(w: &mut PacketWrapper, count: u32, width: u64) -> (r: Result<Vec<u8>, DecodeError>)
    requires
        old(w).wf(),
        width <= 8,
    ensures
        final(w).wf(),
        match take_fixed((count * width) as nat, old(w)@.rest) {
            Some((v, rest)) => r matches Ok(b) && b@ == v && final(w)@ == (WireState { rest, ..old(w)@ }),
            None => r is Err,
        },
{
    let n: u64 = count as u64 * width;
    if n > w.remaining_len() as u64 {
        return Err(DecodeError);
    }
    w.read_fixed(n as usize)
}

fn sub_chunk_request_to_v1001(w: &mut PacketWrapper) -> (r: Result<(), DecodeError>)
    requires
        old(w).wf(),
    ensures
        final(w).wf(),
        match sub_chunk_request_up(old(w)@) {
            Some(st) => r is Ok && final(w)@ == st,
            None => r is Err,
        },
{
    let x = w.read_i32v()?;
    let y = w.read_i32v()?;
    let z = w.read_i32v()?;
    let cb = w.read_fixed(4)?;
    let count = u32_from_le(cb.as_slice());
    let offsets = read_records(w, count, 3)?;
    w.write_u32v(count);
    w.write_bytes(offsets.as_slice());
    let xb = le32_bytes(x as u32);
    let yb = le32_bytes(y as u32);
    let zb = le32_bytes(z as u32);
    w.write_bytes(xb.as_slice());
    w.write_bytes(yb.as_slice());
    w.write_bytes(zb.as_slice());
    assert(w@.out =~= sub_chunk_request_up(old(w)@).unwrap().out);
    Ok(())
}

fn sub_chunk_request_to_v975(w: &mut PacketWrapper) -> (r: Result<(), DecodeError>)
    requires
        old(w).wf(),
    ensures
        final(w).wf(),
        match sub_chunk_request_down(old(w)@) {
            Some(st) => r is Ok && final(w)@ == st,
            None => r is Err,
        },
{
    let count = w.read_u32v()?;
    let offsets = read_records(w, count, 3)?;
    let xb = w.read_fixed(4)?;
    let yb = w.read_fixed(4)?;
    let zb = w.read_fixed(4)?;
    w.write_i32v(u32_from_le(xb.as_slice()) as i32);
    w.write_i32v(u32_from_le(yb.as_slice()) as i32);
    w.write_i32v(u32_from_le(zb.as_slice()) as i32);
    let cb = le32_bytes(count);
    w.write_bytes(cb.as_slice());
    w.write_bytes(offsets.as_slice());
    assert(w@.out =~= sub_chunk_request_down(old(w)@).unwrap().out);
    Ok(())
}

pub fn sub_chunk_request(w: &mut PacketWrapper, to_v1001: bool) -> (r: Result<(), DecodeError>)
    requires
        old(w).wf(),
    ensures
        final(w).wf(),
        match spec_sub_chunk_request(old(w)@, to_v1001) {
            Some(st) => r is Ok && final(w)@ == st,
            None => r is Err,
        },
{
    w.passthrough(Field::VarInt)?;
    if to_v1001 {
        sub_chunk_request_to_v1001(w)
    } else {
        sub_chunk_request_to_v975(w)
    }
}

/// ClientCacheBlobStatus: protocol 975 writes both counts, then both runs
/// of 8-byte hashes; protocol 1001 writes each count before its run.
pub open spec fn spec_client_cache_blob_status(st: WireState, to_v1001: bool) -> Option<WireState> {
    if to_v1001 {
        match take_u32v(st.rest) {
            Some((miss, r1)) => match take_u32v(r1) {
                Some((hit, r2)) => match take_fixed((miss * 8) as nat, r2) {
                    Some((mh, r3)) => match take_fixed((hit * 8) as nat, r3) {
                        Some((hh, r4)) => Some(WireState {
                            rest: r4,
                            out: st.out + ser_u32v(miss) + mh + ser_u32v(hit) + hh,
                            ..st
                        }),
                        None => None,
                    },
                    None => None,
                },
                None => None,
            },
            None => None,
        }
    } else {
        match take_u32v(st.rest) {
            Some((miss, r1)) => match take_fixed((miss * 8) as nat, r1) {
                Some((mh, r2)) => match take_u32v(r2) {
                    Some((hit, r3)) => match take_fixed((hit * 8) as nat, r3) {
                        Some((hh, r4)) => Some(WireState {
                            rest: r4,
                            out: st.out + ser_u32v(miss) + ser_u32v(hit) + mh + hh,
                            ..st
                        }),
                        None => None,
                    },
                    None => None,
                },
                None => None,
            },
            None => None,
        }
    }
}

pub fn client_cache_blob_status(w: &mut PacketWrapper, to_v1001: bool) -> (r: Result<(), DecodeError>)
    requires
        old(w).wf(),
    ensures
        final(w).wf(),
        match spec_client_cache_blob_status(old(w)@, to_v1001) {
            Some(st) => r is Ok && final(w)@ == st,
            None => r is Err,
        },
{
    if to_v1001 {
        let miss = w.read_u32v()?;
        let hit = w.read_u32v()?;
        let mh = read_records(w, miss, 8)?;
        let hh = read_records(w, hit, 8)?;
        w.write_u32v(miss);
        w.write_bytes(mh.as_slice());
        w.write_u32v(hit);
        w.write_bytes(hh.as_slice());
    } else {
        let miss = w.read_u32v()?;
        let mh = read_records(w, miss, 8)?;
        let hit = w.read_u32v()?;
        let hh = read_records(w, hit, 8)?;
        w.write_u32v(miss);
        w.write_u32v(hit);
        w.write_bytes(mh.as_slice());
        w.write_bytes(hh.as_slice());
    }
    assert(w@.out =~= spec_client_cache_blob_status(old(w)@, to_v1001).unwrap().out);
    Ok(())
}

/// ClientCacheStatus: the client's flag is replaced by "off".
pub open spec fn spec_client_cache_status(st: WireState) -> Option<WireState> {
    match take_u8(st.rest) {
        Some((_, r1)) => Some(put(WireState { rest: r1, ..st }, ser_bool(false))),
        None => None,
    }
}

pub fn client_cache_status(w: &mut PacketWrapper) -> (r: Result<(), DecodeError>)
    requires
        old(w).wf(),
    ensures
        final(w).wf(),
        match spec_client_cache_status(old(w)@) {
            Some(st) => r is Ok && final(w)@ == st,
            None => r is Err,
        },
{
    w.read_bool()?;
    w.write_bool(false);
    Ok(())
}

/// ServerboundDiagnostics toward protocol 975: nine floats, then the lists
/// of memory categories, entities and systems are kept; whatever protocol
/// 1001 added after them is dropped.
pub open spec fn diagnostics_head() -> Seq<Field> {
    seq![Field::Fixed(36)]
}

pub open spec fn memory_record() -> Seq<Field> {
    seq![Field::Byte, Field::Fixed(8)]
}

pub open spec fn entity_record() -> Seq<Field> {
    seq![Field::Str, Field::Str, Field::Fixed(8), Field::Byte]
}

pub open spec fn system_record() -> Seq<Field> {
    seq![Field::Str, Field::Fixed(8), Field::Fixed(8), Field::Byte]
}

pub open spec fn spec_diagnostics(st: WireState) -> Option<WireState> {
    match crate::wrapper::pass(st, Field::Fixed(36)) {
        Some(s1) => match pass_list(s1, memory_record()) {
            Some(s2) => match pass_list(s2, entity_record()) {
                Some(s3) => match pass_list(s3, system_record()) {
                    Some(s4) => Some(WireState { rest: Seq::empty(), ..s4 }),
                    None => None,
                },
                None => None,
            },
            None => None,
        },
        None => None,
    }
}

pub fn diagnostics(w: &mut PacketWrapper) -> (r: Result<(), DecodeError>)
    requires
        old(w).wf(),
    ensures
        final(w).wf(),
        match spec_diagnostics(old(w)@) {
            Some(st) => r is Ok && final(w)@ == st,
            None => r is Err,
        },
{
    w.passthrough(Field::Fixed(36))?;
    let memory = vec![Field::Byte, Field::Fixed(8)];
    assert(memory@ =~= memory_record());
    w.passthrough_list(memory.as_slice())?;
    let entity = vec![Field::Str, Field::Str, Field::Fixed(8), Field::Byte];
    assert(entity@ =~= entity_record());
    w.passthrough_list(entity.as_slice())?;
    let system = vec![Field::Str, Field::Fixed(8), Field::Fixed(8), Field::Byte];
    assert(system@ =~= system_record());
    w.passthrough_list(system.as_slice())?;
    w.skip_rest();
    Ok(())
}

/// The name protocol 1001 gives sound `id`: the UTF-8 bytes of its name in
/// the table, or nothing when the table has none.
pub open spec fn sound_name_bytes(sounds: Seq<(u32, Seq<char>)>, id: u32) -> Seq<u8> {
    if id_map(sounds).dom().contains(id) { encode_utf8(id_map(sounds)[id]) } else { Seq::empty() }
}

/// The id protocol 975 gives the sound named by `name`: its id in the
/// table, or 0 when the table has none.
pub open spec fn sound_id_of(sounds: Seq<(u32, Seq<char>)>, name: Seq<u8>) -> u32 {
    if bytes_map(sounds).dom().contains(name) { bytes_map(sounds)[name] } else { 0 }
}

/// LevelSoundEvent: protocol 975 numbers the sound, protocol 1001 names it;
/// the table `sounds` gives one for the other. The rest is kept.
pub open spec fn spec_level_sound_event(st: WireState, sounds: Seq<(u32, Seq<char>)>, to_v1001: bool) -> Option<WireState> {
    if to_v1001 {
        match take_u32v(st.rest) {
            Some((id, r1)) => if sound_name_bytes(sounds, id).len() < two32() {
                Some(put(WireState { rest: r1, ..st }, ser_str(sound_name_bytes(sounds, id))))
            } else {
                None
            },
            None => None,
        }
    } else {
        match take_str(st.rest) {
            Some((name, r1)) => Some(put(WireState { rest: r1, ..st }, ser_u32v(sound_id_of(sounds, name)))),
            None => None,
        }
    }
}

pub fn level_sound_event(w: &mut PacketWrapper, sounds: &SoundTable, to_v1001: bool) -> (r: Result<(), DecodeError>)
    requires
        old(w).wf(),
        sounds.wf(),
    ensures
        final(w).wf(),
        match spec_level_sound_event(old(w)@, sounds@, to_v1001) {
            Some(st) => r is Ok && final(w)@ == st,
            None => r is Err,
        },
{
    if to_v1001 {
        let id = w.read_u32v()?;
        let name: &[u8] = match id_to_name(sounds, id) {
            Some(n) => n.as_bytes(),
            None => &[],
        };
        assert(name@ =~= sound_name_bytes(sounds@, id));
        if name.len() as u64 > 0xffff_ffff {
            return Err(DecodeError);
        }
        w.write_str(name);
    } else {
        let name = w.read_str()?;
        let id = match name_bytes_to_id(sounds, name.as_slice()) {
            Some(id) => id,
            None => 0,
        };
        w.write_u32v(id);
    }
    Ok(())
}

/// A protocol-975 sub-chunk request taken to protocol 1001 and back is
/// unchanged.
#[verifier::rlimit(60)]
#[verifier::spinoff_prover]
pub proof fn law_sub_chunk_request_round_trip(dim: i32, x: i32, y: i32, z: i32, offsets: Seq<u8>, tail: Seq<u8>)
    requires
        offsets.len() % 3 == 0,
        offsets.len() / 3 <= u32::MAX,
    ensures
        ({
            let count = (offsets.len() / 3) as u32;
            let v975 = ser_i32v(dim) + ser_i32v(x) + ser_i32v(y) + ser_i32v(z) + le32(count) + offsets + tail;
            spec_sub_chunk_request(crate::wrapper::start(v975), true) matches Some(st1)
                && spec_sub_chunk_request(crate::wrapper::start(crate::wrapper::finished(st1)), false) matches Some(st2)
                && crate::wrapper::finished(st2) == v975
        }),
{
    let count = (offsets.len() / 3) as u32;
    let c = le32(count);
    let v975 = ser_i32v(dim) + ser_i32v(x) + ser_i32v(y) + ser_i32v(z) + c + offsets + tail;
    let empty = Seq::<u8>::empty();
    lemma_le32_round_trip(count, c);
    lemma_le32_round_trip(x as u32, c);
    lemma_le32_round_trip(y as u32, c);
    lemma_le32_round_trip(z as u32, c);
    assert((x as u32) as i32 == x) by (bit_vector);
    assert((y as u32) as i32 == y) by (bit_vector);
    assert((z as u32) as i32 == z) by (bit_vector);
    // Up.
    let t1 = ser_i32v(x) + (ser_i32v(y) + (ser_i32v(z) + (c + (offsets + tail))));
    assert(v975 =~= ser_i32v(dim) + t1);
    crate::codec::lemma_i32v_round_trip(dim, t1);
    assert(crate::codec::field_len(Field::VarInt, v975) == Some(ser_i32v(dim).len()));
    let s1 = crate::wrapper::copied(crate::wrapper::start(v975), ser_i32v(dim).len());
    assert(s1.rest =~= t1);
    assert(s1.out =~= ser_i32v(dim));
    lemma_take_i32v(x, ser_i32v(y) + (ser_i32v(z) + (c + (offsets + tail))));
    lemma_take_i32v(y, ser_i32v(z) + (c + (offsets + tail)));
    lemma_take_i32v(z, c + (offsets + tail));
    lemma_take_fixed(c, offsets + tail);
    assert(offsets.len() == count * 3);
    lemma_take_fixed(offsets, tail);
    let st1 = spec_sub_chunk_request(crate::wrapper::start(v975), true).unwrap();
    let v1001 = crate::wrapper::finished(st1);
    let lx = le32(x as u32);
    let ly = le32(y as u32);
    let lz = le32(z as u32);
    assert(v1001 =~= ser_i32v(dim) + (ser_u32v(count) + (offsets + (lx + (ly + (lz + tail))))));
    // Down.
    let t2 = ser_u32v(count) + (offsets + (lx + (ly + (lz + tail))));
    crate::codec::lemma_i32v_round_trip(dim, t2);
    let s2 = crate::wrapper::copied(crate::wrapper::start(v1001), ser_i32v(dim).len());
    assert(s2.rest =~= t2);
    assert(s2.out =~= ser_i32v(dim));
    lemma_take_u32v(count, offsets + (lx + (ly + (lz + tail))));
    lemma_take_fixed(offsets, lx + (ly + (lz + tail)));
    lemma_take_fixed(lx, ly + (lz + tail));
    lemma_take_fixed(ly, lz + tail);
    lemma_take_fixed(lz, tail);
    let st2 = spec_sub_chunk_request(crate::wrapper::start(v1001), false).unwrap();
    assert(crate::wrapper::finished(st2) =~= v975);
}

/// A protocol-975 blob-cache status taken to protocol 1001 and back is
/// unchanged.
pub proof fn law_client_cache_blob_status_round_trip(miss: u32, hit: u32, mh: Seq<u8>, hh: Seq<u8>, tail: Seq<u8>)
    requires
        mh.len() == miss * 8,
        hh.len() == hit * 8,
    ensures
        ({
            let v975 = ser_u32v(miss) + ser_u32v(hit) + mh + hh + tail;
            spec_client_cache_blob_status(crate::wrapper::start(v975), true) matches Some(st1)
                && spec_client_cache_blob_status(crate::wrapper::start(crate::wrapper::finished(st1)), false) matches Some(st2)
                && crate::wrapper::finished(st2) == v975
        }),
{
    let v975 = ser_u32v(miss) + ser_u32v(hit) + mh + hh + tail;
    assert(v975 =~= ser_u32v(miss) + (ser_u32v(hit) + (mh + (hh + tail))));
    lemma_take_u32v(miss, ser_u32v(hit) + (mh + (hh + tail)));
    lemma_take_u32v(hit, mh + (hh + tail));
    lemma_take_fixed(mh, hh + tail);
    lemma_take_fixed(hh, tail);
    let st1 = spec_client_cache_blob_status(crate::wrapper::start(v975), true).unwrap();
    let v1001 = crate::wrapper::finished(st1);
    assert(v1001 =~= ser_u32v(miss) + (mh + (ser_u32v(hit) + (hh + tail))));
    lemma_take_u32v(miss, mh + (ser_u32v(hit) + (hh + tail)));
    lemma_take_fixed(mh, ser_u32v(hit) + (hh + tail));
    lemma_take_u32v(hit, hh + tail);
    let st2 = spec_client_cache_blob_status(crate::wrapper::start(v1001), false).unwrap();
    assert(crate::wrapper::finished(st2) =~= v975);
}

/// Where no two sounds share a name, a numbered sound of the table taken to
/// protocol 1001 and back keeps its number.
pub proof fn law_level_sound_event_round_trip(sounds: Seq<(u32, Seq<char>)>, id: u32, tail: Seq<u8>)
    requires
        forall|a: int, b: int| 0 <= a < b < sounds.len() ==> sounds[a].1 != sounds[b].1,
        forall|k: int| 0 <= k < sounds.len() ==> encode_utf8(#[trigger] sounds[k].1).len() < two32(),
        id_map(sounds).dom().contains(id),
    ensures
        ({
            let v975 = ser_u32v(id) + tail;
            spec_level_sound_event(crate::wrapper::start(v975), sounds, true) matches Some(st1)
                && spec_level_sound_event(crate::wrapper::start(crate::wrapper::finished(st1)), sounds, false) matches Some(st2)
                && crate::wrapper::finished(st2) == v975
        }),
{
    crate::sound_events::lemma_id_map_dom(sounds);
    let k = choose|k: int| 0 <= k < sounds.len() && sounds[k] == (id, id_map(sounds)[id]);
    let name = encode_utf8(id_map(sounds)[id]);
    assert forall|m: int| k < m < sounds.len() implies encode_utf8(sounds[m].1) != encode_utf8(sounds[k].1) by {
        encode_utf8_decode_utf8(sounds[m].1);
        encode_utf8_decode_utf8(sounds[k].1);
    }
    crate::sound_events::lemma_bytes_map_at(sounds, k);
    lemma_take_u32v(id, tail);
    assert(name.len() < two32());
    let st1 = spec_level_sound_event(crate::wrapper::start(ser_u32v(id) + tail), sounds, true).unwrap();
    let v1001 = crate::wrapper::finished(st1);
    assert(v1001 =~= ser_str(name) + tail);
    lemma_take_str(name, tail);
    let st2 = spec_level_sound_event(crate::wrapper::start(v1001), sounds, false).unwrap();
    assert(crate::wrapper::finished(st2) =~= ser_u32v(id) + tail);
}

/// The fixed head of a biome definition: two 16-bit ids, five floats, a
/// 32-bit colour and a flag.
pub open spec fn biome_head() -> Seq<Field> {
    seq![Field::Fixed(2), Field::Fixed(2), Field::Fixed(20), Field::Fixed(4), Field::Byte]
}

/// One biome definition, kept as it is; one that carries chunk generation
/// data (whose layout changed in protocol 1001) is refused.
pub open spec fn spec_biome_entry(st: WireState) -> Option<WireState> {
    match pass_fields(st, biome_head()) {
        Some(s1) => match take_u8(s1.rest) {
            Some((has_tags, _)) => {
                let s2 = crate::wrapper::copied(s1, 1);
                let s3 = if has_tags != 0 { pass_list(s2, seq![Field::Fixed(2)]) } else { Some(s2) };
                match s3 {
                    Some(s3) => match take_u8(s3.rest) {
                        Some((chunk_generation, _)) => if chunk_generation != 0 {
                            None
                        } else {
                            Some(crate::wrapper::copied(s3, 1))
                        },
                        None => None,
                    },
                    None => None,
                }
            },
            None => None,
        },
        None => None,
    }
}

/// `n` biome definitions in turn.
pub open spec fn spec_biome_entries(st: WireState, n: nat) -> Option<WireState>
    decreases n,
{
    if n == 0 {
        Some(st)
    } else {
        match spec_biome_entries(st, (n - 1) as nat) {
            Some(s) => spec_biome_entry(s),
            None => None,
        }
    }
}

/// BiomeDefinitionList: the definitions are the same in both protocols as
/// long as none carries chunk generation data.
pub open spec fn spec_biome_definition_list(st: WireState) -> Option<WireState> {
    match take_u32v(st.rest) {
        Some((count, r1)) => spec_biome_entries(put(WireState { rest: r1, ..st }, ser_u32v(count)), count as nat),
        None => None,
    }
}

fn biome_entry(w: &mut PacketWrapper) -> (r: Result<(), DecodeError>)
    requires
        old(w).wf(),
    ensures
        final(w).wf(),
        match spec_biome_entry(old(w)@) {
            Some(st) => r is Ok && final(w)@ == st,
            None => r is Err,
        },
{
    let head = vec![Field::Fixed(2), Field::Fixed(2), Field::Fixed(20), Field::Fixed(4), Field::Byte];
    assert(head@.skip(0) =~= biome_head());
    w.passthrough_fields(head.as_slice(), 0)?;
    if w.pass_bool()? {
        let tag = vec![Field::Fixed(2)];
        assert(tag@ =~= seq![Field::Fixed(2)]);
        w.passthrough_list(tag.as_slice())?;
    }
    if w.pass_bool()? {
        return Err(DecodeError);
    }
    Ok(())
}

/// A biome definition without chunk generation data: the fixed head, the
/// optional tag list, and the absent chunk generation flag.
pub open spec fn biome_bytes(head: Seq<u8>, tags: Option<Seq<u8>>) -> Seq<u8> {
    head + match tags {
        Some(l) => ser_bool(true) + l,
        None => ser_bool(false),
    } + ser_bool(false)
}

/// A well-formed definition: a 29-byte head and a well-formed tag list.
pub open spec fn biome_ok(b: (Seq<u8>, Option<Seq<u8>>)) -> bool {
    &&& b.0.len() == 29
    &&& (b.1 matches Some(l) ==> crate::wrapper::list_len(seq![Field::Fixed(2)], l) == Some(l.len()))
}

/// Biome definitions one after the other.
pub open spec fn biomes_bytes(bs: Seq<(Seq<u8>, Option<Seq<u8>>)>) -> Seq<u8>
    decreases bs.len(),
{
    if bs.len() == 0 {
        Seq::empty()
    } else {
        biomes_bytes(bs.drop_last()) + biome_bytes(bs.last().0, bs.last().1)
    }
}

#[verifier::rlimit(40)]
#[verifier::spinoff_prover]
proof fn lemma_biome_entry_kept(st: WireState, b: (Seq<u8>, Option<Seq<u8>>), t: Seq<u8>)
    requires
        biome_ok(b),
        st.rest == biome_bytes(b.0, b.1) + t,
    ensures
        spec_biome_entry(st) == Some(WireState { rest: t, out: st.out + biome_bytes(b.0, b.1), ..st }),
{
    let head = b.0;
    reveal_with_fuel(crate::wrapper::fields_len, 6);
    assert(biome_head().drop_first() =~= seq![Field::Fixed(2), Field::Fixed(20), Field::Fixed(4), Field::Byte]);
    assert(biome_head().drop_first().drop_first() =~= seq![Field::Fixed(20), Field::Fixed(4), Field::Byte]);
    assert(biome_head().drop_first().drop_first().drop_first() =~= seq![Field::Fixed(4), Field::Byte]);
    assert(biome_head().drop_first().drop_first().drop_first().drop_first() =~= seq![Field::Byte]);
    assert(seq![Field::Byte].drop_first() =~= Seq::<Field>::empty());
    assert(head.skip(2).skip(2).skip(20).skip(4).len() == 1);
    assert(head.skip(2).skip(2).skip(20).skip(4).skip(1).len() == 0);
    assert(crate::wrapper::fields_len(biome_head(), head) == Some(head.len()));
    let f = ser_bool(false);
    let o = st.out;
    match b.1 {
        Some(l) => {
            let one = ser_bool(true);
            assert(st.rest =~= head + (one + (l + (f + t))));
            crate::wrapper::lemma_pass_fields_replay(biome_head(), head, one + (l + (f + t)), o, st.cancelled);
            assert(head.take(head.len() as int) =~= head);
            let s1 = WireState { rest: one + (l + (f + t)), out: o + head, ..st };
            lemma_take_u8(1u8, l + (f + t));
            assert(one =~= ser_u8(1u8));
            assert(crate::wrapper::copied(s1, 1) == WireState { rest: l + (f + t), out: o + head + one, ..st }) by {
                assert(s1.rest.skip(1) =~= l + (f + t));
                assert(s1.rest.take(1) =~= one);
            }
            crate::wrapper::lemma_pass_list_replay(seq![Field::Fixed(2)], l, f + t, o + head + one, st.cancelled);
            assert(l.take(l.len() as int) =~= l);
            let s3 = WireState { rest: f + t, out: o + head + one + l, ..st };
            lemma_take_u8(0u8, t);
            assert(f =~= ser_u8(0u8));
            assert(crate::wrapper::copied(s3, 1) == WireState { rest: t, out: o + head + one + l + f, ..st }) by {
                assert(s3.rest.skip(1) =~= t);
                assert(s3.rest.take(1) =~= f);
            }
            assert(o + head + one + l + f =~= o + biome_bytes(head, b.1));
        },
        None => {
            assert(st.rest =~= head + (f + (f + t)));
            crate::wrapper::lemma_pass_fields_replay(biome_head(), head, f + (f + t), o, st.cancelled);
            assert(head.take(head.len() as int) =~= head);
            let s1 = WireState { rest: f + (f + t), out: o + head, ..st };
            lemma_take_u8(0u8, f + t);
            lemma_take_u8(0u8, t);
            assert(f =~= ser_u8(0u8));
            assert(crate::wrapper::copied(s1, 1) == WireState { rest: f + t, out: o + head + f, ..st }) by {
                assert(s1.rest.skip(1) =~= f + t);
                assert(s1.rest.take(1) =~= f);
            }
            let s3 = WireState { rest: f + t, out: o + head + f, ..st };
            assert(crate::wrapper::copied(s3, 1) == WireState { rest: t, out: o + head + f + f, ..st }) by {
                assert(s3.rest.skip(1) =~= t);
                assert(s3.rest.take(1) =~= f);
            }
            assert(o + head + f + f =~= o + biome_bytes(head, b.1));
        },
    }
}

proof fn lemma_biome_entries_kept(bs: Seq<(Seq<u8>, Option<Seq<u8>>)>, o: Seq<u8>, t: Seq<u8>)
    requires
        forall|i: int| 0 <= i < bs.len() ==> biome_ok(#[trigger] bs[i]),
    ensures
        spec_biome_entries(WireState { rest: biomes_bytes(bs) + t, out: o, cancelled: false }, bs.len())
            == Some(WireState { rest: t, out: o + biomes_bytes(bs), cancelled: false }),
    decreases bs.len(),
{
    if bs.len() == 0 {
        assert(o + Seq::<u8>::empty() =~= o);
        assert(Seq::<u8>::empty() + t =~= t);
    } else {
        let p = bs.drop_last();
        let b = bs.last();
        assert(biome_ok(bs[bs.len() - 1]));
        assert forall|i: int| 0 <= i < p.len() implies biome_ok(#[trigger] p[i]) by {
            assert(p[i] == bs[i]);
        }
        let eb = biome_bytes(b.0, b.1);
        lemma_biome_entries_kept(p, o, eb + t);
        assert(biomes_bytes(bs) + t =~= biomes_bytes(p) + (eb + t));
        lemma_biome_entry_kept(WireState { rest: eb + t, out: o + biomes_bytes(p), cancelled: false }, b, t);
        assert(o + biomes_bytes(p) + eb =~= o + biomes_bytes(bs));
    }
}

/// A BiomeDefinitionList without chunk generation data passes unchanged.
pub proof fn law_biome_definition_list_kept(bs: Seq<(Seq<u8>, Option<Seq<u8>>)>, t: Seq<u8>)
    requires
        bs.len() <= u32::MAX,
        forall|i: int| 0 <= i < bs.len() ==> biome_ok(#[trigger] bs[i]),
    ensures
        ({
            let x = ser_u32v(bs.len() as u32) + biomes_bytes(bs) + t;
            spec_biome_definition_list(crate::wrapper::start(x)) matches Some(a) && crate::wrapper::finished(a) == x
        }),
{
    let n = ser_u32v(bs.len() as u32);
    let x = n + biomes_bytes(bs) + t;
    assert(x =~= n + (biomes_bytes(bs) + t));
    lemma_take_u32v(bs.len() as u32, biomes_bytes(bs) + t);
    assert(Seq::<u8>::empty() + n =~= n);
    lemma_biome_entries_kept(bs, n, t);
    let a = spec_biome_definition_list(crate::wrapper::start(x)).unwrap();
    assert(crate::wrapper::finished(a) =~= x);
}

pub fn biome_definition_list(w: &mut PacketWrapper) -> (r: Result<(), DecodeError>)
    requires
        old(w).wf(),
    ensures
        final(w).wf(),
        match spec_biome_definition_list(old(w)@) {
            Some(st) => r is Ok && final(w)@ == st,
            None => r is Err,
        },
{
    let count = w.read_u32v()?;
    w.write_u32v(count);
    let ghost s0 = w@;
    let mut i: u32 = 0;
    while i < count
        invariant
            w.wf(),
            i <= count,
            spec_biome_entries(s0, i as nat) == Some(w@),
            spec_biome_definition_list(old(w)@) == spec_biome_entries(s0, count as nat),
        decreases count - i,
    {
        match biome_entry(w) {
            Ok(()) => {},
            Err(e) => {
                proof {
                    lemma_biome_entries_stuck(s0, (i + 1) as nat, count as nat);
                }
                return Err(e);
            },
        }
        i = i + 1;
    }
    Ok(())
}

proof fn lemma_biome_entries_stuck(st: WireState, i: nat, n: nat)
    requires
        i <= n,
        spec_biome_entries(st, i) is None,
    ensures
        spec_biome_entries(st, n) is None,
    decreases n - i,
{
    if i < n {
        lemma_biome_entries_stuck(st, i + 1, n);
    }
}

// ---------------------------------------------------------------------------
// The steps.

/// The handlers of a step between 975 and 1001: `client_is_1001` when the
/// client speaks 1001; `blob_cache` when clients may keep the blob cache.
pub open spec fn step_handlers(client_is_1001: bool, blob_cache: bool) -> (Map<u16, Handler>, Map<u16, Handler>) {
    let cb = client_is_1001;
    let sb = !client_is_1001;
    let serverbound = map![
        packet_ids::LEVEL_SOUND_EVENT => Handler::SoundName(sb),
        packet_ids::CLIENT_CACHE_BLOB_STATUS => Handler::ClientCacheBlobStatus(sb),
        packet_ids::SUB_CHUNK_REQUEST => Handler::SubChunkRequest(sb),
        packet_ids::BOSS_EVENT => Handler::BossEvent(sb),
    ];
    let serverbound = if !blob_cache {
        serverbound.insert(packet_ids::CLIENT_CACHE_STATUS, Handler::ClientCacheStatusOff)
    } else {
        serverbound
    };
    let serverbound = if client_is_1001 {
        serverbound.insert(packet_ids::SERVERBOUND_DIAGNOSTICS, Handler::DiagnosticsTrim)
    } else {
        serverbound
    };
    (
        map![
            packet_ids::BIOME_DEFINITION_LIST => Handler::BiomeDefinitionList,
            packet_ids::LEVEL_CHUNK => Handler::LevelChunkCap(cb),
            packet_ids::LEVEL_SOUND_EVENT => Handler::SoundName(cb),
            packet_ids::BOSS_EVENT => Handler::BossEvent(cb),
        ],
        serverbound,
    )
}

fn make(name: &'static str, server: u32, client: u32, client_is_1001: bool, blob_cache: bool) -> (t: Translator)
    ensures
        t.wf(),
        t.name == name,
        t.server_protocol == server,
        t.client_protocol == client,
        t.handlers(Direction::Clientbound) == step_handlers(client_is_1001, blob_cache).0,
        t.handlers(Direction::Serverbound) == step_handlers(client_is_1001, blob_cache).1,
        t.cancels(Direction::Clientbound) == Set::<u16>::empty(),
        t.cancels(Direction::Serverbound) == Set::<u16>::empty(),
{
    let cb = client_is_1001;
    let sb = !client_is_1001;
    let mut step = Translator::new(name, server, client)
        .clientbound(packet_ids::BIOME_DEFINITION_LIST, Handler::BiomeDefinitionList)
        .clientbound(packet_ids::LEVEL_CHUNK, Handler::LevelChunkCap(cb))
        .clientbound(packet_ids::LEVEL_SOUND_EVENT, Handler::SoundName(cb))
        .clientbound(packet_ids::BOSS_EVENT, Handler::BossEvent(cb))
        .serverbound(packet_ids::LEVEL_SOUND_EVENT, Handler::SoundName(sb))
        .serverbound(packet_ids::CLIENT_CACHE_BLOB_STATUS, Handler::ClientCacheBlobStatus(sb))
        .serverbound(packet_ids::SUB_CHUNK_REQUEST, Handler::SubChunkRequest(sb))
        .serverbound(packet_ids::BOSS_EVENT, Handler::BossEvent(sb));
    if !blob_cache {
        step = step.serverbound(packet_ids::CLIENT_CACHE_STATUS, Handler::ClientCacheStatusOff);
    }
    if client_is_1001 {
        step = step.serverbound(packet_ids::SERVERBOUND_DIAGNOSTICS, Handler::DiagnosticsTrim);
    }
    assert(step.handlers(Direction::Clientbound) =~= step_handlers(client_is_1001, blob_cache).0);
    assert(step.handlers(Direction::Serverbound) =~= step_handlers(client_is_1001, blob_cache).1);
    step
}

/// Serves a protocol 1001 client from a protocol 975 server; `blob_cache`
/// when clients may keep the blob cache.
pub fn downgrade(blob_cache: bool) -> (t: Translator)
    ensures
        t.wf(),
        t.name@ == "v1001->v975"@,
        t.server_protocol == 975,
        t.client_protocol == 1001,
        t.handlers(Direction::Clientbound) == step_handlers(true, blob_cache).0,
        t.handlers(Direction::Serverbound) == step_handlers(true, blob_cache).1,
        t.cancels(Direction::Clientbound) == Set::<u16>::empty(),
        t.cancels(Direction::Serverbound) == Set::<u16>::empty(),
{
    make("v1001->v975", 975, 1001, true, blob_cache)
}

/// Serves a protocol 975 client from a protocol 1001 server.
pub fn upgrade(blob_cache: bool) -> (t: Translator)
    ensures
        t.wf(),
        t.name@ == "v975->v1001"@,
        t.server_protocol == 1001,
        t.client_protocol == 975,
        t.handlers(Direction::Clientbound) == step_handlers(false, blob_cache).0,
        t.handlers(Direction::Serverbound) == step_handlers(false, blob_cache).1,
        t.cancels(Direction::Clientbound) == Set::<u16>::empty(),
        t.cancels(Direction::Serverbound) == Set::<u16>::empty(),
{
    make("v975->v1001", 1001, 975, false, blob_cache)
}

/// Writes the first `n` bytes of `body`.
pub(crate) fn write_head(w: &mut PacketWrapper, body: &[u8], n: usize)
    requires
        old(w).wf(),
        n <= body@.len(),
    ensures
        final(w).wf(),
        final(w)@ == put(old(w)@, body@.take(n as int)),
{
    let mut head: Vec<u8> = Vec::new();
    crate::codec::copy_range(&mut head, body, 0, n);
    w.write_bytes(head.as_slice());
    assert(head@ =~= body@.take(n as int));
}

} // verus!
