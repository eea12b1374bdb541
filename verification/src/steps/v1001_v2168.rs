//! Protocol 1001 and protocol 2168: actor movement deltas trade their flag
//! word for one presence flag per field, player movement always says
//! whether a teleport cause follows, and authoritative input lists its
//! flags instead of packing them into a bit run.
use vstd::prelude::*;
use crate::codec::{
    ser_i64v, take_i64v, ser_u64v, take_u64v,
    lemma_take_fixed, lemma_take_u8, ser_bool, ser_i32v, ser_u32v, ser_u8, take_fixed, take_i32v,
    take_u32v, take_u8, two32, zeros, DecodeError, Field,
};
use crate::steps::v975_v1001::{read_records, SUB_CHUNK_MODE_LIMITED, SUB_CHUNK_MODE_LIMITLESS};
use crate::steps::sub_chunk::SubChunkShape;
use crate::direction::Direction;
use crate::handler::Handler;
use crate::packet_ids;
use crate::connection::texts;
use crate::text::{decimal, hex_list, push_decimal_u64, push_hex_list};
use crate::translator::Translator;
use crate::wrapper::{copied, fields_len, finished, pass, pass_fields, put, start, PacketWrapper, WireState};
use vstd::seq_lib::lemma_concat_associative;

verus! {

pub const MOVE_DELTA_HAS_X: u16 = 1;
pub const MOVE_DELTA_HAS_Y: u16 = 2;
pub const MOVE_DELTA_HAS_Z: u16 = 4;
pub const MOVE_DELTA_HAS_ROT_X: u16 = 8;
pub const MOVE_DELTA_HAS_ROT_Y: u16 = 16;
pub const MOVE_DELTA_HAS_ROT_Z: u16 = 32;
pub const MOVE_DELTA_ON_GROUND: u16 = 64;
pub const MOVE_DELTA_FORCE_MOVE: u16 = 256;

/// The two little-endian bytes of a 16-bit value.
pub open spec fn le16(v: u16) -> Seq<u8> {
    seq![(v % 256) as u8, (v / 256) as u8]
}

/// The 16-bit value of two little-endian bytes.
pub open spec fn from_le16(b: Seq<u8>) -> u16 {
    (b[0] + b[1] * 256) as u16
}

/// The fields of an actor movement delta: each coordinate, if present, as
/// the four bytes of a float; each rotation, if present, as a byte; and two
/// flags.
pub struct MoveDelta {
    pub x: Option<Seq<u8>>,
    pub y: Option<Seq<u8>>,
    pub z: Option<Seq<u8>>,
    pub rot_x: Option<u8>,
    pub rot_y: Option<u8>,
    pub rot_z: Option<u8>,
    pub on_ground: bool,
    pub force_move: bool,
}

/// A coordinate that is present when `present`.
pub open spec fn take_coord(present: bool, s: Seq<u8>) -> Option<(Option<Seq<u8>>, Seq<u8>)> {
    if present {
        match take_fixed(4, s) {
            Some((v, r)) => Some((Some(v), r)),
            None => None,
        }
    } else {
        Some((None, s))
    }
}

/// A rotation that is present when `present`.
pub open spec fn take_rot(present: bool, s: Seq<u8>) -> Option<(Option<u8>, Seq<u8>)> {
    if present {
        match take_u8(s) {
            Some((v, r)) => Some((Some(v), r)),
            None => None,
        }
    } else {
        Some((None, s))
    }
}

/// A protocol-1001 delta: a 16-bit little-endian flag word, then the
/// coordinates and rotations its bits announce.
pub open spec fn take_delta_v1001(s: Seq<u8>) -> Option<(MoveDelta, Seq<u8>)> {
    match take_fixed(2, s) {
        Some((fb, r0)) => {
            let f = from_le16(fb);
            match take_coord(f & MOVE_DELTA_HAS_X != 0, r0) {
                Some((x, r1)) => match take_coord(f & MOVE_DELTA_HAS_Y != 0, r1) {
                    Some((y, r2)) => match take_coord(f & MOVE_DELTA_HAS_Z != 0, r2) {
                        Some((z, r3)) => match take_rot(f & MOVE_DELTA_HAS_ROT_X != 0, r3) {
                            Some((rot_x, r4)) => match take_rot(f & MOVE_DELTA_HAS_ROT_Y != 0, r4) {
                                Some((rot_y, r5)) => match take_rot(f & MOVE_DELTA_HAS_ROT_Z != 0, r5) {
                                    Some((rot_z, r6)) => Some((
                                        MoveDelta {
                                            x,
                                            y,
                                            z,
                                            rot_x,
                                            rot_y,
                                            rot_z,
                                            on_ground: f & MOVE_DELTA_ON_GROUND != 0,
                                            force_move: f & MOVE_DELTA_FORCE_MOVE != 0,
                                        },
                                        r6,
                                    )),
                                    None => None,
                                },
                                None => None,
                            },
                            None => None,
                        },
                        None => None,
                    },
                    None => None,
                },
                None => None,
            }
        },
        None => None,
    }
}

/// A flag announced as present or absent by a boolean byte.
pub open spec fn take_flag(s: Seq<u8>) -> Option<(bool, Seq<u8>)> {
    match take_u8(s) {
        Some((b, r)) => Some((b != 0, r)),
        None => None,
    }
}

pub open spec fn take_opt_coord(s: Seq<u8>) -> Option<(Option<Seq<u8>>, Seq<u8>)> {
    match take_flag(s) {
        Some((present, r)) => take_coord(present, r),
        None => None,
    }
}

pub open spec fn take_opt_rot(s: Seq<u8>) -> Option<(Option<u8>, Seq<u8>)> {
    match take_flag(s) {
        Some((present, r)) => take_rot(present, r),
        None => None,
    }
}

/// A protocol-2168 delta: each coordinate and rotation behind its own
/// presence flag, then the ground and forced-move flags and two flags that
/// protocol 1001 does not have.
pub open spec fn take_delta_v2168(s: Seq<u8>) -> Option<(MoveDelta, Seq<u8>)> {
    match take_opt_coord(s) {
        Some((x, r1)) => match take_opt_coord(r1) {
            Some((y, r2)) => match take_opt_coord(r2) {
                Some((z, r3)) => match take_opt_rot(r3) {
                    Some((rot_x, r4)) => match take_opt_rot(r4) {
                        Some((rot_y, r5)) => match take_opt_rot(r5) {
                            Some((rot_z, r6)) => match take_flag(r6) {
                                Some((on_ground, r7)) => match take_flag(r7) {
                                    Some((force_move, r8)) => match take_flag(r8) {
                                        Some((_, r9)) => match take_flag(r9) {
                                            Some((_, r10)) => Some((
                                                MoveDelta { x, y, z, rot_x, rot_y, rot_z, on_ground, force_move },
                                                r10,
                                            )),
                                            None => None,
                                        },
                                        None => None,
                                    },
                                    None => None,
                                },
                                None => None,
                            },
                            None => None,
                        },
                        None => None,
                    },
                    None => None,
                },
                None => None,
            },
            None => None,
        },
        None => None,
    }
}

pub open spec fn bit(present: bool, mask: u16) -> u16 {
    if present { mask } else { 0 }
}

/// The protocol-1001 flag word of a delta.
pub open spec fn delta_flags(m: MoveDelta) -> u16 {
    bit(m.x is Some, MOVE_DELTA_HAS_X) | bit(m.y is Some, MOVE_DELTA_HAS_Y) | bit(m.z is Some, MOVE_DELTA_HAS_Z)
        | bit(m.rot_x is Some, MOVE_DELTA_HAS_ROT_X) | bit(m.rot_y is Some, MOVE_DELTA_HAS_ROT_Y)
        | bit(m.rot_z is Some, MOVE_DELTA_HAS_ROT_Z) | bit(m.on_ground, MOVE_DELTA_ON_GROUND)
        | bit(m.force_move, MOVE_DELTA_FORCE_MOVE)
}

pub open spec fn some_coord(c: Option<Seq<u8>>) -> Seq<u8> {
    match c {
        Some(v) => v,
        None => Seq::empty(),
    }
}

pub open spec fn some_rot(c: Option<u8>) -> Seq<u8> {
    match c {
        Some(v) => ser_u8(v),
        None => Seq::empty(),
    }
}

/// The bytes of a protocol-1001 delta.
pub open spec fn layout_delta_v1001(m: MoveDelta) -> Seq<u8> {
    le16(delta_flags(m)) + some_coord(m.x) + some_coord(m.y) + some_coord(m.z) + some_rot(m.rot_x)
        + some_rot(m.rot_y) + some_rot(m.rot_z)
}

pub open spec fn opt_coord(c: Option<Seq<u8>>) -> Seq<u8> {
    match c {
        Some(v) => ser_bool(true) + v,
        None => ser_bool(false),
    }
}

pub open spec fn opt_rot(c: Option<u8>) -> Seq<u8> {
    match c {
        Some(v) => ser_bool(true) + ser_u8(v),
        None => ser_bool(false),
    }
}

/// The bytes of a protocol-2168 delta; the two flags protocol 1001 lacks
/// are written as absent.
pub open spec fn layout_delta_v2168(m: MoveDelta) -> Seq<u8> {
    opt_coord(m.x) + opt_coord(m.y) + opt_coord(m.z) + opt_rot(m.rot_x) + opt_rot(m.rot_y) + opt_rot(m.rot_z)
        + ser_bool(m.on_ground) + ser_bool(m.force_move) + ser_bool(false) + ser_bool(false)
}

/// MoveActorDelta: the actor id is kept; the delta is read in one layout
/// and written in the other; the rest is kept.
pub open spec fn spec_move_delta_actor(st: WireState, to_v2168: bool) -> Option<WireState> {
    match pass(st, Field::UVarInt64) {
        Some(s1) => {
            let decoded = if to_v2168 { take_delta_v1001(s1.rest) } else { take_delta_v2168(s1.rest) };
            match decoded {
                Some((m, r)) => Some(put(
                    WireState { rest: r, ..s1 },
                    if to_v2168 { layout_delta_v2168(m) } else { layout_delta_v1001(m) },
                )),
                None => None,
            }
        },
        None => None,
    }
}

/// A delta as read, in executable form.
struct DeltaFields {
    x: Option<Vec<u8>>,
    y: Option<Vec<u8>>,
    z: Option<Vec<u8>>,
    rot_x: Option<u8>,
    rot_y: Option<u8>,
    rot_z: Option<u8>,
    on_ground: bool,
    force_move: bool,
}

pub open spec fn coord_view(c: Option<Vec<u8>>) -> Option<Seq<u8>> {
    match c {
        Some(v) => Some(v@),
        None => None,
    }
}

impl View for DeltaFields {
    type V = MoveDelta;

    closed spec fn view(&self) -> MoveDelta {
        MoveDelta {
            x: coord_view(self.x),
            y: coord_view(self.y),
            z: coord_view(self.z),
            rot_x: self.rot_x,
            rot_y: self.rot_y,
            rot_z: self.rot_z,
            on_ground: self.on_ground,
            force_move: self.force_move,
        }
    }
}

fn read_coord(w: &mut PacketWrapper, present: bool) -> (r: Result<Option<Vec<u8>>, DecodeError>)
    requires
        old(w).wf(),
    ensures
        final(w).wf(),
        match take_coord(present, old(w)@.rest) {
            Some((c, rest)) => r matches Ok(v) && coord_view(v) == c && final(w)@ == (WireState { rest, ..old(w)@ }),
            None => r is Err,
        },
{
    if present {
        let v = w.read_fixed(4)?;
        Ok(Some(v))
    } else {
        Ok(None)
    }
}

fn read_rot(w: &mut PacketWrapper, present: bool) -> (r: Result<Option<u8>, DecodeError>)
    requires
        old(w).wf(),
    ensures
        final(w).wf(),
        match take_rot(present, old(w)@.rest) {
            Some((c, rest)) => r == Ok::<Option<u8>, DecodeError>(c) && final(w)@ == (WireState { rest, ..old(w)@ }),
            None => r is Err,
        },
{
    if present {
        let v = w.read_u8()?;
        Ok(Some(v))
    } else {
        Ok(None)
    }
}

pub(crate) fn read_flag(w: &mut PacketWrapper) -> (r: Result<bool, DecodeError>)
    requires
        old(w).wf(),
    ensures
        final(w).wf(),
        match take_flag(old(w)@.rest) {
            Some((b, rest)) => r == Ok::<bool, DecodeError>(b) && final(w)@ == (WireState { rest, ..old(w)@ }),
            None => r is Err,
        },
{
    w.read_bool()
}

fn read_delta_v1001(w: &mut PacketWrapper) -> (r: Result<DeltaFields, DecodeError>)
    requires
        old(w).wf(),
    ensures
        final(w).wf(),
        match take_delta_v1001(old(w)@.rest) {
            Some((m, rest)) => r matches Ok(d) && d@ == m && final(w)@ == (WireState { rest, ..old(w)@ }),
            None => r is Err,
        },
{
    let fb = w.read_fixed(2)?;
    let f: u16 = (fb[0] as u16) + (fb[1] as u16) * 256;
    assert(f == from_le16(fb@));
    let x = read_coord(w, f & MOVE_DELTA_HAS_X != 0)?;
    let y = read_coord(w, f & MOVE_DELTA_HAS_Y != 0)?;
    let z = read_coord(w, f & MOVE_DELTA_HAS_Z != 0)?;
    let rot_x = read_rot(w, f & MOVE_DELTA_HAS_ROT_X != 0)?;
    let rot_y = read_rot(w, f & MOVE_DELTA_HAS_ROT_Y != 0)?;
    let rot_z = read_rot(w, f & MOVE_DELTA_HAS_ROT_Z != 0)?;
    Ok(DeltaFields {
        x,
        y,
        z,
        rot_x,
        rot_y,
        rot_z,
        on_ground: f & MOVE_DELTA_ON_GROUND != 0,
        force_move: f & MOVE_DELTA_FORCE_MOVE != 0,
    })
}

fn read_opt_coord(w: &mut PacketWrapper) -> (r: Result<Option<Vec<u8>>, DecodeError>)
    requires
        old(w).wf(),
    ensures
        final(w).wf(),
        match take_opt_coord(old(w)@.rest) {
            Some((c, rest)) => r matches Ok(v) && coord_view(v) == c && final(w)@ == (WireState { rest, ..old(w)@ }),
            None => r is Err,
        },
{
    let present = read_flag(w)?;
    read_coord(w, present)
}

fn read_opt_rot(w: &mut PacketWrapper) -> (r: Result<Option<u8>, DecodeError>)
    requires
        old(w).wf(),
    ensures
        final(w).wf(),
        match take_opt_rot(old(w)@.rest) {
            Some((c, rest)) => r == Ok::<Option<u8>, DecodeError>(c) && final(w)@ == (WireState { rest, ..old(w)@ }),
            None => r is Err,
        },
{
    let present = read_flag(w)?;
    read_rot(w, present)
}

fn read_delta_v2168(w: &mut PacketWrapper) -> (r: Result<DeltaFields, DecodeError>)
    requires
        old(w).wf(),
    ensures
        final(w).wf(),
        match take_delta_v2168(old(w)@.rest) {
            Some((m, rest)) => r matches Ok(d) && d@ == m && final(w)@ == (WireState { rest, ..old(w)@ }),
            None => r is Err,
        },
{
    let x = read_opt_coord(w)?;
    let y = read_opt_coord(w)?;
    let z = read_opt_coord(w)?;
    let rot_x = read_opt_rot(w)?;
    let rot_y = read_opt_rot(w)?;
    let rot_z = read_opt_rot(w)?;
    let on_ground = read_flag(w)?;
    let force_move = read_flag(w)?;
    read_flag(w)?;
    read_flag(w)?;
    Ok(DeltaFields { x, y, z, rot_x, rot_y, rot_z, on_ground, force_move })
}

fn write_coord(w: &mut PacketWrapper, c: &Option<Vec<u8>>, flagged: bool)
    requires
        old(w).wf(),
    ensures
        final(w).wf(),
        final(w)@ == put(old(w)@, if flagged { opt_coord(coord_view(*c)) } else { some_coord(coord_view(*c)) }),
{
    match c {
        Some(v) => {
            if flagged {
                w.write_bool(true);
            }
            w.write_bytes(v.as_slice());
        },
        None => {
            if flagged {
                w.write_bool(false);
            }
        },
    }
    assert(w@.out =~= put(old(w)@, if flagged { opt_coord(coord_view(*c)) } else { some_coord(coord_view(*c)) }).out);
}

fn write_rot(w: &mut PacketWrapper, c: Option<u8>, flagged: bool)
    requires
        old(w).wf(),
    ensures
        final(w).wf(),
        final(w)@ == put(old(w)@, if flagged { opt_rot(c) } else { some_rot(c) }),
{
    match c {
        Some(v) => {
            if flagged {
                w.write_bool(true);
            }
            w.write_u8(v);
        },
        None => {
            if flagged {
                w.write_bool(false);
            }
        },
    }
    assert(w@.out =~= put(old(w)@, if flagged { opt_rot(c) } else { some_rot(c) }).out);
}

fn bit_of(present: bool, mask: u16) -> (b: u16)
    ensures
        b == bit(present, mask),
{
    if present { mask } else { 0 }
}

fn flags_of(d: &DeltaFields) -> (f: u16)
    ensures
        f == delta_flags(d@),
{
    bit_of(d.x.is_some(), MOVE_DELTA_HAS_X) | bit_of(d.y.is_some(), MOVE_DELTA_HAS_Y)
        | bit_of(d.z.is_some(), MOVE_DELTA_HAS_Z) | bit_of(d.rot_x.is_some(), MOVE_DELTA_HAS_ROT_X)
        | bit_of(d.rot_y.is_some(), MOVE_DELTA_HAS_ROT_Y) | bit_of(d.rot_z.is_some(), MOVE_DELTA_HAS_ROT_Z)
        | bit_of(d.on_ground, MOVE_DELTA_ON_GROUND) | bit_of(d.force_move, MOVE_DELTA_FORCE_MOVE)
}

#[verifier::spinoff_prover]
#[verifier::rlimit(40)]
fn write_delta_v2168(w: &mut PacketWrapper, d: &DeltaFields)
    requires
        old(w).wf(),
    ensures
        final(w).wf(),
        final(w)@ == put(old(w)@, layout_delta_v2168(d@)),
{
    let ghost m = d@;
    let ghost o = old(w)@.out;
    write_coord(w, &d.x, true);
    write_coord(w, &d.y, true);
    assert(w@.out =~= o + (opt_coord(m.x) + opt_coord(m.y)));
    write_coord(w, &d.z, true);
    assert(w@.out =~= o + (opt_coord(m.x) + opt_coord(m.y) + opt_coord(m.z)));
    write_rot(w, d.rot_x, true);
    let ghost p1 = opt_coord(m.x) + opt_coord(m.y) + opt_coord(m.z) + opt_rot(m.rot_x);
    assert(w@.out =~= o + p1);
    write_rot(w, d.rot_y, true);
    let ghost p2 = p1 + opt_rot(m.rot_y);
    assert(w@.out =~= o + p2);
    write_rot(w, d.rot_z, true);
    let ghost p3 = p2 + opt_rot(m.rot_z);
    assert(w@.out =~= o + p3);
    w.write_bool(d.on_ground);
    let ghost p4 = p3 + ser_bool(m.on_ground);
    assert(w@.out =~= o + p4);
    w.write_bool(d.force_move);
    let ghost p5 = p4 + ser_bool(m.force_move);
    assert(w@.out =~= o + p5);
    w.write_bool(false);
    let ghost p6 = p5 + ser_bool(false);
    assert(w@.out =~= o + p6);
    w.write_bool(false);
    assert(w@.out =~= o + (p6 + ser_bool(false)));
    assert(p6 + ser_bool(false) == layout_delta_v2168(m));
}

#[verifier::spinoff_prover]
#[verifier::rlimit(40)]
fn write_delta_v1001(w: &mut PacketWrapper, d: &DeltaFields)
    requires
        old(w).wf(),
    ensures
        final(w).wf(),
        final(w)@ == put(old(w)@, layout_delta_v1001(d@)),
{
    let ghost m = d@;
    let ghost o = old(w)@.out;
    let f = flags_of(d);
    w.write_u8((f % 256) as u8);
    w.write_u8((f / 256) as u8);
    let ghost p0 = le16(delta_flags(m));
    assert(w@.out =~= o + p0);
    write_coord(w, &d.x, false);
    let ghost p1 = p0 + some_coord(m.x);
    assert(w@.out =~= o + p1);
    write_coord(w, &d.y, false);
    let ghost p2 = p1 + some_coord(m.y);
    assert(w@.out =~= o + p2);
    write_coord(w, &d.z, false);
    let ghost p3 = p2 + some_coord(m.z);
    assert(w@.out =~= o + p3);
    write_rot(w, d.rot_x, false);
    let ghost p4 = p3 + some_rot(m.rot_x);
    assert(w@.out =~= o + p4);
    write_rot(w, d.rot_y, false);
    let ghost p5 = p4 + some_rot(m.rot_y);
    assert(w@.out =~= o + p5);
    write_rot(w, d.rot_z, false);
    assert(w@.out =~= o + (p5 + some_rot(m.rot_z)));
    assert(p5 + some_rot(m.rot_z) == layout_delta_v1001(m));
}

/// MoveActorDelta between the flag word of protocol 1001 and the presence
/// flags of protocol 2168.
pub fn move_delta_actor(w: &mut PacketWrapper, to_v2168: bool) -> (r: Result<(), DecodeError>)
    requires
        old(w).wf(),
    ensures
        final(w).wf(),
        match spec_move_delta_actor(old(w)@, to_v2168) {
            Some(st) => r is Ok && final(w)@ == st,
            None => r is Err,
        },
{
    w.passthrough(Field::UVarInt64)?;
    if to_v2168 {
        let d = read_delta_v1001(w)?;
        write_delta_v2168(w, &d);
    } else {
        let d = read_delta_v2168(w)?;
        write_delta_v1001(w, &d);
    }
    Ok(())
}

proof fn lemma_delta_flag_bits(m: MoveDelta)
    ensures
        (delta_flags(m) & MOVE_DELTA_HAS_X != 0) == m.x is Some,
        (delta_flags(m) & MOVE_DELTA_HAS_Y != 0) == m.y is Some,
        (delta_flags(m) & MOVE_DELTA_HAS_Z != 0) == m.z is Some,
        (delta_flags(m) & MOVE_DELTA_HAS_ROT_X != 0) == m.rot_x is Some,
        (delta_flags(m) & MOVE_DELTA_HAS_ROT_Y != 0) == m.rot_y is Some,
        (delta_flags(m) & MOVE_DELTA_HAS_ROT_Z != 0) == m.rot_z is Some,
        (delta_flags(m) & MOVE_DELTA_ON_GROUND != 0) == m.on_ground,
        (delta_flags(m) & MOVE_DELTA_FORCE_MOVE != 0) == m.force_move,
{
    let (a, b, c, d, e, f, g, h) = (
        bit(m.x is Some, 1),
        bit(m.y is Some, 2),
        bit(m.z is Some, 4),
        bit(m.rot_x is Some, 8),
        bit(m.rot_y is Some, 16),
        bit(m.rot_z is Some, 32),
        bit(m.on_ground, 64),
        bit(m.force_move, 256),
    );
    let fl = a | b | c | d | e | f | g | h;
    assert(fl == delta_flags(m));
    assert(((fl & 1) != 0) == (a == 1) && ((fl & 2) != 0) == (b == 2) && ((fl & 4) != 0) == (c == 4)
        && ((fl & 8) != 0) == (d == 8) && ((fl & 16) != 0) == (e == 16) && ((fl & 32) != 0) == (f == 32)
        && ((fl & 64) != 0) == (g == 64) && ((fl & 256) != 0) == (h == 256)) by (bit_vector)
        requires
            a == 0 || a == 1,
            b == 0 || b == 2,
            c == 0 || c == 4,
            d == 0 || d == 8,
            e == 0 || e == 16,
            f == 0 || f == 32,
            g == 0 || g == 64,
            h == 0 || h == 256,
            fl == a | b | c | d | e | f | g | h,
    ;
}

/// Every present coordinate is the four bytes of a float.
pub open spec fn coords_well_sized(m: MoveDelta) -> bool {
    &&& (m.x matches Some(v) ==> v.len() == 4)
    &&& (m.y matches Some(v) ==> v.len() == 4)
    &&& (m.z matches Some(v) ==> v.len() == 4)
}

proof fn lemma_take_coord(c: Option<Seq<u8>>, t: Seq<u8>, flagged: bool)
    requires
        c matches Some(v) ==> v.len() == 4,
    ensures
        !flagged ==> take_coord(c is Some, some_coord(c) + t) == Some((c, t)),
        flagged ==> take_opt_coord(opt_coord(c) + t) == Some((c, t)),
{
    match c {
        Some(v) => {
            lemma_take_fixed(v, t);
            assert(opt_coord(c) + t =~= ser_bool(true) + (v + t));
            lemma_take_u8(1u8, v + t);
        },
        None => {
            assert(some_coord(c) + t =~= t);
            assert(opt_coord(c) + t =~= ser_bool(false) + t);
            lemma_take_u8(0u8, t);
        },
    }
}

proof fn lemma_take_rot(c: Option<u8>, t: Seq<u8>, flagged: bool)
    ensures
        !flagged ==> take_rot(c is Some, some_rot(c) + t) == Some((c, t)),
        flagged ==> take_opt_rot(opt_rot(c) + t) == Some((c, t)),
{
    match c {
        Some(v) => {
            lemma_take_u8(v, t);
            assert(opt_rot(c) + t =~= ser_bool(true) + (ser_u8(v) + t));
            lemma_take_u8(1u8, ser_u8(v) + t);
        },
        None => {
            assert(some_rot(c) + t =~= t);
            assert(opt_rot(c) + t =~= ser_bool(false) + t);
            lemma_take_u8(0u8, t);
        },
    }
}

/// A protocol-1001 delta reads back as itself.
#[verifier::spinoff_prover]
#[verifier::rlimit(40)]
pub proof fn lemma_take_layout_delta_v1001(m: MoveDelta, t: Seq<u8>)
    requires
        coords_well_sized(m),
    ensures
        take_delta_v1001(layout_delta_v1001(m) + t) == Some((m, t)),
{
    lemma_delta_flag_bits(m);
    let f = delta_flags(m);
    let t6 = some_rot(m.rot_z) + t;
    let t5 = some_rot(m.rot_y) + t6;
    let t4 = some_rot(m.rot_x) + t5;
    let t3 = some_coord(m.z) + t4;
    let t2 = some_coord(m.y) + t3;
    let t1 = some_coord(m.x) + t2;
    let l0 = le16(f);
    let l1 = l0 + some_coord(m.x);
    let l2 = l1 + some_coord(m.y);
    let l3 = l2 + some_coord(m.z);
    let l4 = l3 + some_rot(m.rot_x);
    let l5 = l4 + some_rot(m.rot_y);
    lemma_concat_associative(l5, some_rot(m.rot_z), t);
    lemma_concat_associative(l4, some_rot(m.rot_y), t6);
    lemma_concat_associative(l3, some_rot(m.rot_x), t5);
    lemma_concat_associative(l2, some_coord(m.z), t4);
    lemma_concat_associative(l1, some_coord(m.y), t3);
    lemma_concat_associative(l0, some_coord(m.x), t2);
    assert(layout_delta_v1001(m) + t == le16(f) + t1);
    lemma_take_fixed(le16(f), t1);
    assert(from_le16(le16(f)) == f);
    lemma_take_coord(m.x, t2, false);
    lemma_take_coord(m.y, t3, false);
    lemma_take_coord(m.z, t4, false);
    lemma_take_rot(m.rot_x, t5, false);
    lemma_take_rot(m.rot_y, t6, false);
    lemma_take_rot(m.rot_z, t, false);
}

/// A protocol-2168 delta whose two extra flags are absent reads back as
/// itself.
#[verifier::spinoff_prover]
#[verifier::rlimit(40)]
pub proof fn lemma_take_layout_delta_v2168(m: MoveDelta, t: Seq<u8>)
    requires
        coords_well_sized(m),
    ensures
        take_delta_v2168(layout_delta_v2168(m) + t) == Some((m, t)),
{
    let t9 = ser_bool(false) + t;
    let t8 = ser_bool(false) + t9;
    let t7 = ser_bool(m.force_move) + t8;
    let t6 = ser_bool(m.on_ground) + t7;
    let t5 = opt_rot(m.rot_z) + t6;
    let t4 = opt_rot(m.rot_y) + t5;
    let t3 = opt_rot(m.rot_x) + t4;
    let t2 = opt_coord(m.z) + t3;
    let t1 = opt_coord(m.y) + t2;
    let l0 = opt_coord(m.x);
    let l1 = l0 + opt_coord(m.y);
    let l2 = l1 + opt_coord(m.z);
    let l3 = l2 + opt_rot(m.rot_x);
    let l4 = l3 + opt_rot(m.rot_y);
    let l5 = l4 + opt_rot(m.rot_z);
    let l6 = l5 + ser_bool(m.on_ground);
    let l7 = l6 + ser_bool(m.force_move);
    let l8 = l7 + ser_bool(false);
    lemma_concat_associative(l8, ser_bool(false), t);
    lemma_concat_associative(l7, ser_bool(false), t9);
    lemma_concat_associative(l6, ser_bool(m.force_move), t8);
    lemma_concat_associative(l5, ser_bool(m.on_ground), t7);
    lemma_concat_associative(l4, opt_rot(m.rot_z), t6);
    lemma_concat_associative(l3, opt_rot(m.rot_y), t5);
    lemma_concat_associative(l2, opt_rot(m.rot_x), t4);
    lemma_concat_associative(l1, opt_coord(m.z), t3);
    lemma_concat_associative(l0, opt_coord(m.y), t2);
    assert(layout_delta_v2168(m) + t == opt_coord(m.x) + t1);
    lemma_take_coord(m.x, t1, true);
    lemma_take_coord(m.y, t2, true);
    lemma_take_coord(m.z, t3, true);
    lemma_take_rot(m.rot_x, t4, true);
    lemma_take_rot(m.rot_y, t5, true);
    lemma_take_rot(m.rot_z, t6, true);
    lemma_take_u8(if m.on_ground { 1u8 } else { 0u8 }, t7);
    lemma_take_u8(if m.force_move { 1u8 } else { 0u8 }, t8);
    lemma_take_u8(0u8, t9);
    lemma_take_u8(0u8, t);
}

/// Fields copied from input that begins with exactly them.
proof fn lemma_fields_copied(fs: Seq<Field>, st: WireState, h: Seq<u8>, t: Seq<u8>)
    requires
        fields_len(fs, h) == Some(h.len()),
        st.rest == h + t,
    ensures
        pass_fields(st, fs) == Some(WireState { rest: t, out: st.out + h, ..st }),
{
    crate::wrapper::lemma_pass_fields_replay(fs, h, t, st.out, st.cancelled);
    assert(h.take(h.len() as int) =~= h);
}

/// Fields copied from the start of a body that begins with exactly them.
proof fn lemma_head_copied(fs: Seq<Field>, h: Seq<u8>, t: Seq<u8>)
    requires
        fields_len(fs, h) == Some(h.len()),
    ensures
        pass_fields(start(h + t), fs) == Some(WireState { rest: t, out: h, cancelled: false }),
{
    lemma_fields_copied(fs, start(h + t), h, t);
    assert(Seq::<u8>::empty() + h =~= h);
}

/// A movement delta taken from protocol 1001 to 2168 and back, and from
/// 2168 to 1001 and back, is unchanged (the two flags that only protocol
/// 2168 has are absent).
#[verifier::spinoff_prover]
#[verifier::rlimit(40)]
pub proof fn law_move_delta_actor_round_trip(head: Seq<u8>, m: MoveDelta, t: Seq<u8>)
    requires
        coords_well_sized(m),
        crate::codec::field_len(Field::UVarInt64, head) == Some(head.len()),
    ensures
        ({
            let a = spec_move_delta_actor(crate::wrapper::start(head + layout_delta_v1001(m) + t), true);
            let b = spec_move_delta_actor(crate::wrapper::start(head + layout_delta_v2168(m) + t), false);
            &&& a is Some
            &&& crate::wrapper::finished(a.unwrap()) == head + layout_delta_v2168(m) + t
            &&& b is Some
            &&& crate::wrapper::finished(b.unwrap()) == head + layout_delta_v1001(m) + t
        }),
{
    let x = head + layout_delta_v1001(m) + t;
    crate::codec::lemma_field_prefix(Field::UVarInt64, head, layout_delta_v1001(m) + t);
    assert(x =~= head + (layout_delta_v1001(m) + t));
    assert(head.take(head.len() as int) =~= head);
    lemma_take_layout_delta_v1001(m, t);
    assert(x.skip(head.len() as int) =~= layout_delta_v1001(m) + t);
    assert(x.take(head.len() as int) =~= head);
    let a = spec_move_delta_actor(crate::wrapper::start(x), true).unwrap();
    assert(crate::wrapper::finished(a) =~= head + layout_delta_v2168(m) + t);
    let y = head + layout_delta_v2168(m) + t;
    crate::codec::lemma_field_prefix(Field::UVarInt64, head, layout_delta_v2168(m) + t);
    assert(y =~= head + (layout_delta_v2168(m) + t));
    lemma_take_layout_delta_v2168(m, t);
    assert(y.skip(head.len() as int) =~= layout_delta_v2168(m) + t);
    assert(y.take(head.len() as int) =~= head);
    let b = spec_move_delta_actor(crate::wrapper::start(y), false).unwrap();
    assert(crate::wrapper::finished(b) =~= head + layout_delta_v1001(m) + t);
}

proof fn lemma_coord_read_back(present: bool, s: Seq<u8>)
    requires
        take_coord(present, s) is Some,
    ensures
        take_coord(present, s) matches Some((c, r)) && s == some_coord(c) + r && (c is Some) == present
            && (c matches Some(v) ==> v.len() == 4),
{
    if present {
        assert(s =~= s.take(4) + s.skip(4));
    } else {
        assert(s =~= Seq::<u8>::empty() + s);
    }
}

proof fn lemma_rot_read_back(present: bool, s: Seq<u8>)
    requires
        take_rot(present, s) is Some,
    ensures
        take_rot(present, s) matches Some((c, r)) && s == some_rot(c) + r && (c is Some) == present,
{
    if present {
        assert(s =~= ser_u8(s[0]) + s.skip(1));
    } else {
        assert(s =~= Seq::<u8>::empty() + s);
    }
}

/// The flag bits protocol 1001 gives a delta: the three coordinates, the
/// three rotations, on-ground and forced move.
pub const MOVE_DELTA_KNOWN_FLAGS: u16 = 0x017F;

proof fn lemma_known_flags(f: u16)
    requires
        f & !MOVE_DELTA_KNOWN_FLAGS == 0,
    ensures
        f == (bit(f & 1 != 0, 1) | bit(f & 2 != 0, 2) | bit(f & 4 != 0, 4) | bit(f & 8 != 0, 8)
            | bit(f & 16 != 0, 16) | bit(f & 32 != 0, 32) | bit(f & 64 != 0, 64) | bit(f & 256 != 0, 256)),
{
    assert(f == ((if f & 1 != 0 { 1u16 } else { 0u16 }) | (if f & 2 != 0 { 2u16 } else { 0u16 })
        | (if f & 4 != 0 { 4u16 } else { 0u16 }) | (if f & 8 != 0 { 8u16 } else { 0u16 })
        | (if f & 16 != 0 { 16u16 } else { 0u16 }) | (if f & 32 != 0 { 32u16 } else { 0u16 })
        | (if f & 64 != 0 { 64u16 } else { 0u16 }) | (if f & 256 != 0 { 256u16 } else { 0u16 }))) by (bit_vector)
        requires
            f & !0x017Fu16 == 0,
    ;
}

proof fn lemma_le16_back(b: Seq<u8>)
    requires
        b.len() == 2,
    ensures
        le16(from_le16(b)) == b,
{
    let v = from_le16(b);
    assert(v as int == b[0] + b[1] * 256);
    assert(le16(v) =~= b);
}

/// A protocol-1001 delta whose flag word sets no other bit than the known
/// ones is exactly the layout of what it reads as.
#[verifier::spinoff_prover]
#[verifier::rlimit(80)]
proof fn lemma_delta_v1001_read_back(s: Seq<u8>)
    requires
        take_delta_v1001(s) is Some,
        from_le16(s.take(2)) & !MOVE_DELTA_KNOWN_FLAGS == 0,
    ensures
        take_delta_v1001(s) matches Some((m, r)) && s == layout_delta_v1001(m) + r && coords_well_sized(m),
{
    let fb = s.take(2);
    let f = from_le16(fb);
    let r0 = s.skip(2);
    lemma_coord_read_back(f & MOVE_DELTA_HAS_X != 0, r0);
    let (x, r1) = take_coord(f & MOVE_DELTA_HAS_X != 0, r0).unwrap();
    lemma_coord_read_back(f & MOVE_DELTA_HAS_Y != 0, r1);
    let (y, r2) = take_coord(f & MOVE_DELTA_HAS_Y != 0, r1).unwrap();
    lemma_coord_read_back(f & MOVE_DELTA_HAS_Z != 0, r2);
    let (z, r3) = take_coord(f & MOVE_DELTA_HAS_Z != 0, r2).unwrap();
    lemma_rot_read_back(f & MOVE_DELTA_HAS_ROT_X != 0, r3);
    let (rx, r4) = take_rot(f & MOVE_DELTA_HAS_ROT_X != 0, r3).unwrap();
    lemma_rot_read_back(f & MOVE_DELTA_HAS_ROT_Y != 0, r4);
    let (ry, r5) = take_rot(f & MOVE_DELTA_HAS_ROT_Y != 0, r4).unwrap();
    lemma_rot_read_back(f & MOVE_DELTA_HAS_ROT_Z != 0, r5);
    let (rz, r6) = take_rot(f & MOVE_DELTA_HAS_ROT_Z != 0, r5).unwrap();
    let m = MoveDelta {
        x,
        y,
        z,
        rot_x: rx,
        rot_y: ry,
        rot_z: rz,
        on_ground: f & MOVE_DELTA_ON_GROUND != 0,
        force_move: f & MOVE_DELTA_FORCE_MOVE != 0,
    };
    assert(take_delta_v1001(s) == Some((m, r6)));
    lemma_known_flags(f);
    assert(delta_flags(m) == f);
    lemma_le16_back(fb);
    assert(s =~= fb + r0);
    let t6 = some_rot(rz) + r6;
    let t5 = some_rot(ry) + t6;
    let t4 = some_rot(rx) + t5;
    let t3 = some_coord(z) + t4;
    let t2 = some_coord(y) + t3;
    let t1 = some_coord(x) + t2;
    assert(r0 == t1);
    let l0 = le16(f);
    let l1 = l0 + some_coord(x);
    let l2 = l1 + some_coord(y);
    let l3 = l2 + some_coord(z);
    let l4 = l3 + some_rot(rx);
    let l5 = l4 + some_rot(ry);
    lemma_concat_associative(l5, some_rot(rz), r6);
    lemma_concat_associative(l4, some_rot(ry), t6);
    lemma_concat_associative(l3, some_rot(rx), t5);
    lemma_concat_associative(l2, some_coord(z), t4);
    lemma_concat_associative(l1, some_coord(y), t3);
    lemma_concat_associative(l0, some_coord(x), t2);
    assert(layout_delta_v1001(m) == l5 + some_rot(rz));
    assert(layout_delta_v1001(m) + r6 == l0 + t1);
}

/// A MoveActorDelta body taken from protocol 1001 to 2168 and back is
/// unchanged, byte for byte, whenever the way up reads it and its flag
/// word sets no bit other than the coordinates, rotations, on-ground and
/// forced move.
#[verifier::spinoff_prover]
#[verifier::rlimit(80)]
pub proof fn law_move_delta_actor_bytes_round_trip(x: Seq<u8>)
    requires
        spec_move_delta_actor(crate::wrapper::start(x), true) is Some,
        crate::codec::field_len(Field::UVarInt64, x) matches Some(n) && n + 2 <= x.len()
            && from_le16(x.subrange(n as int, n + 2int)) & !MOVE_DELTA_KNOWN_FLAGS == 0,
    ensures
        spec_move_delta_actor(
            crate::wrapper::start(crate::wrapper::finished(spec_move_delta_actor(crate::wrapper::start(x), true).unwrap())),
            false,
        ) matches Some(b) && crate::wrapper::finished(b) == x,
{
    let n = crate::codec::field_len(Field::UVarInt64, x).unwrap();
    let head = x.take(n as int);
    let rest = x.skip(n as int);
    let s1 = pass(crate::wrapper::start(x), Field::UVarInt64).unwrap();
    assert(s1.rest == rest);
    assert(take_delta_v1001(rest) is Some);
    assert(rest.take(2) =~= x.subrange(n as int, n + 2int));
    lemma_delta_v1001_read_back(rest);
    let (m, r) = take_delta_v1001(rest).unwrap();
    crate::codec::lemma_field_prefix(Field::UVarInt64, x, Seq::<u8>::empty());
    assert(head + Seq::<u8>::empty() =~= head);
    assert(x =~= head + rest);
    lemma_concat_associative(head, layout_delta_v1001(m), r);
    assert(x == head + layout_delta_v1001(m) + r);
    law_move_delta_actor_round_trip(head, m, r);
}

pub const MOVE_MODE_TELEPORT: u8 = 2;

/// The head of a MovePlayer packet: the actor id, the position and three
/// angles.
pub open spec fn move_player_head() -> Seq<Field> {
    seq![Field::UVarInt64, Field::Fixed(12), Field::Fixed(12)]
}

/// What follows the mode: the on-ground flag and the riding actor id.
pub open spec fn move_player_mid() -> Seq<Field> {
    seq![Field::Byte, Field::UVarInt64]
}

/// The teleport cause and source of a MovePlayer: protocol 1001 writes them
/// exactly when the mode is "teleport"; protocol 2168 always writes a flag
/// that says whether they follow.
pub open spec fn move_player_tail(s3: WireState, mode: u8, to_v2168: bool) -> Option<WireState> {
    if to_v2168 {
        if mode == MOVE_MODE_TELEPORT {
            match take_fixed(8, s3.rest) {
                Some((cs, r)) => Some(put(WireState { rest: r, ..s3 }, ser_bool(true) + cs)),
                None => None,
            }
        } else {
            Some(put(s3, ser_bool(false)))
        }
    } else {
        match take_flag(s3.rest) {
            Some((present, r1)) => if present {
                match take_fixed(8, r1) {
                    Some((cs, r2)) => Some(put(
                        WireState { rest: r2, ..s3 },
                        if mode == MOVE_MODE_TELEPORT { cs } else { Seq::empty() },
                    )),
                    None => None,
                }
            } else {
                Some(put(
                    WireState { rest: r1, ..s3 },
                    if mode == MOVE_MODE_TELEPORT { crate::codec::zeros(8) } else { Seq::empty() },
                ))
            },
            None => None,
        }
    }
}

pub open spec fn spec_move_player(st: WireState, to_v2168: bool) -> Option<WireState> {
    match pass_fields(st, move_player_head()) {
        Some(s1) => match take_u8(s1.rest) {
            Some((mode, _)) => match pass_fields(copied(s1, 1), move_player_mid()) {
                Some(s3) => move_player_tail(s3, mode, to_v2168),
                None => None,
            },
            None => None,
        },
        None => None,
    }
}

fn move_player_teleport(w: &mut PacketWrapper, mode: u8, to_v2168: bool) -> (r: Result<(), DecodeError>)
    requires
        old(w).wf(),
    ensures
        final(w).wf(),
        match move_player_tail(old(w)@, mode, to_v2168) {
            Some(st) => r is Ok && final(w)@ == st,
            None => r is Err,
        },
{
    if to_v2168 {
        if mode == MOVE_MODE_TELEPORT {
            let cs = w.read_fixed(8)?;
            w.write_bool(true);
            w.write_bytes(cs.as_slice());
            assert(w@.out =~= old(w)@.out + (ser_bool(true) + cs@));
        } else {
            w.write_bool(false);
        }
    } else if read_flag(w)? {
        let cs = w.read_fixed(8)?;
        if mode == MOVE_MODE_TELEPORT {
            w.write_bytes(cs.as_slice());
        } else {
            assert(w@.out =~= w@.out + Seq::<u8>::empty());
        }
    } else if mode == MOVE_MODE_TELEPORT {
        w.write_zeros(8);
    } else {
        assert(w@.out =~= w@.out + Seq::<u8>::empty());
    }
    Ok(())
}

/// MovePlayer: everything is kept but the teleport cause and source, which
/// gain or lose their presence flag.
pub fn move_player(w: &mut PacketWrapper, to_v2168: bool) -> (r: Result<(), DecodeError>)
    requires
        old(w).wf(),
    ensures
        final(w).wf(),
        match spec_move_player(old(w)@, to_v2168) {
            Some(st) => r is Ok && final(w)@ == st,
            None => r is Err,
        },
{
    let head = vec![Field::UVarInt64, Field::Fixed(12), Field::Fixed(12)];
    assert(head@.skip(0) =~= move_player_head());
    w.passthrough_fields(head.as_slice(), 0)?;
    let mode = w.pass_u8()?;
    let mid = vec![Field::Byte, Field::UVarInt64];
    assert(mid@.skip(0) =~= move_player_mid());
    w.passthrough_fields(mid.as_slice(), 0)?;
    move_player_teleport(w, mode, to_v2168)
}

/// The teleport cause and source as protocol 1001 writes them after `mode`.
pub open spec fn teleport_v1001(mode: u8, cause: Seq<u8>) -> Seq<u8> {
    if mode == MOVE_MODE_TELEPORT { cause } else { Seq::empty() }
}

/// The teleport cause and source as protocol 2168 writes them after `mode`.
pub open spec fn teleport_v2168(mode: u8, cause: Seq<u8>) -> Seq<u8> {
    if mode == MOVE_MODE_TELEPORT { ser_bool(true) + cause } else { ser_bool(false) }
}

/// A protocol-1001 MovePlayer taken to protocol 2168 and back is unchanged.
#[verifier::rlimit(30)]
pub proof fn law_move_player_round_trip(head: Seq<u8>, mode: u8, mid: Seq<u8>, cause: Seq<u8>, t: Seq<u8>)
    requires
        fields_len(move_player_head(), head) == Some(head.len()),
        fields_len(move_player_mid(), mid) == Some(mid.len()),
        cause.len() == 8,
    ensures
        spec_move_player(start(head + ser_u8(mode) + mid + teleport_v1001(mode, cause) + t), true) matches Some(a)
            && finished(a) == head + ser_u8(mode) + mid + teleport_v2168(mode, cause) + t,
        spec_move_player(start(head + ser_u8(mode) + mid + teleport_v2168(mode, cause) + t), false) matches Some(b)
            && finished(b) == head + ser_u8(mode) + mid + teleport_v1001(mode, cause) + t,
{
    let m = ser_u8(mode);
    let t1 = teleport_v1001(mode, cause);
    let t2 = teleport_v2168(mode, cause);
    // Up.
    let x = head + m + mid + t1 + t;
    assert(x =~= head + (m + (mid + (t1 + t))));
    lemma_head_copied(move_player_head(), head, m + (mid + (t1 + t)));
    let s1 = WireState { rest: m + (mid + (t1 + t)), out: head, cancelled: false };
    lemma_take_u8(mode, mid + (t1 + t));
    assert(copied(s1, 1) == WireState { rest: mid + (t1 + t), out: head + m, cancelled: false }) by {
        assert((m + (mid + (t1 + t))).skip(1) =~= mid + (t1 + t));
        assert((m + (mid + (t1 + t))).take(1) =~= m);
    }
    lemma_fields_copied(move_player_mid(), copied(s1, 1), mid, t1 + t);
    let s3 = WireState { rest: t1 + t, out: head + m + mid, cancelled: false };
    if mode == MOVE_MODE_TELEPORT {
        lemma_take_fixed(cause, t);
    }
    assert(finished(spec_move_player(start(x), true).unwrap()) =~= head + m + mid + t2 + t);
    // Down.
    let y = head + m + mid + t2 + t;
    assert(y =~= head + (m + (mid + (t2 + t))));
    lemma_head_copied(move_player_head(), head, m + (mid + (t2 + t)));
    let u1 = WireState { rest: m + (mid + (t2 + t)), out: head, cancelled: false };
    lemma_take_u8(mode, mid + (t2 + t));
    assert(copied(u1, 1) == WireState { rest: mid + (t2 + t), out: head + m, cancelled: false }) by {
        assert((m + (mid + (t2 + t))).skip(1) =~= mid + (t2 + t));
        assert((m + (mid + (t2 + t))).take(1) =~= m);
    }
    lemma_fields_copied(move_player_mid(), copied(u1, 1), mid, t2 + t);
    if mode == MOVE_MODE_TELEPORT {
        assert(t2 + t =~= ser_u8(1u8) + (cause + t));
        lemma_take_u8(1u8, cause + t);
        lemma_take_fixed(cause, t);
    } else {
        assert(t2 + t =~= ser_u8(0u8) + t);
        lemma_take_u8(0u8, t);
    }
    assert(finished(spec_move_player(start(y), false).unwrap()) =~= head + m + mid + t1 + t);
}

/// An optional zig-zag integer: a presence flag, then the value.
pub open spec fn ser_opt_i32v(v: Option<i32>) -> Seq<u8> {
    match v {
        Some(x) => ser_bool(true) + ser_i32v(x),
        None => ser_bool(false),
    }
}

/// The sub-chunk count of a full chunk toward protocol 2168: the two mode
/// markers of protocol 1001 become a count of 0 and a limit (-1 for no
/// limit, else the 16-bit cap); any other count is kept with no limit.
pub open spec fn chunk_count_up(st: WireState) -> Option<WireState> {
    match take_u32v(st.rest) {
        Some((count, r1)) => if count == SUB_CHUNK_MODE_LIMITLESS {
            Some(put(WireState { rest: r1, ..st }, ser_u32v(0) + ser_opt_i32v(Some(-1i32))))
        } else if count == SUB_CHUNK_MODE_LIMITED {
            match take_fixed(2, r1) {
                Some((hb, r2)) => Some(put(
                    WireState { rest: r2, ..st },
                    ser_u32v(0) + ser_opt_i32v(Some(from_le16(hb) as i32)),
                )),
                None => None,
            }
        } else {
            Some(put(WireState { rest: r1, ..st }, ser_u32v(count) + ser_opt_i32v(None)))
        },
        None => None,
    }
}

/// The sub-chunk count of a full chunk toward protocol 1001.
pub open spec fn chunk_count_down(st: WireState) -> Option<WireState> {
    match take_u32v(st.rest) {
        Some((count, r1)) => match take_flag(r1) {
            Some((present, r2)) => if present {
                match take_i32v(r2) {
                    Some((limit, r3)) => Some(put(
                        WireState { rest: r3, ..st },
                        if limit == -1 {
                            ser_u32v(SUB_CHUNK_MODE_LIMITLESS)
                        } else {
                            ser_u32v(SUB_CHUNK_MODE_LIMITED) + le16(limit as u16)
                        },
                    )),
                    None => None,
                }
            } else {
                Some(put(WireState { rest: r2, ..st }, ser_u32v(count)))
            },
            None => None,
        },
        None => None,
    }
}

/// The blob hashes of a full chunk: protocol 1001 lists them only when the
/// cache flag is set; protocol 2168 always writes the count.
pub open spec fn chunk_hashes(st: WireState, to_v2168: bool) -> Option<WireState> {
    match take_flag(st.rest) {
        Some((cache, _)) => {
            let s1 = copied(st, 1);
            if to_v2168 && !cache {
                Some(put(s1, ser_u32v(0)))
            } else {
                match take_u32v(s1.rest) {
                    Some((n, r1)) => match take_fixed((n * 8) as nat, r1) {
                        Some((hashes, r2)) => Some(put(
                            WireState { rest: r2, ..s1 },
                            if cache { ser_u32v(n) + hashes } else { Seq::empty() },
                        )),
                        None => None,
                    },
                    None => None,
                }
            }
        },
        None => None,
    }
}

/// LevelChunk: the position is kept, the sub-chunk count and blob hashes
/// change shape, the rest is kept.
pub open spec fn spec_full_chunk_data(st: WireState, to_v2168: bool) -> Option<WireState> {
    match pass_fields(st, seq![Field::VarInt, Field::VarInt, Field::VarInt]) {
        Some(s1) => match if to_v2168 { chunk_count_up(s1) } else { chunk_count_down(s1) } {
            Some(s2) => chunk_hashes(s2, to_v2168),
            None => None,
        },
        None => None,
    }
}

fn write_opt_i32v(w: &mut PacketWrapper, v: Option<i32>)
    requires
        old(w).wf(),
    ensures
        final(w).wf(),
        final(w)@ == put(old(w)@, ser_opt_i32v(v)),
{
    match v {
        Some(x) => {
            w.write_bool(true);
            w.write_i32v(x);
            assert(w@.out =~= old(w)@.out + ser_opt_i32v(v));
        },
        None => {
            w.write_bool(false);
        },
    }
}

fn chunk_count_to_v2168(w: &mut PacketWrapper) -> (r: Result<(), DecodeError>)
    requires
        old(w).wf(),
    ensures
        final(w).wf(),
        match chunk_count_up(old(w)@) {
            Some(st) => r is Ok && final(w)@ == st,
            None => r is Err,
        },
{
    let count = w.read_u32v()?;
    if count == SUB_CHUNK_MODE_LIMITLESS {
        w.write_u32v(0);
        write_opt_i32v(w, Some(-1));
    } else if count == SUB_CHUNK_MODE_LIMITED {
        let hb = w.read_fixed(2)?;
        let highest: u16 = (hb[0] as u16) + (hb[1] as u16) * 256;
        assert(highest == from_le16(hb@));
        w.write_u32v(0);
        write_opt_i32v(w, Some(highest as i32));
    } else {
        w.write_u32v(count);
        write_opt_i32v(w, None);
    }
    assert(w@.out =~= chunk_count_up(old(w)@).unwrap().out);
    Ok(())
}

fn chunk_count_to_v1001(w: &mut PacketWrapper) -> (r: Result<(), DecodeError>)
    requires
        old(w).wf(),
    ensures
        final(w).wf(),
        match chunk_count_down(old(w)@) {
            Some(st) => r is Ok && final(w)@ == st,
            None => r is Err,
        },
{
    let count = w.read_u32v()?;
    if read_flag(w)? {
        let limit = w.read_i32v()?;
        if limit == -1 {
            w.write_u32v(SUB_CHUNK_MODE_LIMITLESS);
        } else {
            w.write_u32v(SUB_CHUNK_MODE_LIMITED);
            let h = limit as u16;
            w.write_u8((h % 256) as u8);
            w.write_u8((h / 256) as u8);
            assert(w@.out =~= chunk_count_down(old(w)@).unwrap().out);
        }
    } else {
        w.write_u32v(count);
    }
    Ok(())
}

fn chunk_blob_hashes(w: &mut PacketWrapper, to_v2168: bool) -> (r: Result<(), DecodeError>)
    requires
        old(w).wf(),
    ensures
        final(w).wf(),
        match chunk_hashes(old(w)@, to_v2168) {
            Some(st) => r is Ok && final(w)@ == st,
            None => r is Err,
        },
{
    let cache = w.pass_bool()?;
    if to_v2168 && !cache {
        w.write_u32v(0);
        return Ok(());
    }
    let n = w.read_u32v()?;
    let hashes = read_records(w, n, 8)?;
    if cache {
        w.write_u32v(n);
        w.write_bytes(hashes.as_slice());
        assert(w@.out =~= chunk_hashes(old(w)@, to_v2168).unwrap().out);
    } else {
        assert(w@.out =~= w@.out + Seq::<u8>::empty());
    }
    Ok(())
}

pub fn full_chunk_data(w: &mut PacketWrapper, to_v2168: bool) -> (r: Result<(), DecodeError>)
    requires
        old(w).wf(),
    ensures
        final(w).wf(),
        match spec_full_chunk_data(old(w)@, to_v2168) {
            Some(st) => r is Ok && final(w)@ == st,
            None => r is Err,
        },
{
    let fs = vec![Field::VarInt, Field::VarInt, Field::VarInt];
    assert(fs@.skip(0) =~= seq![Field::VarInt, Field::VarInt, Field::VarInt]);
    w.passthrough_fields(fs.as_slice(), 0)?;
    if to_v2168 {
        chunk_count_to_v2168(w)?;
    } else {
        chunk_count_to_v1001(w)?;
    }
    chunk_blob_hashes(w, to_v2168)
}

/// The sub-chunk count of a full chunk as protocol 1001 writes it: the
/// count, and after the "limited" marker the 16-bit cap.
pub open spec fn chunk_count_v1001(count: u32, cap: u16) -> Seq<u8> {
    ser_u32v(count) + if count == SUB_CHUNK_MODE_LIMITED { le16(cap) } else { Seq::empty() }
}

/// The same sub-chunk count as protocol 2168 writes it.
pub open spec fn chunk_count_v2168(count: u32, cap: u16) -> Seq<u8> {
    if count == SUB_CHUNK_MODE_LIMITLESS {
        ser_u32v(0) + ser_opt_i32v(Some(-1i32))
    } else if count == SUB_CHUNK_MODE_LIMITED {
        ser_u32v(0) + ser_opt_i32v(Some(cap as i32))
    } else {
        ser_u32v(count) + ser_opt_i32v(None)
    }
}

/// The blob hashes of a full chunk as protocol 1001 writes them.
pub open spec fn chunk_hashes_v1001(cache: bool, n: u32, hashes: Seq<u8>) -> Seq<u8> {
    ser_bool(cache) + if cache { ser_u32v(n) + hashes } else { Seq::empty() }
}

/// The same blob hashes as protocol 2168 writes them.
pub open spec fn chunk_hashes_v2168(cache: bool, n: u32, hashes: Seq<u8>) -> Seq<u8> {
    ser_bool(cache) + if cache { ser_u32v(n) + hashes } else { ser_u32v(0) }
}

#[verifier::rlimit(40)]
#[verifier::spinoff_prover]
proof fn lemma_chunk_count_round_trip(st: WireState, count: u32, cap: u16, t: Seq<u8>)
    requires
        st.rest == chunk_count_v1001(count, cap) + t,
    ensures
        chunk_count_up(st) == Some(WireState { rest: t, out: st.out + chunk_count_v2168(count, cap), ..st }),
        chunk_count_down(WireState { rest: chunk_count_v2168(count, cap) + t, ..st })
            == Some(WireState { rest: t, out: st.out + chunk_count_v1001(count, cap), ..st }),
{
    let e = Seq::<u8>::empty();
    if count == SUB_CHUNK_MODE_LIMITED {
        assert(st.rest =~= ser_u32v(count) + (le16(cap) + t));
        crate::codec::lemma_take_u32v(count, le16(cap) + t);
        lemma_take_fixed(le16(cap), t);
        assert(from_le16(le16(cap)) == cap);
        let c2 = chunk_count_v2168(count, cap);
        assert(c2 + t =~= ser_u32v(0) + (ser_u8(1u8) + (ser_i32v(cap as i32) + t)));
        crate::codec::lemma_take_u32v(0, ser_u8(1u8) + (ser_i32v(cap as i32) + t));
        lemma_take_u8(1u8, ser_i32v(cap as i32) + t);
        crate::codec::lemma_take_i32v(cap as i32, t);
        assert(((cap as i32) as u16) == cap);
        assert(chunk_count_down(WireState { rest: c2 + t, ..st }).unwrap().out =~= st.out + chunk_count_v1001(count, cap));
    } else {
        assert(st.rest =~= ser_u32v(count) + t);
        crate::codec::lemma_take_u32v(count, t);
        if count == SUB_CHUNK_MODE_LIMITLESS {
            let c2 = chunk_count_v2168(count, cap);
            assert(c2 + t =~= ser_u32v(0) + (ser_u8(1u8) + (ser_i32v(-1i32) + t)));
            crate::codec::lemma_take_u32v(0, ser_u8(1u8) + (ser_i32v(-1i32) + t));
            lemma_take_u8(1u8, ser_i32v(-1i32) + t);
            crate::codec::lemma_take_i32v(-1i32, t);
        } else {
            let c2 = chunk_count_v2168(count, cap);
            assert(c2 + t =~= ser_u32v(count) + (ser_u8(0u8) + t));
            crate::codec::lemma_take_u32v(count, ser_u8(0u8) + t);
            lemma_take_u8(0u8, t);
        }
        assert(st.out + chunk_count_v1001(count, cap) =~= st.out + ser_u32v(count));
        assert(chunk_count_up(st).unwrap().out =~= st.out + chunk_count_v2168(count, cap));
        assert(chunk_count_down(WireState { rest: chunk_count_v2168(count, cap) + t, ..st }).unwrap().out
            =~= st.out + chunk_count_v1001(count, cap));
    }
}

#[verifier::rlimit(40)]
#[verifier::spinoff_prover]
proof fn lemma_chunk_hashes_round_trip(st: WireState, cache: bool, n: u32, hashes: Seq<u8>, t: Seq<u8>)
    requires
        hashes.len() == n * 8,
        st.rest == chunk_hashes_v1001(cache, n, hashes) + t,
    ensures
        chunk_hashes(st, true) == Some(WireState { rest: t, out: st.out + chunk_hashes_v2168(cache, n, hashes), ..st }),
        chunk_hashes(WireState { rest: chunk_hashes_v2168(cache, n, hashes) + t, ..st }, false)
            == Some(WireState { rest: t, out: st.out + chunk_hashes_v1001(cache, n, hashes), ..st }),
{
    let b = ser_bool(cache);
    let h1 = chunk_hashes_v1001(cache, n, hashes);
    let h2 = chunk_hashes_v2168(cache, n, hashes);
    assert(ser_bool(cache) =~= ser_u8(if cache { 1u8 } else { 0u8 }));
    if cache {
        assert(h1 + t =~= b + (ser_u32v(n) + (hashes + t)));
        lemma_take_u8(1u8, ser_u32v(n) + (hashes + t));
        crate::codec::lemma_take_u32v(n, hashes + t);
        lemma_take_fixed(hashes, t);
        assert((h1 + t).skip(1) =~= ser_u32v(n) + (hashes + t));
        assert((h1 + t).take(1) =~= b);
        assert(chunk_hashes(st, true).unwrap().out =~= st.out + h2);
        assert(chunk_hashes(WireState { rest: h2 + t, ..st }, false).unwrap().out =~= st.out + h1);
    } else {
        assert(h1 + t =~= b + t);
        lemma_take_u8(0u8, t);
        assert((h1 + t).skip(1) =~= t);
        assert((h1 + t).take(1) =~= b);
        assert(chunk_hashes(st, true).unwrap().out =~= st.out + h2);
        assert(h2 + t =~= b + (ser_u32v(0) + t));
        lemma_take_u8(0u8, ser_u32v(0) + t);
        crate::codec::lemma_take_u32v(0, t);
        lemma_take_fixed(Seq::<u8>::empty(), t);
        assert((h2 + t).skip(1) =~= ser_u32v(0) + t);
        assert((h2 + t).take(1) =~= b);
        assert(Seq::<u8>::empty() + t =~= t);
        assert(chunk_hashes(WireState { rest: h2 + t, ..st }, false).unwrap().out =~= st.out + h1);
    }
}

proof fn lemma_full_chunk_data_step(pos: Seq<u8>, c: Seq<u8>, h: Seq<u8>, t: Seq<u8>, to_v2168: bool, s2: WireState, s3: WireState)
    requires
        fields_len(seq![Field::VarInt, Field::VarInt, Field::VarInt], pos) == Some(pos.len()),
        (if to_v2168 { chunk_count_up(WireState { rest: c + (h + t), out: pos, cancelled: false }) } else {
            chunk_count_down(WireState { rest: c + (h + t), out: pos, cancelled: false })
        }) == Some(s2),
        chunk_hashes(s2, to_v2168) == Some(s3),
    ensures
        spec_full_chunk_data(start(pos + c + h + t), to_v2168) == Some(s3),
{
    assert(pos + c + h + t =~= pos + (c + (h + t)));
    lemma_head_copied(seq![Field::VarInt, Field::VarInt, Field::VarInt], pos, c + (h + t));
}

/// A protocol-1001 LevelChunk taken to protocol 2168 and back is unchanged.
pub proof fn law_full_chunk_data_round_trip(pos: Seq<u8>, count: u32, cap: u16, cache: bool, n: u32, hashes: Seq<u8>, t: Seq<u8>)
    requires
        fields_len(seq![Field::VarInt, Field::VarInt, Field::VarInt], pos) == Some(pos.len()),
        hashes.len() == n * 8,
    ensures
        ({
            let v1001 = pos + chunk_count_v1001(count, cap) + chunk_hashes_v1001(cache, n, hashes) + t;
            let v2168 = pos + chunk_count_v2168(count, cap) + chunk_hashes_v2168(cache, n, hashes) + t;
            &&& spec_full_chunk_data(start(v1001), true) matches Some(a) && finished(a) == v2168
            &&& spec_full_chunk_data(start(v2168), false) matches Some(b) && finished(b) == v1001
        }),
{
    let c1 = chunk_count_v1001(count, cap);
    let c2 = chunk_count_v2168(count, cap);
    let h1 = chunk_hashes_v1001(cache, n, hashes);
    let h2 = chunk_hashes_v2168(cache, n, hashes);
    lemma_chunk_count_round_trip(WireState { rest: c1 + (h1 + t), out: pos, cancelled: false }, count, cap, h1 + t);
    lemma_chunk_hashes_round_trip(WireState { rest: h1 + t, out: pos + c2, cancelled: false }, cache, n, hashes, t);
    let a = WireState { rest: t, out: pos + c2 + h2, cancelled: false };
    lemma_full_chunk_data_step(pos, c1, h1, t, true, WireState { rest: h1 + t, out: pos + c2, cancelled: false }, a);
    assert(finished(a) =~= pos + c2 + h2 + t);
    lemma_chunk_count_round_trip(WireState { rest: c1 + (h2 + t), out: pos, cancelled: false }, count, cap, h2 + t);
    lemma_chunk_hashes_round_trip(WireState { rest: h1 + t, out: pos + c1, cancelled: false }, cache, n, hashes, t);
    let b = WireState { rest: t, out: pos + c1 + h1, cancelled: false };
    lemma_full_chunk_data_step(pos, c2, h2, t, false, WireState { rest: h2 + t, out: pos + c1, cancelled: false }, b);
    assert(finished(b) =~= pos + c1 + h1 + t);
}

/// DimensionData: each definition gains a 16-byte id (written as zero)
/// toward protocol 2168 and loses it toward 1001.
pub open spec fn dimension_head() -> Seq<Field> {
    seq![Field::Str, Field::VarInt, Field::VarInt, Field::VarInt, Field::VarInt]
}

pub open spec fn spec_dimension_entry(st: WireState, to_v2168: bool) -> Option<WireState> {
    match pass_fields(st, dimension_head()) {
        Some(s1) => if to_v2168 {
            Some(put(s1, zeros(16)))
        } else {
            match take_fixed(16, s1.rest) {
                Some((_, r)) => Some(WireState { rest: r, ..s1 }),
                None => None,
            }
        },
        None => None,
    }
}

pub open spec fn spec_dimension_entries(st: WireState, to_v2168: bool, n: nat) -> Option<WireState>
    decreases n,
{
    if n == 0 {
        Some(st)
    } else {
        match spec_dimension_entries(st, to_v2168, (n - 1) as nat) {
            Some(s) => spec_dimension_entry(s, to_v2168),
            None => None,
        }
    }
}

pub open spec fn spec_dimension_data(st: WireState, to_v2168: bool) -> Option<WireState> {
    match take_u32v(st.rest) {
        Some((count, _)) => match pass(st, Field::UVarInt) {
            Some(s1) => spec_dimension_entries(s1, to_v2168, count as nat),
            None => None,
        },
        None => None,
    }
}

proof fn lemma_dimension_entries_stuck(st: WireState, to_v2168: bool, i: nat, n: nat)
    requires
        i <= n,
        spec_dimension_entries(st, to_v2168, i) is None,
    ensures
        spec_dimension_entries(st, to_v2168, n) is None,
    decreases n - i,
{
    if i < n {
        lemma_dimension_entries_stuck(st, to_v2168, i + 1, n);
    }
}

fn dimension_entry(w: &mut PacketWrapper, to_v2168: bool) -> (r: Result<(), DecodeError>)
    requires
        old(w).wf(),
    ensures
        final(w).wf(),
        match spec_dimension_entry(old(w)@, to_v2168) {
            Some(st) => r is Ok && final(w)@ == st,
            None => r is Err,
        },
{
    let head = vec![Field::Str, Field::VarInt, Field::VarInt, Field::VarInt, Field::VarInt];
    assert(head@.skip(0) =~= dimension_head());
    w.passthrough_fields(head.as_slice(), 0)?;
    if to_v2168 {
        w.write_zeros(16);
    } else {
        w.read_fixed(16)?;
    }
    Ok(())
}

pub fn dimension_data(w: &mut PacketWrapper, to_v2168: bool) -> (r: Result<(), DecodeError>)
    requires
        old(w).wf(),
    ensures
        final(w).wf(),
        match spec_dimension_data(old(w)@, to_v2168) {
            Some(st) => r is Ok && final(w)@ == st,
            None => r is Err,
        },
{
    let count = w.pass_u32v()?;
    let ghost s0 = w@;
    let mut i: u32 = 0;
    while i < count
        invariant
            w.wf(),
            i <= count,
            spec_dimension_entries(s0, to_v2168, i as nat) == Some(w@),
            spec_dimension_data(old(w)@, to_v2168) == spec_dimension_entries(s0, to_v2168, count as nat),
        decreases count - i,
    {
        match dimension_entry(w, to_v2168) {
            Ok(()) => {},
            Err(e) => {
                proof {
                    lemma_dimension_entries_stuck(s0, to_v2168, (i + 1) as nat, count as nat);
                }
                return Err(e);
            },
        }
        i = i + 1;
    }
    Ok(())
}

/// Dimension definitions as protocol 1001 writes them, one after the other.
pub open spec fn dimensions_v1001(es: Seq<Seq<u8>>) -> Seq<u8>
    decreases es.len(),
{
    if es.len() == 0 {
        Seq::empty()
    } else {
        dimensions_v1001(es.drop_last()) + es.last()
    }
}

/// The same definitions as protocol 2168 writes them, each with a zero id.
pub open spec fn dimensions_v2168(es: Seq<Seq<u8>>) -> Seq<u8>
    decreases es.len(),
{
    if es.len() == 0 {
        Seq::empty()
    } else {
        dimensions_v2168(es.drop_last()) + es.last() + zeros(16)
    }
}

#[verifier::rlimit(40)]
#[verifier::spinoff_prover]
proof fn lemma_dimension_entries_round_trip(es: Seq<Seq<u8>>, o: Seq<u8>, t: Seq<u8>)
    requires
        forall|i: int| 0 <= i < es.len() ==> fields_len(dimension_head(), #[trigger] es[i]) == Some(es[i].len()),
    ensures
        spec_dimension_entries(WireState { rest: dimensions_v1001(es) + t, out: o, cancelled: false }, true, es.len())
            == Some(WireState { rest: t, out: o + dimensions_v2168(es), cancelled: false }),
        spec_dimension_entries(WireState { rest: dimensions_v2168(es) + t, out: o, cancelled: false }, false, es.len())
            == Some(WireState { rest: t, out: o + dimensions_v1001(es), cancelled: false }),
    decreases es.len(),
{
    if es.len() == 0 {
        assert(o + Seq::<u8>::empty() =~= o);
        assert(Seq::<u8>::empty() + t =~= t);
    } else {
        let p = es.drop_last();
        let e = es.last();
        assert(fields_len(dimension_head(), es[es.len() - 1]) == Some(es[es.len() - 1].len()));
        assert forall|i: int| 0 <= i < p.len() implies fields_len(dimension_head(), #[trigger] p[i]) == Some(p[i].len()) by {
            assert(p[i] == es[i]);
        }
        // Up.
        lemma_dimension_entries_round_trip(p, o, e + t);
        assert(dimensions_v1001(es) + t =~= dimensions_v1001(p) + (e + t));
        let s = WireState { rest: e + t, out: o + dimensions_v2168(p), cancelled: false };
        lemma_fields_copied(dimension_head(), s, e, t);
        assert(o + dimensions_v2168(p) + e + zeros(16) =~= o + dimensions_v2168(es));
        // Down.
        lemma_dimension_entries_round_trip(p, o, e + (zeros(16) + t));
        assert(dimensions_v2168(es) + t =~= dimensions_v2168(p) + (e + (zeros(16) + t)));
        let u = WireState { rest: e + (zeros(16) + t), out: o + dimensions_v1001(p), cancelled: false };
        lemma_fields_copied(dimension_head(), u, e, zeros(16) + t);
        lemma_take_fixed(zeros(16), t);
        assert(o + dimensions_v1001(p) + e =~= o + dimensions_v1001(es));
    }
}

/// A protocol-1001 DimensionData taken to protocol 2168 and back is
/// unchanged.
pub proof fn law_dimension_data_round_trip(es: Seq<Seq<u8>>, t: Seq<u8>)
    requires
        es.len() <= u32::MAX,
        forall|i: int| 0 <= i < es.len() ==> fields_len(dimension_head(), #[trigger] es[i]) == Some(es[i].len()),
    ensures
        ({
            let n = ser_u32v(es.len() as u32);
            &&& spec_dimension_data(start(n + dimensions_v1001(es) + t), true) matches Some(a)
                && finished(a) == n + dimensions_v2168(es) + t
            &&& spec_dimension_data(start(n + dimensions_v2168(es) + t), false) matches Some(b)
                && finished(b) == n + dimensions_v1001(es) + t
        }),
{
    let c = es.len() as u32;
    let n = ser_u32v(c);
    lemma_dimension_entries_round_trip(es, n, t);
    let x = n + dimensions_v1001(es) + t;
    assert(x =~= n + (dimensions_v1001(es) + t));
    crate::codec::lemma_u32v_round_trip(c, dimensions_v1001(es) + t);
    assert(x.skip(n.len() as int) =~= dimensions_v1001(es) + t);
    assert(x.take(n.len() as int) =~= n);
    assert(finished(spec_dimension_data(start(x), true).unwrap()) =~= n + dimensions_v2168(es) + t);
    let y = n + dimensions_v2168(es) + t;
    assert(y =~= n + (dimensions_v2168(es) + t));
    crate::codec::lemma_u32v_round_trip(c, dimensions_v2168(es) + t);
    assert(y.skip(n.len() as int) =~= dimensions_v2168(es) + t);
    assert(y.take(n.len() as int) =~= n);
    assert(finished(spec_dimension_data(start(y), false).unwrap()) =~= n + dimensions_v1001(es) + t);
}

/// Transfer: the address, port and reload flag are kept; protocol 2168 adds
/// a flag (written as false) that, when set, is followed by data protocol
/// 1001 cannot carry, which is dropped with the rest of the body.
pub open spec fn spec_transfer(st: WireState, to_v2168: bool) -> Option<WireState> {
    match pass_fields(st, seq![Field::Str, Field::Fixed(2), Field::Byte]) {
        Some(s1) => if to_v2168 {
            Some(put(s1, ser_bool(false)))
        } else {
            match take_flag(s1.rest) {
                Some((extra, r)) => Some(WireState { rest: if extra { Seq::empty() } else { r }, ..s1 }),
                None => None,
            }
        },
        None => None,
    }
}

pub fn transfer(w: &mut PacketWrapper, to_v2168: bool) -> (r: Result<(), DecodeError>)
    requires
        old(w).wf(),
    ensures
        final(w).wf(),
        match spec_transfer(old(w)@, to_v2168) {
            Some(st) => r is Ok && final(w)@ == st,
            None => r is Err,
        },
{
    let fs = vec![Field::Str, Field::Fixed(2), Field::Byte];
    assert(fs@.skip(0) =~= seq![Field::Str, Field::Fixed(2), Field::Byte]);
    w.passthrough_fields(fs.as_slice(), 0)?;
    if to_v2168 {
        w.write_bool(false);
    } else if read_flag(w)? {
        w.skip_rest();
    }
    Ok(())
}

/// AnvilDamage: protocol 1001 has a leading byte that protocol 2168 lacks;
/// it is dropped toward 2168 and written as zero toward 1001.
pub open spec fn spec_anvil_damage(st: WireState, to_v2168: bool) -> Option<WireState> {
    if to_v2168 {
        match take_u8(st.rest) {
            Some((_, r)) => Some(WireState { rest: r, ..st }),
            None => None,
        }
    } else {
        Some(put(st, ser_u8(0)))
    }
}

pub fn anvil_damage(w: &mut PacketWrapper, to_v2168: bool) -> (r: Result<(), DecodeError>)
    requires
        old(w).wf(),
    ensures
        final(w).wf(),
        match spec_anvil_damage(old(w)@, to_v2168) {
            Some(st) => r is Ok && final(w)@ == st,
            None => r is Err,
        },
{
    if to_v2168 {
        w.read_u8()?;
    } else {
        w.write_u8(0);
    }
    Ok(())
}

/// PlaySound: the name, position, volume and pitch are kept; protocol 2168
/// adds a loop count, written as `loops` and dropped toward 1001.
pub open spec fn spec_play_sound(st: WireState, to_v2168: bool, loops: i32) -> Option<WireState> {
    match pass_fields(st, seq![Field::Str, Field::VarInt, Field::VarInt, Field::VarInt, Field::Fixed(4), Field::Fixed(4)]) {
        Some(s1) => if to_v2168 {
            Some(put(s1, ser_i32v(loops)))
        } else {
            match take_i32v(s1.rest) {
                Some((_, r)) => Some(WireState { rest: r, ..s1 }),
                None => None,
            }
        },
        None => None,
    }
}

pub fn play_sound(w: &mut PacketWrapper, to_v2168: bool, loops: i32) -> (r: Result<(), DecodeError>)
    requires
        old(w).wf(),
    ensures
        final(w).wf(),
        match spec_play_sound(old(w)@, to_v2168, loops) {
            Some(st) => r is Ok && final(w)@ == st,
            None => r is Err,
        },
{
    let fs = vec![Field::Str, Field::VarInt, Field::VarInt, Field::VarInt, Field::Fixed(4), Field::Fixed(4)];
    assert(fs@.skip(0) =~= seq![Field::Str, Field::VarInt, Field::VarInt, Field::VarInt, Field::Fixed(4), Field::Fixed(4)]);
    w.passthrough_fields(fs.as_slice(), 0)?;
    if to_v2168 {
        w.write_i32v(loops);
    } else {
        w.read_i32v()?;
    }
    Ok(())
}

/// ServerboundDiagnostics between 1001 and 2168: the lists are kept;
/// protocol 2168 appends a list, written empty; a non-empty one, which
/// protocol 1001 cannot carry, drops the packet.
pub open spec fn spec_serverbound_diagnostics(st: WireState, to_v2168: bool) -> Option<WireState> {
    match pass(st, Field::Fixed(36)) {
        Some(s1) => match crate::wrapper::pass_list(s1, crate::steps::v975_v1001::memory_record()) {
            Some(s2) => match crate::wrapper::pass_list(s2, crate::steps::v975_v1001::entity_record()) {
                Some(s3) => match crate::wrapper::pass_list(s3, crate::steps::v975_v1001::system_record()) {
                    Some(s4) => if to_v2168 {
                        Some(put(s4, ser_u32v(0)))
                    } else {
                        match take_u32v(s4.rest) {
                            Some((n, r)) => if n != 0 {
                                Some(WireState { rest: r, cancelled: true, ..s4 })
                            } else {
                                Some(WireState { rest: r, ..s4 })
                            },
                            None => None,
                        }
                    },
                    None => None,
                },
                None => None,
            },
            None => None,
        },
        None => None,
    }
}

pub fn serverbound_diagnostics(w: &mut PacketWrapper, to_v2168: bool) -> (r: Result<(), DecodeError>)
    requires
        old(w).wf(),
    ensures
        final(w).wf(),
        match spec_serverbound_diagnostics(old(w)@, to_v2168) {
            Some(st) => r is Ok && final(w)@ == st,
            None => r is Err,
        },
{
    w.passthrough(Field::Fixed(36))?;
    let memory = vec![Field::Byte, Field::Fixed(8)];
    assert(memory@ =~= crate::steps::v975_v1001::memory_record());
    w.passthrough_list(memory.as_slice())?;
    let entity = vec![Field::Str, Field::Str, Field::Fixed(8), Field::Byte];
    assert(entity@ =~= crate::steps::v975_v1001::entity_record());
    w.passthrough_list(entity.as_slice())?;
    let system = vec![Field::Str, Field::Fixed(8), Field::Fixed(8), Field::Byte];
    assert(system@ =~= crate::steps::v975_v1001::system_record());
    w.passthrough_list(system.as_slice())?;
    if to_v2168 {
        w.write_u32v(0);
    } else if w.read_u32v()? != 0 {
        w.cancel();
    }
    Ok(())
}

/// A list copied from input that begins with exactly it.
proof fn lemma_list_copied(fs: Seq<Field>, st: WireState, l: Seq<u8>, t: Seq<u8>)
    requires
        crate::wrapper::list_len(fs, l) == Some(l.len()),
        st.rest == l + t,
    ensures
        crate::wrapper::pass_list(st, fs) == Some(WireState { rest: t, out: st.out + l, ..st }),
{
    crate::wrapper::lemma_pass_list_replay(fs, l, t, st.out, st.cancelled);
    assert(l.take(l.len() as int) =~= l);
}

/// A protocol-1001 ServerboundDiagnostics taken to protocol 2168 gains an
/// empty list, and taken back is unchanged.
pub proof fn law_serverbound_diagnostics_round_trip(head: Seq<u8>, memory: Seq<u8>, entities: Seq<u8>, systems: Seq<u8>, t: Seq<u8>)
    requires
        head.len() == 36,
        crate::wrapper::list_len(crate::steps::v975_v1001::memory_record(), memory) == Some(memory.len()),
        crate::wrapper::list_len(crate::steps::v975_v1001::entity_record(), entities) == Some(entities.len()),
        crate::wrapper::list_len(crate::steps::v975_v1001::system_record(), systems) == Some(systems.len()),
    ensures
        ({
            let body = head + memory + entities + systems;
            &&& spec_serverbound_diagnostics(start(body + t), true) matches Some(a)
                && finished(a) == body + ser_u32v(0) + t && !a.cancelled
            &&& spec_serverbound_diagnostics(start(body + ser_u32v(0) + t), false) matches Some(b)
                && finished(b) == body + t && !b.cancelled
        }),
{
    let body = head + memory + entities + systems;
    let tails = seq![t, ser_u32v(0) + t];
    assert forall|k: int| 0 <= k < 2 implies ({
        let tk = #[trigger] tails[k];
        let s0 = start(body + tk);
        let s1 = WireState { rest: memory + (entities + (systems + tk)), out: head, cancelled: false };
        let s2 = WireState { rest: entities + (systems + tk), out: head + memory, cancelled: false };
        let s3 = WireState { rest: systems + tk, out: head + memory + entities, cancelled: false };
        let s4 = WireState { rest: tk, out: body, cancelled: false };
        &&& pass(s0, Field::Fixed(36)) == Some(s1)
        &&& crate::wrapper::pass_list(s1, crate::steps::v975_v1001::memory_record()) == Some(s2)
        &&& crate::wrapper::pass_list(s2, crate::steps::v975_v1001::entity_record()) == Some(s3)
        &&& crate::wrapper::pass_list(s3, crate::steps::v975_v1001::system_record()) == Some(s4)
    }) by {
        let tk = tails[k];
        let x = body + tk;
        assert(x =~= head + (memory + (entities + (systems + tk))));
        assert(x.skip(36) =~= memory + (entities + (systems + tk)));
        assert(x.take(36) =~= head);
        let s1 = WireState { rest: memory + (entities + (systems + tk)), out: head, cancelled: false };
        lemma_list_copied(crate::steps::v975_v1001::memory_record(), s1, memory, entities + (systems + tk));
        let s2 = WireState { rest: entities + (systems + tk), out: head + memory, cancelled: false };
        lemma_list_copied(crate::steps::v975_v1001::entity_record(), s2, entities, systems + tk);
        let s3 = WireState { rest: systems + tk, out: head + memory + entities, cancelled: false };
        lemma_list_copied(crate::steps::v975_v1001::system_record(), s3, systems, tk);
        assert(head + memory + entities + systems =~= body);
    }
    assert(tails[0] == t);
    assert(tails[1] == ser_u32v(0) + t);
    crate::codec::lemma_take_u32v(0, t);
    assert(finished(spec_serverbound_diagnostics(start(body + t), true).unwrap()) =~= body + ser_u32v(0) + t);
    assert(body + ser_u32v(0) + t =~= body + (ser_u32v(0) + t));
    assert(finished(spec_serverbound_diagnostics(start(body + (ser_u32v(0) + t)), false).unwrap()) =~= body + t);
}

/// ResourcePacksInfo: the head is kept; the pack count is a 16-bit
/// little-endian value in protocol 1001 and a variable-length integer in
/// 2168; a count over 65535 cannot go to 1001.
pub open spec fn resource_packs_head() -> Seq<Field> {
    seq![Field::Byte, Field::Byte, Field::Byte, Field::Byte, Field::Fixed(16), Field::Str]
}

pub open spec fn spec_resource_packs_info(st: WireState, to_v2168: bool) -> Option<WireState> {
    match pass_fields(st, resource_packs_head()) {
        Some(s1) => if to_v2168 {
            match take_fixed(2, s1.rest) {
                Some((cb, r)) => Some(put(WireState { rest: r, ..s1 }, ser_u32v(from_le16(cb) as u32))),
                None => None,
            }
        } else {
            match take_u32v(s1.rest) {
                Some((count, r)) => if count <= 0xffff {
                    Some(put(WireState { rest: r, ..s1 }, le16(count as u16)))
                } else {
                    None
                },
                None => None,
            }
        },
        None => None,
    }
}

pub fn resource_packs_info(w: &mut PacketWrapper, to_v2168: bool) -> (r: Result<(), DecodeError>)
    requires
        old(w).wf(),
    ensures
        final(w).wf(),
        match spec_resource_packs_info(old(w)@, to_v2168) {
            Some(st) => r is Ok && final(w)@ == st,
            None => r is Err,
        },
{
    let head = vec![Field::Byte, Field::Byte, Field::Byte, Field::Byte, Field::Fixed(16), Field::Str];
    assert(head@.skip(0) =~= resource_packs_head());
    w.passthrough_fields(head.as_slice(), 0)?;
    if to_v2168 {
        let cb = w.read_fixed(2)?;
        let count: u16 = (cb[0] as u16) + (cb[1] as u16) * 256;
        assert(count == from_le16(cb@));
        w.write_u32v(count as u32);
    } else {
        let count = w.read_u32v()?;
        if count > 0xffff {
            return Err(DecodeError);
        }
        let c = count as u16;
        w.write_u8((c % 256) as u8);
        w.write_u8((c / 256) as u8);
        assert(w@.out =~= spec_resource_packs_info(old(w)@, to_v2168).unwrap().out);
    }
    Ok(())
}

/// A protocol-1001 Transfer taken to protocol 2168 and back is unchanged, and
/// so is a protocol-2168 one that carries no extra data.
pub proof fn law_transfer_round_trip(head: Seq<u8>, t: Seq<u8>)
    requires
        fields_len(seq![Field::Str, Field::Fixed(2), Field::Byte], head) == Some(head.len()),
    ensures
        spec_transfer(start(head + t), true) matches Some(a) && finished(a) == head + ser_bool(false) + t,
        spec_transfer(start(head + ser_bool(false) + t), false) matches Some(b) && finished(b) == head + t,
{
    let fs = seq![Field::Str, Field::Fixed(2), Field::Byte];
    lemma_head_copied(fs, head, t);
    assert(finished(spec_transfer(start(head + t), true).unwrap()) =~= head + ser_bool(false) + t);
    lemma_head_copied(fs, head, ser_bool(false) + t);
    assert(head + ser_bool(false) + t =~= head + (ser_bool(false) + t));
    lemma_take_u8(0u8, t);
    assert(ser_bool(false) =~= ser_u8(0u8));
}

/// A protocol-2168 AnvilDamage taken to protocol 1001 and back is unchanged;
/// a protocol-1001 one whose leading byte is zero is unchanged the other way.
pub proof fn law_anvil_damage_round_trip(x: Seq<u8>)
    ensures
        spec_anvil_damage(start(x), false) matches Some(a) && finished(a) == ser_u8(0u8) + x,
        spec_anvil_damage(start(ser_u8(0u8) + x), true) matches Some(b) && finished(b) == x,
{
    assert(finished(spec_anvil_damage(start(x), false).unwrap()) =~= ser_u8(0u8) + x);
    lemma_take_u8(0u8, x);
    assert(finished(spec_anvil_damage(start(ser_u8(0u8) + x), true).unwrap()) =~= x);
}

/// The fields of PlaySound that both protocols share.
pub open spec fn play_sound_fields() -> Seq<Field> {
    seq![Field::Str, Field::VarInt, Field::VarInt, Field::VarInt, Field::Fixed(4), Field::Fixed(4)]
}

/// A protocol-1001 PlaySound taken to protocol 2168 gains the loop count,
/// and taken back is unchanged.
pub proof fn law_play_sound_round_trip(head: Seq<u8>, loops: i32, t: Seq<u8>)
    requires
        fields_len(play_sound_fields(), head) == Some(head.len()),
    ensures
        spec_play_sound(start(head + t), true, loops) matches Some(a) && finished(a) == head + ser_i32v(loops) + t,
        spec_play_sound(start(head + ser_i32v(loops) + t), false, loops) matches Some(b) && finished(b) == head + t,
{
    lemma_head_copied(play_sound_fields(), head, t);
    assert(finished(spec_play_sound(start(head + t), true, loops).unwrap()) =~= head + ser_i32v(loops) + t);
    lemma_head_copied(play_sound_fields(), head, ser_i32v(loops) + t);
    assert(head + ser_i32v(loops) + t =~= head + (ser_i32v(loops) + t));
    crate::codec::lemma_take_i32v(loops, t);
}

/// A protocol-1001 ResourcePacksInfo taken to protocol 2168 and back is
/// unchanged, and so is a protocol-2168 one whose pack count fits 16 bits.
pub proof fn law_resource_packs_info_round_trip(head: Seq<u8>, count: u16, t: Seq<u8>)
    requires
        fields_len(resource_packs_head(), head) == Some(head.len()),
    ensures
        spec_resource_packs_info(start(head + le16(count) + t), true) matches Some(a)
            && finished(a) == head + ser_u32v(count as u32) + t,
        spec_resource_packs_info(start(head + ser_u32v(count as u32) + t), false) matches Some(b)
            && finished(b) == head + le16(count) + t,
{
    assert(from_le16(le16(count)) == count);
    lemma_head_copied(resource_packs_head(), head, le16(count) + t);
    assert(head + le16(count) + t =~= head + (le16(count) + t));
    lemma_take_fixed(le16(count), t);
    assert(finished(spec_resource_packs_info(start(head + le16(count) + t), true).unwrap())
        =~= head + ser_u32v(count as u32) + t);
    lemma_head_copied(resource_packs_head(), head, ser_u32v(count as u32) + t);
    assert(head + ser_u32v(count as u32) + t =~= head + (ser_u32v(count as u32) + t));
    crate::codec::lemma_take_u32v(count as u32, t);
    assert(((count as u32) as u16) == count);
    assert(finished(spec_resource_packs_info(start(head + ser_u32v(count as u32) + t), false).unwrap())
        =~= head + le16(count) + t);
}

/// The response names of protocol 2168, by number: cancel, downloading,
/// downloadingfinished, resourcepackstackfinished.
pub open spec fn pack_response_name(n: u32) -> Seq<u8> {
    if n == 0 {
        seq![99u8, 97, 110, 99, 101, 108]
    } else if n == 1 {
        seq![100u8, 111, 119, 110, 108, 111, 97, 100, 105, 110, 103]
    } else if n == 2 {
        seq![100u8, 111, 119, 110, 108, 111, 97, 100, 105, 110, 103, 102, 105, 110, 105, 115, 104, 101, 100]
    } else {
        seq![114u8, 101, 115, 111, 117, 114, 99, 101, 112, 97, 99, 107, 115, 116, 97, 99, 107, 102, 105, 110,
            105, 115, 104, 101, 100]
    }
}

fn pack_response_name_bytes(n: u32) -> (b: Vec<u8>)
    requires
        n < 4,
    ensures
        b@ == pack_response_name(n),
{
    let b = if n == 0 {
        vec![99u8, 97, 110, 99, 101, 108]
    } else if n == 1 {
        vec![100u8, 111, 119, 110, 108, 111, 97, 100, 105, 110, 103]
    } else if n == 2 {
        vec![100u8, 111, 119, 110, 108, 111, 97, 100, 105, 110, 103, 102, 105, 110, 105, 115, 104, 101, 100]
    } else {
        vec![114u8, 101, 115, 111, 117, 114, 99, 101, 112, 97, 99, 107, 115, 116, 97, 99, 107, 102, 105, 110,
            105, 115, 104, 101, 100]
    };
    assert(b@ =~= pack_response_name(n));
    b
}

/// `n` strings in turn.
pub open spec fn take_strs(s: Seq<u8>, n: nat) -> Option<(Seq<Seq<u8>>, Seq<u8>)>
    decreases n,
{
    if n == 0 {
        Some((Seq::empty(), s))
    } else {
        match take_strs(s, (n - 1) as nat) {
            Some((v, r)) => match crate::codec::take_str(r) {
                Some((x, r2)) => Some((v.push(x), r2)),
                None => None,
            },
            None => None,
        }
    }
}

/// Strings one after another.
pub open spec fn ser_strs(v: Seq<Seq<u8>>) -> Seq<u8>
    decreases v.len(),
{
    if v.len() == 0 {
        Seq::empty()
    } else {
        ser_strs(v.drop_last()) + crate::codec::ser_str(v.last())
    }
}

/// The response that asks for packs.
pub const PACK_RESPONSE_SEND_PACKS_V2168: u32 = 1;

/// ResourcePackClientResponse: protocol 1001 numbers the response from 1
/// as a byte and always lists the packs after a 16-bit count; protocol
/// 2168 numbers it from 0, adds its name, and lists the packs only for
/// the response that asks for them. Numbers outside the four responses
/// are refused.
pub open spec fn spec_resource_pack_client_response(st: WireState, to_v2168: bool) -> Option<WireState> {
    if to_v2168 {
        match take_u8(st.rest) {
            Some((old, r1)) => if old < 1 || old > 4 {
                None
            } else {
                let new = (old - 1) as u32;
                match take_fixed(2, r1) {
                    Some((cb, r2)) => match take_strs(r2, from_le16(cb) as nat) {
                        Some((packs, r3)) => {
                            Some(put(
                                WireState { rest: r3, ..st },
                                ser_u32v(new) + crate::codec::ser_str(pack_response_name(new))
                                    + if new == PACK_RESPONSE_SEND_PACKS_V2168 {
                                    ser_u32v(packs.len() as u32) + ser_strs(packs)
                                } else {
                                    Seq::empty()
                                },
                            ))
                        },
                        None => None,
                    },
                    None => None,
                }
            },
            None => None,
        }
    } else {
        match take_u32v(st.rest) {
            Some((new, r1)) => if new >= 4 {
                None
            } else {
                match crate::codec::take_str(r1) {
                    Some((_, r2)) => match if new == PACK_RESPONSE_SEND_PACKS_V2168 {
                        match take_u32v(r2) {
                            Some((count, r3)) => take_strs(r3, count as nat),
                            None => None,
                        }
                    } else {
                        Some((Seq::empty(), r2))
                    } {
                        Some((packs, r4)) => Some(put(
                            WireState { rest: r4, ..st },
                            ser_u8((new + 1) as u8) + le16(packs.len() as u16) + ser_strs(packs),
                        )),
                        None => None,
                    },
                    None => None,
                }
            },
            None => None,
        }
    }
}

proof fn lemma_strs_stuck(s: Seq<u8>, i: nat, n: nat)
    requires
        i <= n,
        take_strs(s, i) is None,
    ensures
        take_strs(s, n) is None,
    decreases n - i,
{
    if i < n {
        lemma_strs_stuck(s, i + 1, n);
    }
}

proof fn lemma_strs_short(s: Seq<u8>, n: nat)
    requires
        take_strs(s, n) is Some,
    ensures
        take_strs(s, n).unwrap().0.len() == n,
        forall|k: int| 0 <= k < n ==> (#[trigger] take_strs(s, n).unwrap().0[k]).len() < 0x1_0000_0000,
    decreases n,
{
    if n > 0 {
        lemma_strs_short(s, (n - 1) as nat);
    }
}

/// Reads `count` strings.
fn read_strs(w: &mut PacketWrapper, count: u32) -> (r: Result<Vec<Vec<u8>>, DecodeError>)
    requires
        old(w).wf(),
    ensures
        final(w).wf(),
        match take_strs(old(w)@.rest, count as nat) {
            Some((v, rest)) => r matches Ok(x) && x@.len() == v.len()
                && (forall|k: int| 0 <= k < v.len() ==> (#[trigger] x@[k])@ == v[k])
                && final(w)@ == (WireState { rest, ..old(w)@ }),
            None => r is Err,
        },
{
    let ghost s0 = old(w)@.rest;
    let mut v: Vec<Vec<u8>> = Vec::new();
    let mut k: u32 = 0;
    while k < count
        invariant
            w.wf(),
            k <= count,
            s0 == old(w)@.rest,
            w@.out == old(w)@.out,
            w@.cancelled == old(w)@.cancelled,
            take_strs(s0, k as nat) matches Some((vv, rr)) && rr == w@.rest && vv.len() == v@.len()
                && forall|j: int| 0 <= j < vv.len() ==> (#[trigger] v@[j])@ == vv[j],
        decreases count - k,
    {
        match w.read_str() {
            Ok(x) => {
                v.push(x);
            },
            Err(e) => {
                proof { lemma_strs_stuck(s0, (k + 1) as nat, count as nat); }
                return Err(e);
            },
        }
        k = k + 1;
    }
    Ok(v)
}

/// Writes strings one after another.
fn write_strs(w: &mut PacketWrapper, v: &Vec<Vec<u8>>, vv: Ghost<Seq<Seq<u8>>>)
    requires
        old(w).wf(),
        v@.len() == vv@.len(),
        forall|j: int| 0 <= j < vv@.len() ==> (#[trigger] v@[j])@ == vv@[j],
        forall|j: int| 0 <= j < vv@.len() ==> (#[trigger] vv@[j]).len() < 0x1_0000_0000,
    ensures
        final(w).wf(),
        final(w)@ == put(old(w)@, ser_strs(vv@)),
{
    let mut k: usize = 0;
    assert(vv@.take(0) =~= Seq::<Seq<u8>>::empty());
    assert(old(w)@.out + Seq::<u8>::empty() =~= old(w)@.out);
    while k < v.len()
        invariant
            w.wf(),
            k <= v@.len(),
            v@.len() == vv@.len(),
            forall|j: int| 0 <= j < vv@.len() ==> (#[trigger] v@[j])@ == vv@[j],
            forall|j: int| 0 <= j < vv@.len() ==> (#[trigger] vv@[j]).len() < 0x1_0000_0000,
            w@ == put(old(w)@, ser_strs(vv@.take(k as int))),
        decreases v@.len() - k,
    {
        assert(v@[k as int]@ == vv@[k as int]);
        w.write_str(v[k].as_slice());
        assert(vv@.take(k + 1).drop_last() =~= vv@.take(k as int));
        assert(w@.out =~= old(w)@.out + ser_strs(vv@.take(k + 1)));
        k = k + 1;
    }
    assert(vv@.take(v@.len() as int) =~= vv@);
}

pub fn resource_pack_client_response(w: &mut PacketWrapper, to_v2168: bool) -> (r: Result<(), DecodeError>)
    requires
        old(w).wf(),
    ensures
        final(w).wf(),
        match spec_resource_pack_client_response(old(w)@, to_v2168) {
            Some(st) => r is Ok && final(w)@ == st,
            None => r is Err,
        },
{
    let ghost s0 = old(w)@;
    if to_v2168 {
        let old_value = w.read_u8()?;
        if old_value < 1 || old_value > 4 {
            return Err(DecodeError);
        }
        let new = (old_value - 1) as u32;
        let cb = w.read_fixed(2)?;
        let count: u16 = (cb[0] as u16) + (cb[1] as u16) * 256;
        assert(count == from_le16(cb@));
        let ghost r2 = w@.rest;
        let packs = read_strs(w, count as u32)?;
        let ghost pv = take_strs(r2, count as nat).unwrap().0;
        proof { lemma_strs_short(r2, count as nat); }
        let ghost s3 = w@;
        w.write_u32v(new);
        let name = pack_response_name_bytes(new);
        w.write_str(name.as_slice());
        if new == PACK_RESPONSE_SEND_PACKS_V2168 {
            w.write_u32v(packs.len() as u32);
            write_strs(w, &packs, Ghost(pv));
            assert(w@.out =~= s3.out + (ser_u32v(new) + crate::codec::ser_str(pack_response_name(new))
                + (ser_u32v(pv.len() as u32) + ser_strs(pv))));
        } else {
            assert(w@.out =~= s3.out + (ser_u32v(new) + crate::codec::ser_str(pack_response_name(new))
                + Seq::<u8>::empty()));
        }
    } else {
        let new = w.read_u32v()?;
        if new >= 4 {
            return Err(DecodeError);
        }
        w.read_str()?;
        let ghost r2 = w@.rest;
        let packs = if new == PACK_RESPONSE_SEND_PACKS_V2168 {
            let count = w.read_u32v()?;
            let ghost r3 = w@.rest;
            let p = read_strs(w, count)?;
            proof { lemma_strs_short(r3, count as nat); }
            p
        } else {
            Vec::new()
        };
        let ghost pv: Seq<Seq<u8>> = if new == PACK_RESPONSE_SEND_PACKS_V2168 {
            take_strs(take_u32v(r2).unwrap().1, take_u32v(r2).unwrap().0 as nat).unwrap().0
        } else {
            Seq::empty()
        };
        let ghost s4 = w@;
        w.write_u8((new + 1) as u8);
        let n = packs.len() as u16;
        w.write_u8((n % 256) as u8);
        w.write_u8((n / 256) as u8);
        write_strs(w, &packs, Ghost(pv));
        assert(w@.out =~= s4.out + (ser_u8((new + 1) as u8) + le16(pv.len() as u16) + ser_strs(pv)));
    }
    Ok(())
}

/// A 16-byte id toward protocol 2168, where it is optional: announced
/// present.
pub open spec fn id_up(st: WireState) -> Option<WireState> {
    match take_fixed(16, st.rest) {
        Some((v, r)) => Some(put(WireState { rest: r, ..st }, ser_bool(true) + v)),
        None => None,
    }
}

/// A string toward protocol 2168, where it is optional: announced present.
pub open spec fn str_up(st: WireState) -> Option<WireState> {
    match crate::codec::take_str(st.rest) {
        Some((v, r)) => if v.len() < two32() {
            Some(put(WireState { rest: r, ..st }, ser_bool(true) + crate::codec::ser_str(v)))
        } else {
            None
        },
        None => None,
    }
}

/// An optional 16-byte id toward protocol 1001: the id, or zero.
pub open spec fn id_down(st: WireState) -> Option<WireState> {
    match take_flag(st.rest) {
        Some((present, r)) => if present {
            match take_fixed(16, r) {
                Some((v, r2)) => Some(put(WireState { rest: r2, ..st }, v)),
                None => None,
            }
        } else {
            Some(put(WireState { rest: r, ..st }, zeros(16)))
        },
        None => None,
    }
}

/// An optional string toward protocol 1001: the string, or the empty one.
pub open spec fn str_down(st: WireState) -> Option<WireState> {
    match take_flag(st.rest) {
        Some((present, r)) => if present {
            match crate::codec::take_str(r) {
                Some((v, r2)) => Some(put(WireState { rest: r2, ..st }, crate::codec::ser_str(v))),
                None => None,
            }
        } else {
            Some(put(WireState { rest: r, ..st }, crate::codec::ser_str(Seq::empty())))
        },
        None => None,
    }
}

/// An optional string that is read and not written.
pub open spec fn opt_str_dropped(st: WireState) -> Option<WireState> {
    match take_flag(st.rest) {
        Some((present, r)) => if present {
            match crate::codec::take_str(r) {
                Some((_, r2)) => Some(WireState { rest: r2, ..st }),
                None => None,
            }
        } else {
            Some(WireState { rest: r, ..st })
        },
        None => None,
    }
}

/// An id toward either protocol.
pub open spec fn id_conv(st: WireState, to_v2168: bool) -> Option<WireState> {
    if to_v2168 { id_up(st) } else { id_down(st) }
}

/// A string toward either protocol.
pub open spec fn str_conv(st: WireState, to_v2168: bool) -> Option<WireState> {
    if to_v2168 { str_up(st) } else { str_down(st) }
}

/// The front of the world block: the party id and name are kept; the
/// world id and name become optional toward protocol 2168 and plain toward
/// 1001.
pub open spec fn join_world_front(st: WireState, to_v2168: bool) -> Option<WireState> {
    match pass_fields(st, seq![Field::Fixed(16), Field::Str]) {
        Some(s1) => match id_conv(s1, to_v2168) {
            Some(s2) => str_conv(s2, to_v2168),
            None => None,
        },
        None => None,
    }
}

/// The back of the world block: the game is kept; the target id, scenario
/// and server change as the world id and name do.
pub open spec fn join_world_back(st: WireState, to_v2168: bool) -> Option<WireState> {
    match pass(st, Field::Str) {
        Some(s1) => match id_conv(s1, to_v2168) {
            Some(s2) => match str_conv(s2, to_v2168) {
                Some(s3) => str_conv(s3, to_v2168),
                None => None,
            },
            None => None,
        },
        None => None,
    }
}

/// The world block of the join information.
pub open spec fn join_world(st: WireState, to_v2168: bool) -> Option<WireState> {
    match join_world_front(st, to_v2168) {
        Some(s) => join_world_back(s, to_v2168),
        None => None,
    }
}

/// The rich-presence block of the join information: protocol 1001 has two
/// optional strings before the text, which protocol 2168 does not carry;
/// the text becomes optional toward 2168 and plain toward 1001.
pub open spec fn join_rich(st: WireState, to_v2168: bool) -> Option<WireState> {
    if to_v2168 {
        match opt_str_dropped(st) {
            Some(s1) => match opt_str_dropped(s1) {
                Some(s2) => str_up(s2),
                None => None,
            },
            None => None,
        }
    } else {
        str_down(put(st, ser_bool(false) + ser_bool(false)))
    }
}

/// The world block behind its presence flag.
#[verifier::opaque]
pub open spec fn join_world_opt(st: WireState, to_v2168: bool) -> Option<WireState> {
    match take_flag(st.rest) {
        Some((present, _)) => if present { join_world(copied(st, 1), to_v2168) } else { Some(copied(st, 1)) },
        None => None,
    }
}

/// The pair of strings behind its presence flag, which both protocols copy.
#[verifier::opaque]
pub open spec fn join_names_opt(st: WireState) -> Option<WireState> {
    match take_flag(st.rest) {
        Some((present, _)) => if present {
            pass_fields(copied(st, 1), seq![Field::Str, Field::Str])
        } else {
            Some(copied(st, 1))
        },
        None => None,
    }
}

/// The rich-presence block behind its presence flag.
#[verifier::opaque]
pub open spec fn join_rich_opt(st: WireState, to_v2168: bool) -> Option<WireState> {
    match take_flag(st.rest) {
        Some((present, _)) => if present { join_rich(copied(st, 1), to_v2168) } else { Some(copied(st, 1)) },
        None => None,
    }
}

/// The three optional blocks of the join information.
pub open spec fn join_blocks(st: WireState, to_v2168: bool) -> Option<WireState> {
    match join_world_opt(st, to_v2168) {
        Some(s1) => match join_names_opt(s1) {
            Some(s2) => join_rich_opt(s2, to_v2168),
            None => None,
        },
        None => None,
    }
}

/// ServerJoinInformation: an optional record of optional blocks; the
/// world and rich-presence blocks change shape, the rest is kept.
pub open spec fn spec_server_join_information(st: WireState, to_v2168: bool) -> Option<WireState> {
    match take_flag(st.rest) {
        Some((present, _)) => if present { join_blocks(copied(st, 1), to_v2168) } else { Some(copied(st, 1)) },
        None => None,
    }
}

/// The world block of the join information: the party id and name, the
/// world id and name, the game, the target id, the scenario and the server.
pub struct JoinWorld {
    pub party_id: Seq<u8>,
    pub party_name: Seq<u8>,
    pub world_id: Seq<u8>,
    pub world_name: Seq<u8>,
    pub game: Seq<u8>,
    pub target: Seq<u8>,
    pub scenario: Seq<u8>,
    pub server: Seq<u8>,
}

/// The join information: the optional world block, the optional pair of
/// strings and the optional rich-presence text.
pub struct JoinInfo {
    pub world: Option<JoinWorld>,
    pub names: Option<(Seq<u8>, Seq<u8>)>,
    pub rich: Option<Seq<u8>>,
}

/// Ids of 16 bytes and strings whose length fits 32 bits.
pub open spec fn join_world_ok(w: JoinWorld) -> bool {
    &&& w.party_id.len() == 16
    &&& w.world_id.len() == 16
    &&& w.target.len() == 16
    &&& w.party_name.len() < two32()
    &&& w.world_name.len() < two32()
    &&& w.game.len() < two32()
    &&& w.scenario.len() < two32()
    &&& w.server.len() < two32()
}

pub open spec fn join_info_ok(j: JoinInfo) -> bool {
    &&& (j.world matches Some(w) ==> join_world_ok(w))
    &&& (j.names matches Some((a, b)) ==> a.len() < two32() && b.len() < two32())
    &&& (j.rich matches Some(r) ==> r.len() < two32())
}

/// A block behind a presence flag.
pub open spec fn ser_flagged(b: Option<Seq<u8>>) -> Seq<u8> {
    match b {
        Some(x) => ser_bool(true) + x,
        None => ser_bool(false),
    }
}

pub open spec fn world_v1001(w: JoinWorld) -> Seq<u8> {
    w.party_id + crate::codec::ser_str(w.party_name) + w.world_id + crate::codec::ser_str(w.world_name)
        + crate::codec::ser_str(w.game) + w.target + crate::codec::ser_str(w.scenario) + crate::codec::ser_str(w.server)
}

pub open spec fn world_v2168(w: JoinWorld) -> Seq<u8> {
    w.party_id + crate::codec::ser_str(w.party_name) + ser_flagged(Some(w.world_id))
        + ser_flagged(Some(crate::codec::ser_str(w.world_name))) + crate::codec::ser_str(w.game)
        + ser_flagged(Some(w.target)) + ser_flagged(Some(crate::codec::ser_str(w.scenario)))
        + ser_flagged(Some(crate::codec::ser_str(w.server)))
}

/// The join information as protocol 1001 writes it, with the two optional
/// rich-presence strings absent.
pub open spec fn join_v1001(j: Option<JoinInfo>) -> Seq<u8> {
    match j {
        None => ser_bool(false),
        Some(i) => ser_bool(true)
            + ser_flagged(match i.world { Some(w) => Some(world_v1001(w)), None => None })
            + ser_flagged(match i.names { Some((a, b)) => Some(crate::codec::ser_str(a) + crate::codec::ser_str(b)), None => None })
            + ser_flagged(match i.rich {
                Some(r) => Some(ser_bool(false) + ser_bool(false) + crate::codec::ser_str(r)),
                None => None,
            }),
    }
}

/// The same join information as protocol 2168 writes it.
pub open spec fn join_v2168(j: Option<JoinInfo>) -> Seq<u8> {
    match j {
        None => ser_bool(false),
        Some(i) => ser_bool(true)
            + ser_flagged(match i.world { Some(w) => Some(world_v2168(w)), None => None })
            + ser_flagged(match i.names { Some((a, b)) => Some(crate::codec::ser_str(a) + crate::codec::ser_str(b)), None => None })
            + ser_flagged(match i.rich { Some(r) => Some(ser_flagged(Some(crate::codec::ser_str(r)))), None => None }),
    }
}

proof fn lemma_id_steps(st: WireState, v: Seq<u8>, t: Seq<u8>)
    requires
        v.len() == 16,
        st.rest == v + t,
    ensures
        id_up(st) == Some(WireState { rest: t, out: st.out + ser_flagged(Some(v)), ..st }),
        id_down(WireState { rest: ser_flagged(Some(v)) + t, ..st }) == Some(WireState { rest: t, out: st.out + v, ..st }),
{
    lemma_take_fixed(v, t);
    assert(ser_flagged(Some(v)) + t =~= ser_u8(1u8) + (v + t));
    lemma_take_u8(1u8, v + t);
}

proof fn lemma_str_steps(st: WireState, v: Seq<u8>, t: Seq<u8>)
    requires
        v.len() < two32(),
        st.rest == crate::codec::ser_str(v) + t,
    ensures
        str_up(st) == Some(WireState { rest: t, out: st.out + ser_flagged(Some(crate::codec::ser_str(v))), ..st }),
        str_down(WireState { rest: ser_flagged(Some(crate::codec::ser_str(v))) + t, ..st })
            == Some(WireState { rest: t, out: st.out + crate::codec::ser_str(v), ..st }),
        pass(st, Field::Str) == Some(WireState { rest: t, out: st.out + crate::codec::ser_str(v), ..st }),
{
    crate::codec::lemma_take_str(v, t);
    crate::codec::lemma_str_round_trip(v, t);
    let x = crate::codec::ser_str(v) + t;
    assert(x.take(crate::codec::ser_str(v).len() as int) =~= crate::codec::ser_str(v));
    assert(ser_flagged(Some(crate::codec::ser_str(v))) + t =~= ser_u8(1u8) + x);
    lemma_take_u8(1u8, x);
}


/// The party id and name, which both protocols copy.
proof fn lemma_world_head(pid: Seq<u8>, name: Seq<u8>)
    requires
        pid.len() == 16,
        name.len() < two32(),
    ensures
        fields_len(seq![Field::Fixed(16), Field::Str], pid + crate::codec::ser_str(name))
            == Some((pid + crate::codec::ser_str(name)).len()),
{
    let pn = crate::codec::ser_str(name);
    let h = pid + pn;
    crate::codec::lemma_str_round_trip(name, Seq::empty());
    assert(pn + Seq::<u8>::empty() =~= pn);
    assert(h.skip(16) =~= pn);
    let fs = seq![Field::Fixed(16), Field::Str];
    assert(fs.drop_first() =~= seq![Field::Str]);
    assert(seq![Field::Str].drop_first() =~= Seq::<Field>::empty());
    assert(pn.skip(pn.len() as int) =~= Seq::<u8>::empty());
    assert(fields_len(Seq::<Field>::empty(), pn.skip(pn.len() as int)) == Some(0nat));
    assert(fields_len(seq![Field::Str], pn) == Some(pn.len()));
}

#[verifier::rlimit(60)]
#[verifier::spinoff_prover]
proof fn lemma_join_world_front(st: WireState, w: JoinWorld, t: Seq<u8>)
    requires
        join_world_ok(w),
    ensures
        ({
            let h = w.party_id + crate::codec::ser_str(w.party_name);
            let v1 = w.world_id + crate::codec::ser_str(w.world_name);
            let v2 = ser_flagged(Some(w.world_id)) + ser_flagged(Some(crate::codec::ser_str(w.world_name)));
            &&& join_world_front(WireState { rest: h + v1 + t, ..st }, true) == Some(WireState { rest: t, out: st.out + h + v2, ..st })
            &&& join_world_front(WireState { rest: h + v2 + t, ..st }, false) == Some(WireState { rest: t, out: st.out + h + v1, ..st })
        }),
{
    let h = w.party_id + crate::codec::ser_str(w.party_name);
    let wid = w.world_id;
    let wn = crate::codec::ser_str(w.world_name);
    let fw = ser_flagged(Some(wid));
    let fn_ = ser_flagged(Some(wn));
    let o = st.out;
    lemma_world_head(w.party_id, w.party_name);
    assert(h + (wid + wn) + t =~= h + (wid + (wn + t)));
    lemma_fields_copied(seq![Field::Fixed(16), Field::Str], WireState { rest: h + (wid + wn) + t, ..st }, h, wid + (wn + t));
    lemma_id_steps(WireState { rest: wid + (wn + t), out: o + h, ..st }, wid, wn + t);
    lemma_str_steps(WireState { rest: wn + t, out: o + h + fw, ..st }, w.world_name, t);
    assert(o + h + fw + fn_ =~= o + h + (fw + fn_));
    assert(h + (fw + fn_) + t =~= h + (fw + (fn_ + t)));
    lemma_fields_copied(seq![Field::Fixed(16), Field::Str], WireState { rest: h + (fw + fn_) + t, ..st }, h, fw + (fn_ + t));
    lemma_id_steps(WireState { rest: wid + (fn_ + t), out: o + h, ..st }, wid, fn_ + t);
    lemma_str_steps(WireState { rest: wn + t, out: o + h + wid, ..st }, w.world_name, t);
    assert(o + h + wid + wn =~= o + h + (wid + wn));
}

/// The back of the world block as protocol 1001 writes it.
pub open spec fn world_back_v1001(w: JoinWorld) -> Seq<u8> {
    crate::codec::ser_str(w.game) + w.target + crate::codec::ser_str(w.scenario) + crate::codec::ser_str(w.server)
}

/// The back of the world block as protocol 2168 writes it.
pub open spec fn world_back_v2168(w: JoinWorld) -> Seq<u8> {
    crate::codec::ser_str(w.game) + ser_flagged(Some(w.target)) + ser_flagged(Some(crate::codec::ser_str(w.scenario)))
        + ser_flagged(Some(crate::codec::ser_str(w.server)))
}

#[verifier::rlimit(60)]
#[verifier::spinoff_prover]
proof fn lemma_join_world_back_up(st: WireState, w: JoinWorld, t: Seq<u8>)
    requires
        join_world_ok(w),
    ensures
        join_world_back(WireState { rest: world_back_v1001(w) + t, ..st }, true)
            == Some(WireState { rest: t, out: st.out + world_back_v2168(w), ..st }),
{
    let g = crate::codec::ser_str(w.game);
    let tg = w.target;
    let sc = crate::codec::ser_str(w.scenario);
    let sv = crate::codec::ser_str(w.server);
    let ft = ser_flagged(Some(tg));
    let fs = ser_flagged(Some(sc));
    let fv = ser_flagged(Some(sv));
    let o = st.out;
    assert(world_back_v1001(w) + t =~= g + (tg + (sc + (sv + t))));
    lemma_str_steps(WireState { rest: g + (tg + (sc + (sv + t))), ..st }, w.game, tg + (sc + (sv + t)));
    lemma_id_steps(WireState { rest: tg + (sc + (sv + t)), out: o + g, ..st }, tg, sc + (sv + t));
    lemma_str_steps(WireState { rest: sc + (sv + t), out: o + g + ft, ..st }, w.scenario, sv + t);
    lemma_str_steps(WireState { rest: sv + t, out: o + g + ft + fs, ..st }, w.server, t);
    assert(o + g + ft + fs + fv =~= o + world_back_v2168(w));
}

#[verifier::rlimit(60)]
#[verifier::spinoff_prover]
proof fn lemma_join_world_back_down(st: WireState, w: JoinWorld, t: Seq<u8>)
    requires
        join_world_ok(w),
    ensures
        join_world_back(WireState { rest: world_back_v2168(w) + t, ..st }, false)
            == Some(WireState { rest: t, out: st.out + world_back_v1001(w), ..st }),
{
    let g = crate::codec::ser_str(w.game);
    let tg = w.target;
    let sc = crate::codec::ser_str(w.scenario);
    let sv = crate::codec::ser_str(w.server);
    let ft = ser_flagged(Some(tg));
    let fs = ser_flagged(Some(sc));
    let fv = ser_flagged(Some(sv));
    let o = st.out;
    assert(world_back_v2168(w) + t =~= g + (ft + (fs + (fv + t))));
    lemma_str_steps(WireState { rest: g + (ft + (fs + (fv + t))), ..st }, w.game, ft + (fs + (fv + t)));
    lemma_id_steps(WireState { rest: tg + (fs + (fv + t)), out: o + g, ..st }, tg, fs + (fv + t));
    lemma_str_steps(WireState { rest: sc + (fv + t), out: o + g + tg, ..st }, w.scenario, fv + t);
    lemma_str_steps(WireState { rest: sv + t, out: o + g + tg + sc, ..st }, w.server, t);
    assert(o + g + tg + sc + sv =~= o + world_back_v1001(w));
}

#[verifier::rlimit(60)]
#[verifier::spinoff_prover]
proof fn lemma_join_world_round_trip(st: WireState, w: JoinWorld, t: Seq<u8>)
    requires
        join_world_ok(w),
    ensures
        join_world(WireState { rest: world_v1001(w) + t, ..st }, true)
            == Some(WireState { rest: t, out: st.out + world_v2168(w), ..st }),
        join_world(WireState { rest: world_v2168(w) + t, ..st }, false)
            == Some(WireState { rest: t, out: st.out + world_v1001(w), ..st }),
{
    let h = w.party_id + crate::codec::ser_str(w.party_name);
    let a1 = w.world_id + crate::codec::ser_str(w.world_name);
    let a2 = ser_flagged(Some(w.world_id)) + ser_flagged(Some(crate::codec::ser_str(w.world_name)));
    let b1 = world_back_v1001(w);
    let b2 = world_back_v2168(w);
    assert(world_v1001(w) =~= h + a1 + b1);
    assert(world_v2168(w) =~= h + a2 + b2);
    assert(world_v1001(w) + t =~= h + a1 + (b1 + t));
    assert(world_v2168(w) + t =~= h + a2 + (b2 + t));
    lemma_join_world_front(st, w, b1 + t);
    lemma_join_world_back_up(WireState { rest: b1 + t, out: st.out + h + a2, ..st }, w, t);
    assert(st.out + h + a2 + b2 =~= st.out + world_v2168(w));
    lemma_join_world_front(st, w, b2 + t);
    lemma_join_world_back_down(WireState { rest: b2 + t, out: st.out + h + a1, ..st }, w, t);
    assert(st.out + h + a1 + b1 =~= st.out + world_v1001(w));
}

proof fn lemma_flag_step(st: WireState, present: bool, t: Seq<u8>)
    requires
        st.rest == ser_bool(present) + t,
    ensures
        take_flag(st.rest) == Some((present, t)),
        copied(st, 1) == (WireState { rest: t, out: st.out + ser_bool(present), ..st }),
{
    let b = if present { 1u8 } else { 0u8 };
    assert(ser_bool(present) =~= ser_u8(b));
    lemma_take_u8(b, t);
    assert(st.rest.take(1) =~= ser_bool(present));
}

#[verifier::rlimit(40)]
#[verifier::spinoff_prover]
proof fn lemma_join_rich_round_trip(st: WireState, r: Seq<u8>, t: Seq<u8>)
    requires
        r.len() < two32(),
    ensures
        join_rich(WireState { rest: ser_bool(false) + ser_bool(false) + crate::codec::ser_str(r) + t, ..st }, true)
            == Some(WireState { rest: t, out: st.out + ser_flagged(Some(crate::codec::ser_str(r))), ..st }),
        join_rich(WireState { rest: ser_flagged(Some(crate::codec::ser_str(r))) + t, ..st }, false)
            == Some(WireState { rest: t, out: st.out + (ser_bool(false) + ser_bool(false) + crate::codec::ser_str(r)), ..st }),
{
    let f = ser_bool(false);
    let sr = crate::codec::ser_str(r);
    assert(f + f + sr + t =~= f + (f + (sr + t)));
    lemma_flag_step(WireState { rest: f + (f + (sr + t)), ..st }, false, f + (sr + t));
    lemma_flag_step(WireState { rest: f + (sr + t), ..st }, false, sr + t);
    lemma_str_steps(WireState { rest: sr + t, ..st }, r, t);
    let d = put(WireState { rest: ser_flagged(Some(sr)) + t, ..st }, f + f);
    lemma_str_steps(WireState { rest: sr + t, out: d.out, ..st }, r, t);
    assert(st.out + (f + f) + sr =~= st.out + (f + f + sr));
}

#[verifier::rlimit(40)]
#[verifier::spinoff_prover]
proof fn lemma_names_copied(st: WireState, a: Seq<u8>, b: Seq<u8>, t: Seq<u8>)
    requires
        a.len() < two32(),
        b.len() < two32(),
        st.rest == crate::codec::ser_str(a) + crate::codec::ser_str(b) + t,
    ensures
        pass_fields(st, seq![Field::Str, Field::Str])
            == Some(WireState { rest: t, out: st.out + (crate::codec::ser_str(a) + crate::codec::ser_str(b)), ..st }),
{
    let sa = crate::codec::ser_str(a);
    let sb = crate::codec::ser_str(b);
    let h = sa + sb;
    crate::codec::lemma_str_round_trip(a, sb);
    crate::codec::lemma_str_round_trip(b, Seq::empty());
    assert(sb + Seq::<u8>::empty() =~= sb);
    assert(h.skip(sa.len() as int) =~= sb);
    let fs = seq![Field::Str, Field::Str];
    assert(fs.drop_first() =~= seq![Field::Str]);
    assert(seq![Field::Str].drop_first() =~= Seq::<Field>::empty());
    assert(sb.skip(sb.len() as int) =~= Seq::<u8>::empty());
    assert(fields_len(Seq::<Field>::empty(), sb.skip(sb.len() as int)) == Some(0nat));
    assert(fields_len(seq![Field::Str], sb) == Some(sb.len()));
    assert(fields_len(fs, h) == Some(h.len()));
    lemma_fields_copied(fs, st, h, t);
}

/// The world block of protocol 1001 behind its flag.
pub open spec fn world_opt_v1001(wo: Option<JoinWorld>) -> Seq<u8> {
    ser_flagged(match wo { Some(w) => Some(world_v1001(w)), None => None })
}

/// The world block of protocol 2168 behind its flag.
pub open spec fn world_opt_v2168(wo: Option<JoinWorld>) -> Seq<u8> {
    ser_flagged(match wo { Some(w) => Some(world_v2168(w)), None => None })
}

pub open spec fn names_opt(n: Option<(Seq<u8>, Seq<u8>)>) -> Seq<u8> {
    ser_flagged(match n { Some((a, b)) => Some(crate::codec::ser_str(a) + crate::codec::ser_str(b)), None => None })
}

pub open spec fn rich_opt_v1001(r: Option<Seq<u8>>) -> Seq<u8> {
    ser_flagged(match r { Some(x) => Some(ser_bool(false) + ser_bool(false) + crate::codec::ser_str(x)), None => None })
}

pub open spec fn rich_opt_v2168(r: Option<Seq<u8>>) -> Seq<u8> {
    ser_flagged(match r { Some(x) => Some(ser_flagged(Some(crate::codec::ser_str(x)))), None => None })
}

#[verifier::rlimit(40)]
#[verifier::spinoff_prover]
proof fn lemma_join_world_opt(st: WireState, wo: Option<JoinWorld>, t: Seq<u8>)
    requires
        wo matches Some(w) ==> join_world_ok(w),
    ensures
        join_world_opt(WireState { rest: world_opt_v1001(wo) + t, ..st }, true)
            == Some(WireState { rest: t, out: st.out + world_opt_v2168(wo), ..st }),
        join_world_opt(WireState { rest: world_opt_v2168(wo) + t, ..st }, false)
            == Some(WireState { rest: t, out: st.out + world_opt_v1001(wo), ..st }),
{
    reveal(join_world_opt);
    match wo {
        Some(w) => {
            let one = ser_bool(true);
            assert(world_opt_v1001(wo) + t =~= one + (world_v1001(w) + t));
            assert(world_opt_v2168(wo) + t =~= one + (world_v2168(w) + t));
            lemma_flag_step(WireState { rest: one + (world_v1001(w) + t), ..st }, true, world_v1001(w) + t);
            lemma_flag_step(WireState { rest: one + (world_v2168(w) + t), ..st }, true, world_v2168(w) + t);
            lemma_join_world_round_trip(WireState { out: st.out + one, ..st }, w, t);
            assert(st.out + one + world_v2168(w) =~= st.out + world_opt_v2168(wo));
            assert(st.out + one + world_v1001(w) =~= st.out + world_opt_v1001(wo));
        },
        None => {
            lemma_flag_step(WireState { rest: ser_bool(false) + t, ..st }, false, t);
        },
    }
}

#[verifier::rlimit(40)]
#[verifier::spinoff_prover]
proof fn lemma_join_names_opt(st: WireState, n: Option<(Seq<u8>, Seq<u8>)>, t: Seq<u8>)
    requires
        n matches Some((a, b)) ==> a.len() < two32() && b.len() < two32(),
    ensures
        join_names_opt(WireState { rest: names_opt(n) + t, ..st })
            == Some(WireState { rest: t, out: st.out + names_opt(n), ..st }),
{
    reveal(join_names_opt);
    match n {
        Some((a, b)) => {
            let one = ser_bool(true);
            let x = crate::codec::ser_str(a) + crate::codec::ser_str(b);
            assert(names_opt(n) + t =~= one + (x + t));
            lemma_flag_step(WireState { rest: one + (x + t), ..st }, true, x + t);
            lemma_names_copied(WireState { rest: x + t, out: st.out + one, ..st }, a, b, t);
            assert(st.out + one + x =~= st.out + names_opt(n));
        },
        None => {
            lemma_flag_step(WireState { rest: ser_bool(false) + t, ..st }, false, t);
        },
    }
}

#[verifier::rlimit(40)]
#[verifier::spinoff_prover]
proof fn lemma_join_rich_opt(st: WireState, r: Option<Seq<u8>>, t: Seq<u8>)
    requires
        r matches Some(x) ==> x.len() < two32(),
    ensures
        join_rich_opt(WireState { rest: rich_opt_v1001(r) + t, ..st }, true)
            == Some(WireState { rest: t, out: st.out + rich_opt_v2168(r), ..st }),
        join_rich_opt(WireState { rest: rich_opt_v2168(r) + t, ..st }, false)
            == Some(WireState { rest: t, out: st.out + rich_opt_v1001(r), ..st }),
{
    reveal(join_rich_opt);
    match r {
        Some(x) => {
            let one = ser_bool(true);
            let f = ser_bool(false);
            let a = f + f + crate::codec::ser_str(x);
            let b = ser_flagged(Some(crate::codec::ser_str(x)));
            assert(rich_opt_v1001(r) + t =~= one + (a + t));
            assert(rich_opt_v2168(r) + t =~= one + (b + t));
            lemma_flag_step(WireState { rest: one + (a + t), ..st }, true, a + t);
            lemma_flag_step(WireState { rest: one + (b + t), ..st }, true, b + t);
            lemma_join_rich_round_trip(WireState { out: st.out + one, ..st }, x, t);
            assert(st.out + one + b =~= st.out + rich_opt_v2168(r));
            assert(st.out + one + a =~= st.out + rich_opt_v1001(r));
        },
        None => {
            lemma_flag_step(WireState { rest: ser_bool(false) + t, ..st }, false, t);
        },
    }
}

#[verifier::rlimit(60)]
#[verifier::spinoff_prover]
proof fn lemma_join_blocks(st: WireState, i: JoinInfo, t: Seq<u8>)
    requires
        join_info_ok(i),
    ensures
        ({
            let b1 = world_opt_v1001(i.world) + names_opt(i.names) + rich_opt_v1001(i.rich);
            let b2 = world_opt_v2168(i.world) + names_opt(i.names) + rich_opt_v2168(i.rich);
            &&& join_blocks(WireState { rest: b1 + t, ..st }, true) == Some(WireState { rest: t, out: st.out + b2, ..st })
            &&& join_blocks(WireState { rest: b2 + t, ..st }, false) == Some(WireState { rest: t, out: st.out + b1, ..st })
        }),
{
    let w1 = world_opt_v1001(i.world);
    let w2 = world_opt_v2168(i.world);
    let nm = names_opt(i.names);
    let r1 = rich_opt_v1001(i.rich);
    let r2 = rich_opt_v2168(i.rich);
    let o = st.out;
    lemma_concat_associative(w1 + nm, r1, t);
    lemma_concat_associative(w1, nm, r1 + t);
    lemma_concat_associative(w2 + nm, r2, t);
    lemma_concat_associative(w2, nm, r2 + t);
    lemma_join_world_opt(st, i.world, nm + (r1 + t));
    lemma_join_world_opt(st, i.world, nm + (r2 + t));
    lemma_join_names_opt(WireState { rest: nm + (r1 + t), out: o + w2, ..st }, i.names, r1 + t);
    lemma_join_names_opt(WireState { rest: nm + (r2 + t), out: o + w1, ..st }, i.names, r2 + t);
    lemma_join_rich_opt(WireState { rest: r1 + t, out: o + w2 + nm, ..st }, i.rich, t);
    lemma_join_rich_opt(WireState { rest: r2 + t, out: o + w1 + nm, ..st }, i.rich, t);
    lemma_concat_associative(o + w2, nm, r2);
    lemma_concat_associative(o, w2, nm);
    lemma_concat_associative(o, w2 + nm, r2);
    lemma_concat_associative(o + w1, nm, r1);
    lemma_concat_associative(o, w1, nm);
    lemma_concat_associative(o, w1 + nm, r1);
}

/// A ServerJoinInformation taken from protocol 1001 to 2168 and back, or
/// from 2168 to 1001 and back, is unchanged, where protocol 1001's two
/// optional rich-presence strings are absent and each optional field of
/// protocol 2168 is present.
#[verifier::rlimit(60)]
#[verifier::spinoff_prover]
pub proof fn law_server_join_information_round_trip(j: Option<JoinInfo>, t: Seq<u8>)
    requires
        j matches Some(i) ==> join_info_ok(i),
    ensures
        spec_server_join_information(start(join_v1001(j) + t), true) matches Some(a)
            && finished(a) == join_v2168(j) + t,
        spec_server_join_information(start(join_v2168(j) + t), false) matches Some(b)
            && finished(b) == join_v1001(j) + t,
{
    match j {
        Some(i) => {
            let one = ser_bool(true);
            let b1 = world_opt_v1001(i.world) + names_opt(i.names) + rich_opt_v1001(i.rich);
            let b2 = world_opt_v2168(i.world) + names_opt(i.names) + rich_opt_v2168(i.rich);
            assert(join_v1001(j) == one + b1);
            assert(join_v2168(j) == one + b2);
            lemma_concat_associative(one, b1, t);
            lemma_concat_associative(one, b2, t);
            lemma_flag_step(start(one + (b1 + t)), true, b1 + t);
            lemma_flag_step(start(one + (b2 + t)), true, b2 + t);
            assert(Seq::<u8>::empty() + one =~= one);
            lemma_join_blocks(WireState { rest: Seq::empty(), out: one, cancelled: false }, i, t);
            lemma_concat_associative(one + b2, Seq::<u8>::empty(), t);
            assert(one + b2 + Seq::<u8>::empty() =~= one + b2);
            assert(finished(spec_server_join_information(start(join_v1001(j) + t), true).unwrap()) == join_v2168(j) + t);
            assert(finished(spec_server_join_information(start(join_v2168(j) + t), false).unwrap()) == join_v1001(j) + t);
        },
        None => {
            lemma_flag_step(start(ser_bool(false) + t), false, t);
            assert(Seq::<u8>::empty() + ser_bool(false) =~= ser_bool(false));
        },
    }
}

fn id_step(w: &mut PacketWrapper, to_v2168: bool) -> (r: Result<(), DecodeError>)
    requires
        old(w).wf(),
    ensures
        final(w).wf(),
        match id_conv(old(w)@, to_v2168) {
            Some(st) => r is Ok && final(w)@ == st,
            None => r is Err,
        },
{
    if to_v2168 {
        let v = w.read_fixed(16)?;
        w.write_bool(true);
        w.write_bytes(v.as_slice());
        assert(w@.out =~= old(w)@.out + (ser_bool(true) + v@));
    } else if read_flag(w)? {
        let v = w.read_fixed(16)?;
        w.write_bytes(v.as_slice());
    } else {
        w.write_zeros(16);
    }
    Ok(())
}

fn str_step(w: &mut PacketWrapper, to_v2168: bool) -> (r: Result<(), DecodeError>)
    requires
        old(w).wf(),
    ensures
        final(w).wf(),
        match str_conv(old(w)@, to_v2168) {
            Some(st) => r is Ok && final(w)@ == st,
            None => r is Err,
        },
{
    if to_v2168 {
        let v = w.read_str()?;
        if v.len() as u64 > 0xffff_ffff {
            return Err(DecodeError);
        }
        w.write_bool(true);
        w.write_str(v.as_slice());
        assert(w@.out =~= old(w)@.out + (ser_bool(true) + crate::codec::ser_str(v@)));
    } else if read_flag(w)? {
        let v = w.read_str()?;
        w.write_str(v.as_slice());
    } else {
        let empty: Vec<u8> = Vec::new();
        w.write_str(empty.as_slice());
    }
    Ok(())
}

fn drop_opt_str(w: &mut PacketWrapper) -> (r: Result<(), DecodeError>)
    requires
        old(w).wf(),
    ensures
        final(w).wf(),
        match opt_str_dropped(old(w)@) {
            Some(st) => r is Ok && final(w)@ == st,
            None => r is Err,
        },
{
    if read_flag(w)? {
        w.read_str()?;
    }
    Ok(())
}

fn join_world_block(w: &mut PacketWrapper, to_v2168: bool) -> (r: Result<(), DecodeError>)
    requires
        old(w).wf(),
    ensures
        final(w).wf(),
        match join_world(old(w)@, to_v2168) {
            Some(st) => r is Ok && final(w)@ == st,
            None => r is Err,
        },
{
    let fs = vec![Field::Fixed(16), Field::Str];
    assert(fs@.skip(0) =~= seq![Field::Fixed(16), Field::Str]);
    w.passthrough_fields(fs.as_slice(), 0)?;
    id_step(w, to_v2168)?;
    str_step(w, to_v2168)?;
    w.passthrough(Field::Str)?;
    id_step(w, to_v2168)?;
    str_step(w, to_v2168)?;
    str_step(w, to_v2168)
}

fn join_rich_block(w: &mut PacketWrapper, to_v2168: bool) -> (r: Result<(), DecodeError>)
    requires
        old(w).wf(),
    ensures
        final(w).wf(),
        match join_rich(old(w)@, to_v2168) {
            Some(st) => r is Ok && final(w)@ == st,
            None => r is Err,
        },
{
    if to_v2168 {
        drop_opt_str(w)?;
        drop_opt_str(w)?;
        str_step(w, true)
    } else {
        w.write_bool(false);
        w.write_bool(false);
        assert(w@ == put(old(w)@, ser_bool(false) + ser_bool(false))) by {
            assert(w@.out =~= old(w)@.out + (ser_bool(false) + ser_bool(false)));
        }
        str_step(w, false)
    }
}

/// ServerJoinInformation between protocols 1001 and 2168.
pub fn server_join_information(w: &mut PacketWrapper, to_v2168: bool) -> (r: Result<(), DecodeError>)
    requires
        old(w).wf(),
    ensures
        final(w).wf(),
        match spec_server_join_information(old(w)@, to_v2168) {
            Some(st) => r is Ok && final(w)@ == st,
            None => r is Err,
        },
{
    proof {
        reveal(join_world_opt);
        reveal(join_names_opt);
        reveal(join_rich_opt);
    }
    if !w.pass_bool()? {
        return Ok(());
    }
    if w.pass_bool()? {
        join_world_block(w, to_v2168)?;
    }
    if w.pass_bool()? {
        let fs = vec![Field::Str, Field::Str];
        assert(fs@.skip(0) =~= seq![Field::Str, Field::Str]);
        w.passthrough_fields(fs.as_slice(), 0)?;
    }
    if w.pass_bool()? {
        join_rich_block(w, to_v2168)?;
    }
    Ok(())
}

proof fn lemma_strs_round_trip(v: Seq<Seq<u8>>, t: Seq<u8>)
    requires
        forall|k: int| 0 <= k < v.len() ==> (#[trigger] v[k]).len() < two32(),
    ensures
        take_strs(ser_strs(v) + t, v.len()) == Some((v, t)),
    decreases v.len(),
{
    if v.len() > 0 {
        let p = v.drop_last();
        let x = v.last();
        assert forall|k: int| 0 <= k < p.len() implies (#[trigger] p[k]).len() < two32() by {
            assert(p[k] == v[k]);
        }
        assert(v[v.len() - 1].len() < two32());
        lemma_strs_round_trip(p, crate::codec::ser_str(x) + t);
        assert(ser_strs(v) + t =~= ser_strs(p) + (crate::codec::ser_str(x) + t));
        crate::codec::lemma_take_str(x, t);
        assert(p.push(x) =~= v);
    } else {
        assert(ser_strs(v) + t =~= t);
    }
}

/// A ResourcePackClientResponse as protocol 2168 writes it for response
/// number `new` and the packs `packs`.
pub open spec fn pack_response_v2168(new: u32, packs: Seq<Seq<u8>>) -> Seq<u8> {
    ser_u32v(new) + crate::codec::ser_str(pack_response_name(new))
        + if new == PACK_RESPONSE_SEND_PACKS_V2168 { ser_u32v(packs.len() as u32) + ser_strs(packs) } else { Seq::empty() }
}

/// The same response as protocol 1001 writes it.
pub open spec fn pack_response_v1001(new: u32, packs: Seq<Seq<u8>>) -> Seq<u8> {
    ser_u8((new + 1) as u8) + le16(packs.len() as u16) + ser_strs(packs)
}

/// A ResourcePackClientResponse taken from protocol 1001 to 2168 and back,
/// or from 2168 to 1001 and back, is unchanged, where packs are listed only
/// with the response that asks for them and the response name is the one
/// protocol 2168 gives its number.
#[verifier::rlimit(40)]
#[verifier::spinoff_prover]
pub proof fn law_resource_pack_client_response_round_trip(new: u32, packs: Seq<Seq<u8>>, t: Seq<u8>)
    requires
        new < 4,
        packs.len() <= 0xffff,
        new == PACK_RESPONSE_SEND_PACKS_V2168 || packs.len() == 0,
        forall|k: int| 0 <= k < packs.len() ==> (#[trigger] packs[k]).len() < two32(),
    ensures
        spec_resource_pack_client_response(start(pack_response_v1001(new, packs) + t), true) matches Some(a)
            && finished(a) == pack_response_v2168(new, packs) + t,
        spec_resource_pack_client_response(start(pack_response_v2168(new, packs) + t), false) matches Some(b)
            && finished(b) == pack_response_v1001(new, packs) + t,
{
    let n = packs.len() as u16;
    let name = pack_response_name(new);
    assert(name.len() < two32());
    lemma_strs_round_trip(packs, t);
    // Up.
    let x = pack_response_v1001(new, packs) + t;
    assert(x =~= ser_u8((new + 1) as u8) + (le16(n) + (ser_strs(packs) + t)));
    lemma_take_u8((new + 1) as u8, le16(n) + (ser_strs(packs) + t));
    lemma_take_fixed(le16(n), ser_strs(packs) + t);
    assert(from_le16(le16(n)) == n);
    assert(n as nat == packs.len());
    assert(finished(spec_resource_pack_client_response(start(x), true).unwrap()) =~= pack_response_v2168(new, packs) + t);
    // Down.
    let y = pack_response_v2168(new, packs) + t;
    if new == PACK_RESPONSE_SEND_PACKS_V2168 {
        assert(y =~= ser_u32v(new) + (crate::codec::ser_str(name) + (ser_u32v(packs.len() as u32) + (ser_strs(packs) + t))));
        crate::codec::lemma_take_u32v(new, crate::codec::ser_str(name) + (ser_u32v(packs.len() as u32) + (ser_strs(packs) + t)));
        crate::codec::lemma_take_str(name, ser_u32v(packs.len() as u32) + (ser_strs(packs) + t));
        crate::codec::lemma_take_u32v(packs.len() as u32, ser_strs(packs) + t);
    } else {
        assert(y =~= ser_u32v(new) + (crate::codec::ser_str(name) + t));
        crate::codec::lemma_take_u32v(new, crate::codec::ser_str(name) + t);
        crate::codec::lemma_take_str(name, t);
        assert(packs =~= Seq::<Seq<u8>>::empty());
        assert(ser_strs(packs) =~= Seq::<u8>::empty());
    }
    assert(finished(spec_resource_pack_client_response(start(y), false).unwrap()) =~= pack_response_v1001(new, packs) + t);
}

/// The highest redstone save mode.
pub const STRUCTURE_REDSTONE_SAVE_MODE_MAX: u8 = 3;

/// The last three bytes of a StructureBlockUpdate body: the save mode
/// (protocol 1001 writes it as a zig-zag integer, protocol 2168 as a
/// byte), whether to trigger, whether waterlogged; `None` when they do not
/// read as such.
pub open spec fn split_tail(body: Seq<u8>, to_v2168: bool) -> Option<(u8, bool, bool)> {
    if body.len() < 3 {
        None
    } else {
        let raw = body[body.len() - 3];
        let trigger = body[body.len() - 2];
        let waterlogged = body[body.len() - 1];
        if trigger > 1 || waterlogged > 1 {
            None
        } else if to_v2168 && raw & 0x81 != 0 {
            None
        } else {
            let mode = if to_v2168 { raw >> 1 } else { raw };
            if mode > STRUCTURE_REDSTONE_SAVE_MODE_MAX {
                None
            } else {
                Some((mode, trigger == 1, waterlogged == 1))
            }
        }
    }
}

/// Reads the tail of a StructureBlockUpdate body.
pub fn split_structure_tail(body: &[u8], to_v2168: bool) -> (r: Option<(u8, bool, bool)>)
    ensures
        r == split_tail(body@, to_v2168),
{
    if body.len() < 3 {
        return None;
    }
    let n = body.len();
    let (raw, trigger, waterlogged) = (body[n - 3], body[n - 2], body[n - 1]);
    if trigger > 1 || waterlogged > 1 {
        return None;
    }
    if to_v2168 && raw & 0x81 != 0 {
        return None;
    }
    let mode = if to_v2168 { raw >> 1 } else { raw };
    if mode > STRUCTURE_REDSTONE_SAVE_MODE_MAX {
        return None;
    }
    Some((mode, trigger == 1, waterlogged == 1))
}

/// StructureBlockUpdate: everything before the tail is kept; the save mode
/// changes encoding. A body whose tail does not read as expected is
/// dropped.
pub open spec fn spec_structure_block_update(st: WireState, to_v2168: bool) -> Option<WireState> {
    let body = st.rest;
    match split_tail(body, to_v2168) {
        None => Some(WireState { rest: Seq::empty(), cancelled: true, ..st }),
        Some((mode, trigger, waterlogged)) => Some(WireState {
            rest: Seq::empty(),
            out: st.out + body.take(body.len() - 3) + (if to_v2168 { ser_u8(mode) } else { ser_i32v(mode as i32) })
                + ser_bool(trigger) + ser_bool(waterlogged),
            ..st
        }),
    }
}

/// The message left when a StructureBlockUpdate's tail is not the three
/// fields of either protocol: the body's length and its last three bytes.
pub open spec fn structure_note(body: Seq<u8>) -> Seq<char> {
    "StructureBlockUpdate tail is not the expected [RedstoneSaveMode][ShouldTrigger][Waterlogged]; dropping it ("@
        + decimal(body.len()) + " B, last three bytes "@
        + hex_list(body.skip(if body.len() >= 3 { body.len() - 3 } else { 0 })) + ")"@
}

/// The message StructureBlockUpdate leaves: one each time the tail is not
/// recognised.
pub open spec fn spec_structure_note(st: WireState, to_v2168: bool) -> Option<(Option<u16>, Seq<char>)> {
    if split_tail(st.rest, to_v2168) is None {
        Some((None, structure_note(st.rest)))
    } else {
        None
    }
}

pub fn structure_block_update(w: &mut PacketWrapper, to_v2168: bool, pending: &mut Vec<String>) -> (r: Result<(), DecodeError>)
    requires
        old(w).wf(),
    ensures
        final(w).wf(),
        match spec_structure_block_update(old(w)@, to_v2168) {
            Some(st) => r is Ok && final(w)@ == st,
            None => r is Err,
        },
        texts(final(pending)@) == match spec_structure_note(old(w)@, to_v2168) {
            Some((_, t)) => texts(old(pending)@).push(t),
            None => texts(old(pending)@),
        },
{
    let n = w.remaining_len();
    let body = w.read_fixed(n)?;
    assert(body@ =~= old(w)@.rest);
    match split_structure_tail(body.as_slice(), to_v2168) {
        None => {
            let mut s = String::new();
            s.append("StructureBlockUpdate tail is not the expected [RedstoneSaveMode][ShouldTrigger][Waterlogged]; dropping it (");
            push_decimal_u64(&mut s, n as u64);
            s.append(" B, last three bytes ");
            let from: usize = if n >= 3 { n - 3 } else { 0 };
            let mut last: Vec<u8> = Vec::new();
            crate::codec::copy_range(&mut last, body.as_slice(), from, n);
            assert(last@ =~= body@.skip(from as int));
            push_hex_list(&mut s, last.as_slice());
            s.append(")");
            assert(s@ =~= structure_note(body@));
            let ghost t = s@;
            pending.push(s);
            assert(texts(pending@) =~= texts(old(pending)@).push(t));
            w.cancel();
        },
        Some((mode, trigger, waterlogged)) => {
            let ghost o = w@.out;
            crate::steps::v975_v1001::write_head(w, body.as_slice(), n - 3);
            if to_v2168 {
                w.write_u8(mode);
            } else {
                w.write_i32v(mode as i32);
            }
            w.write_bool(trigger);
            w.write_bool(waterlogged);
            assert(w@.out =~= o + body@.take(n - 3) + (if to_v2168 { ser_u8(mode) } else { ser_i32v(mode as i32) })
                + ser_bool(trigger) + ser_bool(waterlogged));
        },
    }
    assert(w@.rest =~= Seq::<u8>::empty());
    Ok(())
}

/// A StructureBlockUpdate taken from protocol 1001 to 2168 and back, or
/// from 2168 to 1001 and back, is unchanged.
pub proof fn law_structure_block_update_round_trip(pre: Seq<u8>, mode: u8, trigger: bool, waterlogged: bool)
    requires
        mode <= STRUCTURE_REDSTONE_SAVE_MODE_MAX,
    ensures
        ({
            let v1001 = pre + ser_i32v(mode as i32) + ser_bool(trigger) + ser_bool(waterlogged);
            let v2168 = pre + ser_u8(mode) + ser_bool(trigger) + ser_bool(waterlogged);
            &&& spec_structure_block_update(start(v1001), true) matches Some(a) && finished(a) == v2168 && !a.cancelled
            &&& spec_structure_block_update(start(v2168), false) matches Some(b) && finished(b) == v1001 && !b.cancelled
        }),
{
    let raw = (2 * mode) as u8;
    assert(ser_i32v(mode as i32) =~= seq![raw]) by {
        reveal(crate::codec::ser_uvarint);
    }
    assert(raw & 0x81 == 0 && raw >> 1 == mode) by (bit_vector)
        requires raw == 2 * mode, mode <= 3;
    let tb = ser_bool(trigger);
    let wb = ser_bool(waterlogged);
    let v1001 = pre + ser_i32v(mode as i32) + tb + wb;
    let v2168 = pre + ser_u8(mode) + tb + wb;
    assert(v1001.len() == pre.len() + 3);
    assert(v1001[pre.len() as int] == raw);
    assert(v1001.take(pre.len() as int) =~= pre);
    assert(v2168[pre.len() as int] == mode);
    assert(v2168.take(pre.len() as int) =~= pre);
    assert(finished(spec_structure_block_update(start(v1001), true).unwrap()) =~= v2168);
    assert(finished(spec_structure_block_update(start(v2168), false).unwrap()) =~= v1001);
}

// ---------------------------------------------------------------------------
// Authoritative input.

pub const INPUT_FLAG_BITSET_SIZE_V1001: u32 = 65;
pub const INPUT_FLAG_COUNT_V2168: u32 = 66;
pub const FLAG_PERFORM_ITEM_INTERACTION: u32 = 34;
pub const FLAG_PERFORM_BLOCK_ACTIONS: u32 = 35;
pub const FLAG_PERFORM_ITEM_STACK_REQUEST: u32 = 36;
pub const FLAG_CLIENT_PREDICTED_VEHICLE: u32 = 45;

/// Bit `b` of `byte` is set.
pub open spec fn bit_set(byte: u8, b: u8) -> bool {
    byte & (1u8 << b) != 0
}

fn is_bit_set(byte: u8, b: u8) -> (r: bool)
    requires
        b < 8,
    ensures
        r == bit_set(byte, b),
{
    byte & (1u8 << b) != 0
}

/// The flag ids the low `n` bits of a bit-run byte carry: bit `b` stands
/// for flag `base + b`.
pub open spec fn group_ids(byte: u8, base: nat, n: nat) -> Seq<u32>
    decreases n,
{
    if n == 0 {
        Seq::empty()
    } else {
        group_ids(byte, base, (n - 1) as nat) + if bit_set(byte, (n - 1) as u8) {
            seq![(base + n - 1) as u32]
        } else {
            Seq::empty()
        }
    }
}

/// Every flag the byte carries is below `size`.
pub open spec fn group_fits(byte: u8, base: nat, size: nat) -> bool {
    forall|b: u8| 0 <= b < 7 && #[trigger] bit_set(byte, b) ==> base + b < size
}

/// A run of bytes of seven flag bits each, the high bit saying another byte
/// follows, for flags below `size`, from flag `base` on.
pub open spec fn decode_bitset_from(s: Seq<u8>, base: nat, size: nat) -> Option<(Seq<u32>, Seq<u8>)>
    decreases size - base,
{
    if base >= size {
        None
    } else {
        match take_u8(s) {
            Some((byte, r)) => if !group_fits(byte, base, size) {
                None
            } else if byte & 0x80 == 0 {
                Some((group_ids(byte, base, 7), r))
            } else {
                match if base + 7 < size { decode_bitset_from(r, base + 7, size) } else { None } {
                    Some((ids, r2)) => Some((group_ids(byte, base, 7) + ids, r2)),
                    None => None,
                }
            },
            None => None,
        }
    }
}

/// The flags of a protocol-1001 input: a bit run of 65 flags.
pub open spec fn decode_input_flags_v1001(s: Seq<u8>) -> Option<(Seq<u32>, Seq<u8>)> {
    decode_bitset_from(s, 0, INPUT_FLAG_BITSET_SIZE_V1001 as nat)
}

fn read_group(ids: &mut Vec<u32>, byte: u8, base: u32, size: u32) -> (r: Result<(), DecodeError>)
    requires
        base < size,
        size < 0x1000_0000,
    ensures
        match r {
            Ok(()) => group_fits(byte, base as nat, size as nat)
                && final(ids)@ == old(ids)@ + group_ids(byte, base as nat, 7),
            Err(_) => !group_fits(byte, base as nat, size as nat),
        },
{
    let ghost start = ids@;
    let mut bit: u8 = 0;
    while bit < 7
        invariant
            bit <= 7,
            base < size < 0x1000_0000,
            ids@ == start + group_ids(byte, base as nat, bit as nat),
            forall|b: u8| 0 <= b < bit && #[trigger] bit_set(byte, b) ==> base + b < size,
        decreases 7 - bit,
    {
        if is_bit_set(byte, bit) {
            let id = base + bit as u32;
            if id >= size {
                return Err(DecodeError);
            }
            ids.push(id);
        }
        bit = bit + 1;
        assert(ids@ =~= start + group_ids(byte, base as nat, bit as nat));
    }
    Ok(())
}

/// Reads a bit run of flags below `size`.
pub fn read_bitset(w: &mut PacketWrapper, size: u32) -> (r: Result<Vec<u32>, DecodeError>)
    requires
        old(w).wf(),
        0 < size < 0x1000_0000,
    ensures
        final(w).wf(),
        match decode_bitset_from(old(w)@.rest, 0, size as nat) {
            Some((ids, rest)) => r matches Ok(v) && v@ == ids && final(w)@ == (WireState { rest, ..old(w)@ }),
            None => r is Err,
        },
{
    let ghost goal = decode_bitset_from(old(w)@.rest, 0, size as nat);
    let mut ids: Vec<u32> = Vec::new();
    let mut base: u32 = 0;
    while base < size
        invariant
            w.wf(),
            0 < size < 0x1000_0000,
            base < size + 7,
            w@.out == old(w)@.out,
            w@.cancelled == old(w)@.cancelled,
            goal == decode_bitset_from(old(w)@.rest, 0, size as nat),
            base < size ==> goal == match decode_bitset_from(w@.rest, base as nat, size as nat) {
                Some((more, r)) => Some((ids@ + more, r)),
                None => None,
            },
            base >= size ==> goal is None,
        decreases size + 7 - base,
    {
        let ghost before = w@.rest;
        let byte = match w.read_u8() {
            Ok(b) => b,
            Err(e) => {
                assert(take_u8(before) is None);
                assert(decode_bitset_from(before, base as nat, size as nat) is None);
                return Err(e);
            },
        };
        assert(take_u8(before) == Some((byte, w@.rest)));
        match read_group(&mut ids, byte, base, size) {
            Ok(()) => {},
            Err(e) => {
                assert(decode_bitset_from(before, base as nat, size as nat) is None);
                return Err(e);
            },
        }
        if byte & 0x80 == 0 {
            assert(ids@ + Seq::<u32>::empty() =~= ids@);
            assert(w@ == (WireState { rest: w@.rest, ..old(w)@ }));
            return Ok(ids);
        }
        proof {
            let g = group_ids(byte, base as nat, 7);
            let prev = ids@.subrange(0, ids@.len() - g.len());
            assert(ids@ =~= prev + g);
            if base + 7 < size {
                match decode_bitset_from(w@.rest, base as nat + 7, size as nat) {
                    Some((more, r)) => {
                        assert(prev + (g + more) =~= ids@ + more);
                    },
                    None => {},
                }
            }
        }
        base = base + 7;
    }
    Err(DecodeError)
}

/// The flag ids of a protocol-2168 input, each a zig-zag integer.
pub open spec fn ser_flag_ids(ids: Seq<u32>) -> Seq<u8>
    decreases ids.len(),
{
    if ids.len() == 0 {
        Seq::empty()
    } else {
        ser_flag_ids(ids.drop_last()) + ser_i32v(ids.last() as i32)
    }
}

/// The head of PlayerAuthInput: pitch, yaw, position, motion, head yaw.
pub open spec fn auth_head() -> Seq<Field> {
    seq![Field::Fixed(4), Field::Fixed(4), Field::Fixed(12), Field::Fixed(8), Field::Fixed(4)]
}

/// Input mode and play mode.
pub open spec fn auth_modes() -> Seq<Field> {
    seq![Field::UVarInt, Field::UVarInt]
}

/// Interaction pitch and yaw, tick, position delta.
pub open spec fn auth_motion() -> Seq<Field> {
    seq![Field::Fixed(4), Field::Fixed(4), Field::UVarInt64, Field::Fixed(12)]
}

/// A protocol-2168 optional that is announced and absent.
pub open spec fn absent() -> Seq<u8> {
    ser_bool(true) + ser_bool(false)
}

/// Whether an input's flags call for an item interaction, an item stack
/// request or block actions, which protocol 2168 would expect as payload.
pub open spec fn wants_payload(ids: Seq<u32>) -> bool {
    ids.contains(FLAG_PERFORM_ITEM_INTERACTION) || ids.contains(FLAG_PERFORM_ITEM_STACK_REQUEST)
        || ids.contains(FLAG_PERFORM_BLOCK_ACTIONS)
}

/// The tail of a protocol-2168 input written from a protocol-1001 one: the
/// item interaction, item stack request and block actions absent, then
/// the vehicle rotation and id when the vehicle flag is set.
pub open spec fn auth_tail_up(s: WireState, ids: Seq<u32>) -> Option<WireState> {
    let s6 = put(s, absent() + absent() + absent());
    if ids.contains(FLAG_CLIENT_PREDICTED_VEHICLE) {
        match take_fixed(8, s6.rest) {
            Some((rot, r1)) => match take_i64v(r1) {
                Some((vehicle, r2)) => Some(put(
                    WireState { rest: r2, ..s6 },
                    ser_bool(true) + ser_bool(true) + rot + ser_bool(true) + ser_bool(true) + ser_i64v(vehicle),
                )),
                None => None,
            },
            None => None,
        }
    } else {
        Some(put(s6, absent() + absent()))
    }
}

/// PlayerAuthInput toward protocol 2168: the flag bit run becomes a list of
/// flag ids and the interaction model a zig-zag integer; an input that
/// needs a payload protocol 1001 does not carry is dropped.
pub open spec fn spec_auth_input_to_v2168(st: WireState) -> Option<WireState> {
    match pass_fields(st, auth_head()) {
        Some(s1) => match decode_input_flags_v1001(s1.rest) {
            Some((ids, r1)) => {
                let s2 = put(
                    WireState { rest: r1, ..s1 },
                    ser_bool(true) + ser_u32v(ids.len() as u32) + ser_flag_ids(ids),
                );
                match pass_fields(s2, auth_modes()) {
                    Some(s3) => match take_u32v(s3.rest) {
                        Some((model, r3)) => match pass_fields(
                            put(WireState { rest: r3, ..s3 }, ser_i32v(model as i32)),
                            auth_motion(),
                        ) {
                            Some(s5) => if wants_payload(ids) {
                                Some(WireState { cancelled: true, ..s5 })
                            } else {
                                auth_tail_up(s5, ids)
                            },
                            None => None,
                        },
                        None => None,
                    },
                    None => None,
                }
            },
            None => None,
        },
        None => None,
    }
}

fn ids_contain(ids: &Vec<u32>, flag: u32) -> (b: bool)
    ensures
        b == ids@.contains(flag),
{
    let mut k: usize = 0;
    while k < ids.len()
        invariant
            k <= ids@.len(),
            forall|m: int| 0 <= m < k ==> ids@[m] != flag,
        decreases ids@.len() - k,
    {
        if ids[k] == flag {
            assert(ids@[k as int] == flag);
            return true;
        }
        k = k + 1;
    }
    false
}

fn write_flag_ids(w: &mut PacketWrapper, ids: &Vec<u32>)
    requires
        old(w).wf(),
    ensures
        final(w).wf(),
        final(w)@ == put(old(w)@, ser_flag_ids(ids@)),
{
    let mut k: usize = 0;
    assert(ids@.take(0) =~= Seq::<u32>::empty());
    assert(old(w)@.out + Seq::<u8>::empty() =~= old(w)@.out);
    while k < ids.len()
        invariant
            w.wf(),
            k <= ids@.len(),
            w@ == put(old(w)@, ser_flag_ids(ids@.take(k as int))),
        decreases ids@.len() - k,
    {
        w.write_i32v(ids[k] as i32);
        assert(ids@.take(k + 1).drop_last() =~= ids@.take(k as int));
        assert(w@.out =~= old(w)@.out + ser_flag_ids(ids@.take(k + 1)));
        k = k + 1;
    }
    assert(ids@.take(ids@.len() as int) =~= ids@);
}

fn write_absent(w: &mut PacketWrapper)
    requires
        old(w).wf(),
    ensures
        final(w).wf(),
        final(w)@ == put(old(w)@, absent()),
{
    w.write_bool(true);
    w.write_bool(false);
    assert(w@.out =~= old(w)@.out + absent());
}

fn auth_tail_to_v2168(w: &mut PacketWrapper, vehicle_flag: bool) -> (r: Result<(), DecodeError>)
    requires
        old(w).wf(),
    ensures
        final(w).wf(),
        forall|ids: Seq<u32>| ids.contains(FLAG_CLIENT_PREDICTED_VEHICLE) == vehicle_flag ==>
            match #[trigger] auth_tail_up(old(w)@, ids) {
                Some(st) => r is Ok && final(w)@ == st,
                None => r is Err,
            },
{
    write_absent(w);
    write_absent(w);
    write_absent(w);
    assert(w@.out =~= old(w)@.out + (absent() + absent() + absent()));
    let ghost s6 = w@;
    if vehicle_flag {
        let rot = w.read_fixed(8)?;
        let vehicle = w.read_i64v()?;
        w.write_bool(true);
        w.write_bool(true);
        w.write_bytes(rot.as_slice());
        w.write_bool(true);
        w.write_bool(true);
        w.write_i64v(vehicle);
        assert(w@.out =~= s6.out + (ser_bool(true) + ser_bool(true) + rot@ + ser_bool(true) + ser_bool(true) + ser_i64v(vehicle)));
    } else {
        write_absent(w);
        write_absent(w);
        assert(w@.out =~= s6.out + (absent() + absent()));
    }
    Ok(())
}

/// PlayerAuthInput toward protocol 2168.
pub fn auth_input_to_v2168(w: &mut PacketWrapper) -> (r: Result<(), DecodeError>)
    requires
        old(w).wf(),
    ensures
        final(w).wf(),
        match spec_auth_input_to_v2168(old(w)@) {
            Some(st) => r is Ok && final(w)@ == st,
            None => r is Err,
        },
{
    let head = vec![Field::Fixed(4), Field::Fixed(4), Field::Fixed(12), Field::Fixed(8), Field::Fixed(4)];
    assert(head@.skip(0) =~= auth_head());
    w.passthrough_fields(head.as_slice(), 0)?;
    let ids = read_bitset(w, INPUT_FLAG_BITSET_SIZE_V1001)?;
    let ghost s1r = w@;
    w.write_bool(true);
    w.write_u32v(#[verifier::truncate] (ids.len() as u32));
    write_flag_ids(w, &ids);
    assert(w@.out =~= s1r.out + (ser_bool(true) + ser_u32v(ids@.len() as u32) + ser_flag_ids(ids@)));
    let modes = vec![Field::UVarInt, Field::UVarInt];
    assert(modes@.skip(0) =~= auth_modes());
    w.passthrough_fields(modes.as_slice(), 0)?;
    let model = w.read_u32v()?;
    w.write_i32v(#[verifier::truncate] (model as i32));
    let motion = vec![Field::Fixed(4), Field::Fixed(4), Field::UVarInt64, Field::Fixed(12)];
    assert(motion@.skip(0) =~= auth_motion());
    w.passthrough_fields(motion.as_slice(), 0)?;
    if ids_contain(&ids, FLAG_PERFORM_ITEM_INTERACTION) || ids_contain(&ids, FLAG_PERFORM_ITEM_STACK_REQUEST)
        || ids_contain(&ids, FLAG_PERFORM_BLOCK_ACTIONS)
    {
        w.cancel();
        return Ok(());
    }
    let vehicle = ids_contain(&ids, FLAG_CLIENT_PREDICTED_VEHICLE);
    let r = auth_tail_to_v2168(w, vehicle);
    proof {
        let _ = auth_tail_up(old(w)@, ids@);
    }
    r
}

/// The kept flags of `count` protocol-2168 flag ids: each must be below 66;
/// those below 65 exist in protocol 1001.
pub open spec fn decode_flag_list(s: Seq<u8>, count: nat) -> Option<(Seq<u32>, Seq<u8>)>
    decreases count,
{
    if count == 0 {
        Some((Seq::empty(), s))
    } else {
        match decode_flag_list(s, (count - 1) as nat) {
            Some((ids, r)) => match take_i32v(r) {
                Some((id, r2)) => if id < 0 || id >= INPUT_FLAG_COUNT_V2168 {
                    None
                } else {
                    Some((if id < INPUT_FLAG_BITSET_SIZE_V1001 { ids.push(id as u32) } else { ids }, r2))
                },
                None => None,
            },
            None => None,
        }
    }
}

/// The flags of a protocol-2168 input: a presence flag, then a counted list.
pub open spec fn take_input_flags_v2168(s: Seq<u8>) -> Option<(Seq<u32>, Seq<u8>)> {
    match take_flag(s) {
        Some((has, r0)) => if has {
            match take_u32v(r0) {
                Some((count, r1)) => decode_flag_list(r1, count as nat),
                None => None,
            }
        } else {
            Some((Seq::empty(), r0))
        },
        None => None,
    }
}

/// A protocol-2168 optional: an announcement flag, then a presence flag.
pub open spec fn take_double_optional(s: Seq<u8>) -> Option<(bool, Seq<u8>)> {
    match take_flag(s) {
        Some((announced, r)) => if announced { take_flag(r) } else { Some((false, r)) },
        None => None,
    }
}

/// The block actions that carry a position and face in protocol 1001.
pub open spec fn block_has_position(action: i32) -> bool {
    action == 0 || action == 1 || action == 18 || action == 26 || action == 27
}

/// One block action: a kind, a position and a face, written the
/// protocol-1001 way: the position and face only for kinds that have one.
pub open spec fn take_block_action(r: Seq<u8>) -> Option<(Seq<u8>, Seq<u8>)> {
    match take_i32v(r) {
        Some((action, r1)) => match take_i32v(r1) {
            Some((x, r2)) => match take_i32v(r2) {
                Some((y, r3)) => match take_i32v(r3) {
                    Some((z, r4)) => match take_i32v(r4) {
                        Some((face, r5)) => Some((
                            ser_i32v(action) + if block_has_position(action) {
                                ser_i32v(x) + ser_i32v(y) + ser_i32v(z) + ser_i32v(face)
                            } else {
                                Seq::empty()
                            },
                            r5,
                        )),
                        None => None,
                    },
                    None => None,
                },
                None => None,
            },
            None => None,
        },
        None => None,
    }
}

/// `count` block actions in turn.
pub open spec fn block_actions_from(s: Seq<u8>, count: nat) -> Option<(Seq<u8>, Seq<u8>)>
    decreases count,
{
    if count == 0 {
        Some((Seq::empty(), s))
    } else {
        match block_actions_from(s, (count - 1) as nat) {
            Some((p, r)) => match take_block_action(r) {
                Some((q, r2)) => Some((p + q, r2)),
                None => None,
            },
            None => None,
        }
    }
}

/// The block actions of a protocol-2168 input in protocol-1001 form: the
/// count as a zig-zag integer, then the actions.
pub open spec fn take_block_actions(s: Seq<u8>) -> Option<(Seq<u8>, Seq<u8>)> {
    match take_u32v(s) {
        Some((count, r)) => match block_actions_from(r, count as nat) {
            Some((p, r2)) => Some((ser_i32v(count as i32) + p, r2)),
            None => None,
        },
        None => None,
    }
}

/// The motion fields of a protocol-2168 input in protocol-1001 form: the
/// modes, the interaction model (a zig-zag integer in 2168, an unsigned one
/// in 1001), the interaction angles, the tick and the position delta.
pub open spec fn take_auth_motion_v2168(s: Seq<u8>) -> Option<(Seq<u8>, Seq<u8>)> {
    match take_u32v(s) {
        Some((input_mode, r1)) => match take_u32v(r1) {
            Some((play_mode, r2)) => match take_i32v(r2) {
                Some((model, r3)) => match take_fixed(8, r3) {
                    Some((angles, r4)) => match take_u64v(r4) {
                        Some((tick, r5)) => match take_fixed(12, r5) {
                            Some((delta, r6)) => Some((
                                ser_u32v(input_mode) + ser_u32v(play_mode) + ser_u32v(model as u32) + angles
                                    + ser_u64v(tick) + delta,
                                r6,
                            )),
                            None => None,
                        },
                        None => None,
                    },
                    None => None,
                },
                None => None,
            },
            None => None,
        },
        None => None,
    }
}

/// What follows the motion of a protocol-2168 input: whether it carries an
/// item stack request, its block actions and its vehicle rotation and id,
/// each in protocol-1001 form.
pub struct AuthPayload {
    pub stack_request: bool,
    pub block_actions: Option<Seq<u8>>,
    pub vehicle: Option<Seq<u8>>,
}

/// The optional parts of a protocol-2168 input; an item interaction is not
/// translated (its item layout is not known here) and is refused.
pub open spec fn take_auth_payload_v2168(s: Seq<u8>) -> Option<(AuthPayload, Seq<u8>)> {
    match take_double_optional(s) {
        Some((has_item, r1)) => if has_item {
            None
        } else {
            match take_double_optional(r1) {
                Some((stack, r2)) => if stack {
                    Some((AuthPayload { stack_request: true, block_actions: None, vehicle: None }, r2))
                } else {
                    match take_double_optional(r2) {
                        Some((has_block, r3)) => match if has_block {
                            match take_block_actions(r3) {
                                Some((b, r)) => Some((Some(b), r)),
                                None => None,
                            }
                        } else {
                            Some((None, r3))
                        } {
                            Some((blocks, r4)) => match take_double_optional(r4) {
                                Some((has_rot, r5)) => match take_coord_n(has_rot, 8, r5) {
                                    Some((rot, r6)) => match take_double_optional(r6) {
                                        Some((has_vehicle, r7)) => match if has_vehicle {
                                            match take_i64v(r7) {
                                                Some((v, r)) => Some((Some(v), r)),
                                                None => None,
                                            }
                                        } else {
                                            Some((None, r7))
                                        } {
                                            Some((vehicle, r8)) => Some((
                                                AuthPayload {
                                                    stack_request: false,
                                                    block_actions: blocks,
                                                    vehicle: match (rot, vehicle) {
                                                        (Some(rb), Some(v)) => Some(rb + ser_i64v(v)),
                                                        _ => None,
                                                    },
                                                },
                                                r8,
                                            )),
                                            None => None,
                                        },
                                        None => None,
                                    },
                                    None => None,
                                },
                                None => None,
                            },
                            None => None,
                        },
                        None => None,
                    }
                },
                None => None,
            }
        },
        None => None,
    }
}

/// `k` raw bytes that are present when `present`.
pub open spec fn take_coord_n(present: bool, k: nat, s: Seq<u8>) -> Option<(Option<Seq<u8>>, Seq<u8>)> {
    if present {
        match take_fixed(k, s) {
            Some((v, r)) => Some((Some(v), r)),
            None => None,
        }
    } else {
        Some((None, s))
    }
}

/// `s` without the first occurrence of `x`.
pub open spec fn remove_first(s: Seq<u32>, x: u32) -> Seq<u32>
    decreases s.len(),
{
    if s.len() == 0 {
        s
    } else if s[0] == x {
        s.drop_first()
    } else {
        seq![s[0]] + remove_first(s.drop_first(), x)
    }
}

/// The flags with `flag` present or absent as `present` says.
pub open spec fn set_flag(flags: Seq<u32>, flag: u32, present: bool) -> Seq<u32> {
    if present {
        if flags.contains(flag) { flags } else { flags.push(flag) }
    } else {
        remove_first(flags, flag)
    }
}

/// The largest flag, or 0.
pub open spec fn seq_max(s: Seq<u32>) -> u32
    decreases s.len(),
{
    if s.len() == 0 {
        0
    } else {
        let m = seq_max(s.drop_last());
        if s.last() > m { s.last() } else { m }
    }
}

/// The low `n` bits of bit-run byte `g`: bit `b` is set when flag
/// `7 * g + b` is.
pub open spec fn group_byte(set: Seq<u32>, g: nat, n: nat) -> u8
    decreases n,
{
    if n == 0 {
        0
    } else {
        group_byte(set, g, (n - 1) as nat) | if set.contains((g * 7 + n - 1) as u32) {
            1u8 << ((n - 1) as u8)
        } else {
            0u8
        }
    }
}

/// The number of bytes the bit run of `set` takes: enough for its largest
/// flag, at most as many as `size` flags need.
pub open spec fn bitset_bytes(set: Seq<u32>, size: u32) -> nat {
    let n = seq_max(set) / 7 + 1;
    let most = (size + 6) / 7;
    if n < most { n as nat } else { most as nat }
}

/// The bit run of the flags `set`, for flags below `size`.
pub open spec fn encode_bitset(set: Seq<u32>, size: u32) -> Seq<u8> {
    let nb = bitset_bytes(set, size);
    Seq::new(nb, |g: int| group_byte(set, g as nat, 7) | if g + 1 < nb { 0x80u8 } else { 0u8 })
}

/// PlayerAuthInput toward protocol 1001: the flag list becomes a bit run,
/// with the item interaction and item stack request flags cleared and the
/// block action and vehicle flags saying whether those parts came; the
/// parts follow the motion. An input with an item stack request is
/// dropped.
pub open spec fn spec_auth_input_to_v1001(st: WireState) -> Option<WireState> {
    match pass_fields(st, auth_head()) {
        Some(s1) => match take_input_flags_v2168(s1.rest) {
            Some((flags0, r1)) => match take_auth_motion_v2168(r1) {
                Some((motion, r2)) => match take_auth_payload_v2168(r2) {
                    Some((p, r3)) => if p.stack_request {
                        Some(WireState { rest: r3, cancelled: true, ..s1 })
                    } else {
                        let flags = set_flag(
                            set_flag(
                                set_flag(set_flag(flags0, FLAG_PERFORM_ITEM_INTERACTION, false), FLAG_PERFORM_ITEM_STACK_REQUEST, false),
                                FLAG_PERFORM_BLOCK_ACTIONS,
                                p.block_actions is Some,
                            ),
                            FLAG_CLIENT_PREDICTED_VEHICLE,
                            p.vehicle is Some,
                        );
                        Some(put(
                            WireState { rest: r3, ..s1 },
                            encode_bitset(flags, INPUT_FLAG_BITSET_SIZE_V1001) + motion + match p.block_actions {
                                Some(b) => b,
                                None => Seq::empty(),
                            } + match p.vehicle {
                                Some(v) => v,
                                None => Seq::empty(),
                            },
                        ))
                    },
                    None => None,
                },
                None => None,
            },
            None => None,
        },
        None => None,
    }
}

proof fn lemma_flag_list_stuck(s: Seq<u8>, i: nat, n: nat)
    requires
        i <= n,
        decode_flag_list(s, i) is None,
    ensures
        decode_flag_list(s, n) is None,
    decreases n - i,
{
    if i < n {
        lemma_flag_list_stuck(s, i + 1, n);
    }
}

proof fn lemma_block_actions_stuck(s: Seq<u8>, i: nat, n: nat)
    requires
        i <= n,
        block_actions_from(s, i) is None,
    ensures
        block_actions_from(s, n) is None,
    decreases n - i,
{
    if i < n {
        lemma_block_actions_stuck(s, i + 1, n);
    }
}

fn read_flag_list(w: &mut PacketWrapper, count: u32) -> (r: Result<Vec<u32>, DecodeError>)
    requires
        old(w).wf(),
    ensures
        final(w).wf(),
        match decode_flag_list(old(w)@.rest, count as nat) {
            Some((ids, rest)) => r matches Ok(v) && v@ == ids && final(w)@ == (WireState { rest, ..old(w)@ }),
            None => r is Err,
        },
{
    let ghost s0 = old(w)@.rest;
    let mut ids: Vec<u32> = Vec::new();
    let mut k: u32 = 0;
    while k < count
        invariant
            w.wf(),
            k <= count,
            s0 == old(w)@.rest,
            decode_flag_list(s0, k as nat) == Some((ids@, w@.rest)),
            w@.out == old(w)@.out,
            w@.cancelled == old(w)@.cancelled,
        decreases count - k,
    {
        let id = match w.read_i32v() {
            Ok(id) => id,
            Err(e) => {
                proof { lemma_flag_list_stuck(s0, (k + 1) as nat, count as nat); }
                return Err(e);
            },
        };
        if id < 0 || id as u32 >= INPUT_FLAG_COUNT_V2168 {
            proof { lemma_flag_list_stuck(s0, (k + 1) as nat, count as nat); }
            return Err(DecodeError);
        }
        if (id as u32) < INPUT_FLAG_BITSET_SIZE_V1001 {
            ids.push(id as u32);
        }
        k = k + 1;
    }
    Ok(ids)
}

fn read_input_flags_v2168(w: &mut PacketWrapper) -> (r: Result<Vec<u32>, DecodeError>)
    requires
        old(w).wf(),
    ensures
        final(w).wf(),
        match take_input_flags_v2168(old(w)@.rest) {
            Some((ids, rest)) => r matches Ok(v) && v@ == ids && final(w)@ == (WireState { rest, ..old(w)@ }),
            None => r is Err,
        },
{
    if read_flag(w)? {
        let count = w.read_u32v()?;
        read_flag_list(w, count)
    } else {
        Ok(Vec::new())
    }
}

fn read_double_optional(w: &mut PacketWrapper) -> (r: Result<bool, DecodeError>)
    requires
        old(w).wf(),
    ensures
        final(w).wf(),
        match take_double_optional(old(w)@.rest) {
            Some((b, rest)) => r == Ok::<bool, DecodeError>(b) && final(w)@ == (WireState { rest, ..old(w)@ }),
            None => r is Err,
        },
{
    if read_flag(w)? {
        read_flag(w)
    } else {
        Ok(false)
    }
}

fn read_block_action(w: &mut PacketWrapper, p: &mut Vec<u8>) -> (r: Result<(), DecodeError>)
    requires
        old(w).wf(),
    ensures
        final(w).wf(),
        match take_block_action(old(w)@.rest) {
            Some((q, rest)) => r is Ok && final(p)@ == old(p)@ + q && final(w)@ == (WireState { rest, ..old(w)@ }),
            None => r is Err,
        },
{
    let action = w.read_i32v()?;
    let x = w.read_i32v()?;
    let y = w.read_i32v()?;
    let z = w.read_i32v()?;
    let face = w.read_i32v()?;
    let ghost p0 = p@;
    crate::codec::write_i32v(p, action);
    if action == 0 || action == 1 || action == 18 || action == 26 || action == 27 {
        crate::codec::write_i32v(p, x);
        crate::codec::write_i32v(p, y);
        crate::codec::write_i32v(p, z);
        crate::codec::write_i32v(p, face);
        assert(p@ =~= p0 + (ser_i32v(action) + (ser_i32v(x) + ser_i32v(y) + ser_i32v(z) + ser_i32v(face))));
    } else {
        assert(p@ =~= p0 + (ser_i32v(action) + Seq::<u8>::empty()));
    }
    Ok(())
}

fn read_block_actions(w: &mut PacketWrapper) -> (r: Result<Vec<u8>, DecodeError>)
    requires
        old(w).wf(),
    ensures
        final(w).wf(),
        match take_block_actions(old(w)@.rest) {
            Some((b, rest)) => r matches Ok(v) && v@ == b && final(w)@ == (WireState { rest, ..old(w)@ }),
            None => r is Err,
        },
{
    let count = w.read_u32v()?;
    let ghost s0 = w@.rest;
    let mut p: Vec<u8> = Vec::new();
    let mut k: u32 = 0;
    while k < count
        invariant
            w.wf(),
            k <= count,
            take_u32v(old(w)@.rest) == Some((count, s0)),
            block_actions_from(s0, k as nat) == Some((p@, w@.rest)),
            w@.out == old(w)@.out,
            w@.cancelled == old(w)@.cancelled,
        decreases count - k,
    {
        match read_block_action(w, &mut p) {
            Ok(()) => {},
            Err(e) => {
                proof { lemma_block_actions_stuck(s0, (k + 1) as nat, count as nat); }
                return Err(e);
            },
        }
        k = k + 1;
    }
    let mut out: Vec<u8> = Vec::new();
    crate::codec::write_i32v(&mut out, count as i32);
    let ghost head = out@;
    let mut i: usize = 0;
    while i < p.len()
        invariant
            i <= p@.len(),
            out@ == head + p@.take(i as int),
        decreases p@.len() - i,
    {
        out.push(p[i]);
        i = i + 1;
        assert(out@ =~= head + p@.take(i as int));
    }
    assert(p@.take(p@.len() as int) =~= p@);
    Ok(out)
}

fn read_auth_motion_v2168(w: &mut PacketWrapper) -> (r: Result<Vec<u8>, DecodeError>)
    requires
        old(w).wf(),
    ensures
        final(w).wf(),
        match take_auth_motion_v2168(old(w)@.rest) {
            Some((b, rest)) => r matches Ok(v) && v@ == b && final(w)@ == (WireState { rest, ..old(w)@ }),
            None => r is Err,
        },
{
    let input_mode = w.read_u32v()?;
    let play_mode = w.read_u32v()?;
    let model = w.read_i32v()?;
    let angles = w.read_fixed(8)?;
    let tick = w.read_u64v()?;
    let delta = w.read_fixed(12)?;
    let mut out: Vec<u8> = Vec::new();
    crate::codec::write_u32v(&mut out, input_mode);
    crate::codec::write_u32v(&mut out, play_mode);
    crate::codec::write_u32v(&mut out, model as u32);
    crate::codec::copy_range(&mut out, angles.as_slice(), 0, 8);
    crate::codec::write_u64v(&mut out, tick);
    crate::codec::copy_range(&mut out, delta.as_slice(), 0, 12);
    assert(angles@.subrange(0, 8) =~= angles@);
    assert(delta@.subrange(0, 12) =~= delta@);
    Ok(out)
}

fn read_rotation(w: &mut PacketWrapper, present: bool) -> (r: Result<Option<Vec<u8>>, DecodeError>)
    requires
        old(w).wf(),
    ensures
        final(w).wf(),
        match take_coord_n(present, 8, old(w)@.rest) {
            Some((c, rest)) => r matches Ok(v) && coord_view(v) == c && final(w)@ == (WireState { rest, ..old(w)@ }),
            None => r is Err,
        },
{
    if present {
        let v = w.read_fixed(8)?;
        Ok(Some(v))
    } else {
        Ok(None)
    }
}

/// The optional parts of an input, in executable form.
struct PayloadParts {
    stack_request: bool,
    block_actions: Option<Vec<u8>>,
    vehicle: Option<Vec<u8>>,
}

impl View for PayloadParts {
    type V = AuthPayload;

    closed spec fn view(&self) -> AuthPayload {
        AuthPayload {
            stack_request: self.stack_request,
            block_actions: coord_view(self.block_actions),
            vehicle: coord_view(self.vehicle),
        }
    }
}

fn read_auth_payload_v2168(w: &mut PacketWrapper) -> (r: Result<PayloadParts, DecodeError>)
    requires
        old(w).wf(),
    ensures
        final(w).wf(),
        match take_auth_payload_v2168(old(w)@.rest) {
            Some((p, rest)) => r matches Ok(v) && v@ == p && final(w)@ == (WireState { rest, ..old(w)@ }),
            None => r is Err,
        },
{
    if read_double_optional(w)? {
        return Err(DecodeError);
    }
    if read_double_optional(w)? {
        return Ok(PayloadParts { stack_request: true, block_actions: None, vehicle: None });
    }
    let blocks = if read_double_optional(w)? { Some(read_block_actions(w)?) } else { None };
    let has_rot = read_double_optional(w)?;
    let rot = read_rotation(w, has_rot)?;
    let vehicle = if read_double_optional(w)? { Some(w.read_i64v()?) } else { None };
    let joined = match (rot, vehicle) {
        (Some(rb), Some(v)) => {
            let mut out = rb;
            crate::codec::write_i64v(&mut out, v);
            Some(out)
        },
        _ => None,
    };
    Ok(PayloadParts { stack_request: false, block_actions: blocks, vehicle: joined })
}

proof fn lemma_remove_first(s: Seq<u32>, k: int)
    requires
        0 <= k < s.len(),
        forall|j: int| 0 <= j < k ==> s[j] != s[k],
    ensures
        remove_first(s, s[k]) == s.remove(k),
    decreases k,
{
    if k == 0 {
        assert(s.drop_first() =~= s.remove(0));
    } else {
        lemma_remove_first(s.drop_first(), k - 1);
        assert(seq![s[0]] + s.drop_first().remove(k - 1) =~= s.remove(k));
    }
}

proof fn lemma_remove_absent(s: Seq<u32>, x: u32)
    requires
        !s.contains(x),
    ensures
        remove_first(s, x) == s,
    decreases s.len(),
{
    if s.len() > 0 {
        assert(!s.drop_first().contains(x)) by {
            if s.drop_first().contains(x) {
                let j = choose|j: int| 0 <= j < s.drop_first().len() && s.drop_first()[j] == x;
                assert(s[j + 1] == x);
            }
        }
        assert(s[0] != x) by {
            assert(s[0] == s[0]);
        }
        lemma_remove_absent(s.drop_first(), x);
        assert(seq![s[0]] + s.drop_first() =~= s);
    }
}

fn set_flag_vec(flags: &mut Vec<u32>, flag: u32, present: bool)
    ensures
        final(flags)@ == set_flag(old(flags)@, flag, present),
{
    let mut k: usize = 0;
    while k < flags.len()
        invariant
            flags@ == old(flags)@,
            k <= flags@.len(),
            forall|j: int| 0 <= j < k ==> flags@[j] != flag,
        decreases flags@.len() - k,
    {
        if flags[k] == flag {
            if !present {
                proof { lemma_remove_first(flags@, k as int); }
                flags.remove(k);
            } else {
                assert(flags@.contains(flag)) by { assert(flags@[k as int] == flag); }
            }
            return;
        }
        k = k + 1;
    }
    assert(!flags@.contains(flag));
    if present {
        flags.push(flag);
    } else {
        proof { lemma_remove_absent(flags@, flag); }
    }
}

fn max_flag(set: &Vec<u32>) -> (m: u32)
    ensures
        m == seq_max(set@),
{
    let mut m: u32 = 0;
    let mut k: usize = 0;
    assert(set@.take(0) =~= Seq::<u32>::empty());
    while k < set.len()
        invariant
            k <= set@.len(),
            m == seq_max(set@.take(k as int)),
        decreases set@.len() - k,
    {
        assert(set@.take(k + 1).drop_last() =~= set@.take(k as int));
        if set[k] > m {
            m = set[k];
        }
        k = k + 1;
    }
    assert(set@.take(set@.len() as int) =~= set@);
    m
}

fn vec_contains(set: &Vec<u32>, x: u32) -> (b: bool)
    ensures
        b == set@.contains(x),
{
    ids_contain(set, x)
}

/// Writes the bit run of the flags `set`, for flags below `size`.
pub fn write_bitset(w: &mut PacketWrapper, set: &Vec<u32>, size: u32)
    requires
        old(w).wf(),
        size < 0x1000_0000,
    ensures
        final(w).wf(),
        final(w)@ == put(old(w)@, encode_bitset(set@, size)),
{
    let highest = max_flag(set);
    let n = highest / 7 + 1;
    let most = (size + 6) / 7;
    let bytes: u32 = if n < most { n } else { most };
    assert(bytes == bitset_bytes(set@, size));
    let ghost enc = encode_bitset(set@, size);
    let mut g: u32 = 0;
    assert(old(w)@.out + enc.take(0) =~= old(w)@.out);
    while g < bytes
        invariant
            w.wf(),
            size < 0x1000_0000,
            g <= bytes <= (size + 6) / 7,
            bytes == bitset_bytes(set@, size),
            enc == encode_bitset(set@, size),
            w@ == put(old(w)@, enc.take(g as int)),
        decreases bytes - g,
    {
        let mut byte: u8 = 0;
        let mut b: u8 = 0;
        while b < 7
            invariant
                b <= 7,
                g < 0x0300_0000,
                byte == group_byte(set@, g as nat, b as nat),
            decreases 7 - b,
        {
            if vec_contains(set, g * 7 + b as u32) {
                byte = byte | (1u8 << b);
            } else {
                byte = byte | 0u8;
            }
            b = b + 1;
        }
        if g + 1 < bytes {
            byte = byte | 0x80;
        } else {
            byte = byte | 0u8;
        }
        assert(byte == enc[g as int]);
        w.write_u8(byte);
        assert(w@.out =~= old(w)@.out + enc.take(g + 1));
        g = g + 1;
    }
    assert(enc.take(bytes as int) =~= enc);
}

/// Flags in strictly increasing order, as a bit run gives them.
pub open spec fn increasing(s: Seq<u32>) -> bool {
    forall|i: int, j: int| 0 <= i < j < s.len() ==> s[i] < s[j]
}

proof fn lemma_bit_or(x: u8, y: u8, b: u8)
    requires
        b < 8,
    ensures
        bit_set(x | y, b) == (bit_set(x, b) || bit_set(y, b)),
{
    assert((x | y) & (1u8 << b) != 0 <==> (x & (1u8 << b) != 0 || y & (1u8 << b) != 0)) by (bit_vector)
        requires b < 8;
}

proof fn lemma_bit_single(k: u8, b: u8)
    requires
        k < 8,
        b < 8,
    ensures
        bit_set(1u8 << k, b) == (k == b),
        !bit_set(0u8, b),
        bit_set(0x80u8, b) == (b == 7),
{
    assert(((1u8 << k) & (1u8 << b) != 0) == (k == b)) by (bit_vector)
        requires k < 8, b < 8;
    assert(0u8 & (1u8 << b) == 0) by (bit_vector);
    assert((0x80u8 & (1u8 << b) != 0) == (b == 7)) by (bit_vector)
        requires b < 8;
}

/// Bit `b` of the low `n` bits of group byte `g` is set exactly when flag
/// `7 * g + b` is in `set`.
proof fn lemma_group_byte_bits(set: Seq<u32>, g: nat, n: nat)
    requires
        n <= 7,
    ensures
        forall|b: u8| b < 8 ==> (#[trigger] bit_set(group_byte(set, g, n), b)
            <==> (b < n && set.contains((g * 7 + b) as u32))),
    decreases n,
{
    if n == 0 {
        assert forall|b: u8| b < 8 implies !#[trigger] bit_set(group_byte(set, g, n), b) by {
            lemma_bit_single(0, b);
        }
    } else {
        lemma_group_byte_bits(set, g, (n - 1) as nat);
        let prev = group_byte(set, g, (n - 1) as nat);
        let k = (n - 1) as u8;
        let add = if set.contains((g * 7 + n - 1) as u32) { 1u8 << k } else { 0u8 };
        assert forall|b: u8| b < 8 implies (#[trigger] bit_set(group_byte(set, g, n), b)
            <==> (b < n && set.contains((g * 7 + b) as u32))) by {
            lemma_bit_or(prev, add, b);
            lemma_bit_single(k, b);
        }
    }
}

/// The flag ids of a group byte: in increasing order, within the group,
/// and exactly those whose bit is set.
#[verifier::rlimit(40)]
#[verifier::spinoff_prover]
proof fn lemma_group_ids(byte: u8, base: nat, n: nat)
    requires
        n <= 8,
        base + n < 0x1_0000_0000,
    ensures
        increasing(group_ids(byte, base, n)),
        forall|i: int| 0 <= i < group_ids(byte, base, n).len() ==> base <= #[trigger] group_ids(byte, base, n)[i] < base + n,
        forall|x: u32| #[trigger] group_ids(byte, base, n).contains(x)
            <==> (base <= x < base + n && bit_set(byte, (x - base) as u8)),
    decreases n,
{
    if n > 0 {
        lemma_group_ids(byte, base, (n - 1) as nat);
        let p = group_ids(byte, base, (n - 1) as nat);
        let last = (base + n - 1) as u32;
        let r = group_ids(byte, base, n);
        if bit_set(byte, (n - 1) as u8) {
            assert(r == p + seq![last]);
            assert forall|x: u32| #[trigger] r.contains(x) <==> (base <= x < base + n && bit_set(byte, (x - base) as u8)) by {
                if r.contains(x) {
                    let i = choose|i: int| 0 <= i < r.len() && r[i] == x;
                    if i < p.len() {
                        assert(p[i] == x);
                        assert(p.contains(x));
                    }
                }
                if base <= x < base + n && bit_set(byte, (x - base) as u8) {
                    if x == last {
                        assert(r[r.len() - 1] == x);
                    } else {
                        assert(p.contains(x));
                        let i = choose|i: int| 0 <= i < p.len() && p[i] == x;
                        assert(r[i] == x);
                    }
                }
            }
        } else {
            assert(r =~= p);
            assert forall|x: u32| #[trigger] r.contains(x) <==> (base <= x < base + n && bit_set(byte, (x - base) as u8)) by {
                if x == last {
                    assert((x - base) as u8 == (n - 1) as u8);
                }
            }
        }
    }
}

/// Two bytes that agree on their low `n` bits carry the same flag ids.
proof fn lemma_group_ids_agree(b1: u8, b2: u8, base: nat, n: nat)
    requires
        forall|b: u8| b < n ==> bit_set(b1, b) == bit_set(b2, b),
    ensures
        group_ids(b1, base, n) == group_ids(b2, base, n),
    decreases n,
{
    if n > 0 {
        lemma_group_ids_agree(b1, b2, base, (n - 1) as nat);
        assert(bit_set(b1, (n - 1) as u8) == bit_set(b2, (n - 1) as u8));
    }
}

/// No flag exceeds the largest.
proof fn lemma_seq_max(s: Seq<u32>)
    ensures
        forall|i: int| 0 <= i < s.len() ==> #[trigger] s[i] <= seq_max(s),
    decreases s.len(),
{
    if s.len() > 0 {
        lemma_seq_max(s.drop_last());
        assert forall|i: int| 0 <= i < s.len() implies #[trigger] s[i] <= seq_max(s) by {
            if i < s.len() - 1 {
                assert(s[i] == s.drop_last()[i]);
            }
        }
    }
}

/// The bit run of `set`, read from byte `g` on, gives back the flags of
/// `set` from `7 * g` on, in increasing order.
#[verifier::rlimit(40)]
#[verifier::spinoff_prover]
proof fn lemma_decode_encode(set: Seq<u32>, size: u32, g: nat, t: Seq<u8>)
    requires
        0 < size < 0x1000_0000,
        forall|i: int| 0 <= i < set.len() ==> #[trigger] set[i] < size,
        g < bitset_bytes(set, size),
    ensures
        decode_bitset_from(encode_bitset(set, size).skip(g as int) + t, 7 * g, size as nat) matches Some((r, rest))
            && rest == t && increasing(r)
            && (forall|i: int| 0 <= i < r.len() ==> 7 * g <= #[trigger] r[i])
            && (forall|x: u32| #[trigger] r.contains(x) <==> (7 * g <= x && set.contains(x))),
    decreases bitset_bytes(set, size) - g,
{
    let e = encode_bitset(set, size);
    let nb = bitset_bytes(set, size);
    let gb = group_byte(set, g, 7);
    let cont = if g + 1 < nb { 0x80u8 } else { 0u8 };
    let byte = gb | cont;
    let base = 7 * g;
    assert(e[g as int] == byte);
    let x = e.skip(g as int) + t;
    assert(x[0] == byte);
    assert(x.skip(1) =~= e.skip((g + 1) as int) + t);
    lemma_group_byte_bits(set, g, 7);
    lemma_seq_max(set);
    // Every flag of `set` lies below the bit run's end.
    assert forall|y: u32| set.contains(y) implies y < 7 * nb by {
        let i = choose|i: int| 0 <= i < set.len() && set[i] == y;
        assert(set[i] <= seq_max(set));
    }
    assert(base + 7 <= size + 6);
    assert forall|b: u8| b < 8 implies #[trigger] bit_set(byte, b) == (if b < 7 { bit_set(gb, b) } else { g + 1 < nb }) by {
        lemma_bit_or(gb, cont, b);
        lemma_bit_single(7, b);
    }
    assert((byte & 0x80 == 0) == !bit_set(byte, 7)) by {
        assert((byte & 0x80 == 0) == !(byte & (1u8 << 7u8) != 0)) by (bit_vector);
    }
    assert(group_fits(byte, base, size as nat)) by {
        assert forall|b: u8| 0 <= b < 7 && #[trigger] bit_set(byte, b) implies base + b < size by {
            assert(set.contains((g * 7 + b) as u32));
            let i = choose|i: int| 0 <= i < set.len() && set[i] == (g * 7 + b) as u32;
        }
    }
    lemma_group_ids_agree(byte, gb, base, 7);
    lemma_group_ids(gb, base, 7);
    let ids = group_ids(byte, base, 7);
    assert forall|y: u32| #[trigger] ids.contains(y) <==> (base <= y < base + 7 && set.contains(y)) by {
        if base <= y < base + 7 {
            let b = (y - base) as u8;
            assert((g * 7 + b) as u32 == y);
        }
    }
    if g + 1 < nb {
        assert(7 * (g + 1) < size);
        lemma_decode_encode(set, size, g + 1, t);
        let (rr, _) = decode_bitset_from(e.skip((g + 1) as int) + t, 7 * (g + 1), size as nat).unwrap();
        let r = ids + rr;
        assert(decode_bitset_from(x, base, size as nat) == Some((r, t)));
        assert forall|i: int, j: int| 0 <= i < j < r.len() implies r[i] < r[j] by {
            if j < ids.len() {
            } else if i < ids.len() {
                assert(r[j] == rr[j - ids.len()]);
            } else {
                assert(r[i] == rr[i - ids.len()]);
                assert(r[j] == rr[j - ids.len()]);
            }
        }
        assert forall|i: int| 0 <= i < r.len() implies 7 * g <= #[trigger] r[i] by {
            if i >= ids.len() {
                assert(r[i] == rr[i - ids.len()]);
            }
        }
        assert forall|y: u32| #[trigger] r.contains(y) <==> (7 * g <= y && set.contains(y)) by {
            if r.contains(y) {
                let i = choose|i: int| 0 <= i < r.len() && r[i] == y;
                if i < ids.len() {
                    assert(ids[i] == y);
                    assert(ids.contains(y));
                } else {
                    assert(rr[i - ids.len()] == y);
                    assert(rr.contains(y));
                }
            }
            if 7 * g <= y && set.contains(y) {
                if y < base + 7 {
                    assert(ids.contains(y));
                    let i = choose|i: int| 0 <= i < ids.len() && ids[i] == y;
                    assert(r[i] == y);
                } else {
                    assert(rr.contains(y));
                    let i = choose|i: int| 0 <= i < rr.len() && rr[i] == y;
                    assert(r[i + ids.len()] == y);
                }
            }
        }
    } else {
        assert(e.len() == nb);
        assert(e.skip((g + 1) as int) + t =~= t);
        assert(decode_bitset_from(x, base, size as nat) == Some((ids, t)));
    }
}

/// Two increasing flag sequences with the same flags are the same.
proof fn lemma_increasing_unique(a: Seq<u32>, b: Seq<u32>)
    requires
        increasing(a),
        increasing(b),
        forall|x: u32| a.contains(x) <==> b.contains(x),
    ensures
        a == b,
    decreases a.len(),
{
    if a.len() == 0 {
        if b.len() > 0 {
            assert(b.contains(b[0]));
        }
        assert(a =~= b);
    } else {
        assert(a.contains(a[0]));
        assert(b.len() > 0);
        assert(b.contains(b[0]));
        let i = choose|i: int| 0 <= i < a.len() && a[i] == b[0];
        let j = choose|j: int| 0 <= j < b.len() && b[j] == a[0];
        assert(a[0] == b[0]) by {
            if i > 0 { assert(a[0] < a[i]); }
            if j > 0 { assert(b[0] < b[j]); }
        }
        let a1 = a.drop_first();
        let b1 = b.drop_first();
        assert forall|x: u32| a1.contains(x) <==> b1.contains(x) by {
            if a1.contains(x) {
                let k = choose|k: int| 0 <= k < a1.len() && a1[k] == x;
                assert(a[k + 1] == x);
                assert(a.contains(x));
                let m = choose|m: int| 0 <= m < b.len() && b[m] == x;
                assert(m != 0);
                assert(b1[m - 1] == x);
            }
            if b1.contains(x) {
                let k = choose|k: int| 0 <= k < b1.len() && b1[k] == x;
                assert(b[k + 1] == x);
                assert(b.contains(x));
                let m = choose|m: int| 0 <= m < a.len() && a[m] == x;
                assert(m != 0);
                assert(a1[m - 1] == x);
            }
        }
        lemma_increasing_unique(a1, b1);
        assert(a =~= seq![a[0]] + a1);
        assert(b =~= seq![b[0]] + b1);
    }
}

/// What `read_bitset` gives back of what `write_bitset` wrote: the bit run
/// of increasing flags below `size` reads back as those flags, and the
/// input after it is left as it was.
pub proof fn law_bitset_round_trip(set: Seq<u32>, size: u32, t: Seq<u8>)
    requires
        0 < size < 0x1000_0000,
        increasing(set),
        forall|i: int| 0 <= i < set.len() ==> #[trigger] set[i] < size,
    ensures
        decode_bitset_from(encode_bitset(set, size) + t, 0, size as nat) == Some((set, t)),
{
    assert(bitset_bytes(set, size) > 0);
    lemma_decode_encode(set, size, 0, t);
    assert(encode_bitset(set, size).skip(0) =~= encode_bitset(set, size));
    let r = decode_bitset_from(encode_bitset(set, size) + t, 0, size as nat).unwrap().0;
    lemma_increasing_unique(r, set);
}

/// PlayerAuthInput in either direction.
pub open spec fn spec_player_auth_input(st: WireState, to_v2168: bool) -> Option<WireState> {
    if to_v2168 { spec_auth_input_to_v2168(st) } else { spec_auth_input_to_v1001(st) }
}

pub fn player_auth_input(w: &mut PacketWrapper, to_v2168: bool) -> (r: Result<(), DecodeError>)
    requires
        old(w).wf(),
    ensures
        final(w).wf(),
        match spec_player_auth_input(old(w)@, to_v2168) {
            Some(st) => r is Ok && final(w)@ == st,
            None => r is Err,
        },
{
    if to_v2168 { auth_input_to_v2168(w) } else { auth_input_to_v1001(w) }
}

/// PlayerAuthInput toward protocol 1001.
pub fn auth_input_to_v1001(w: &mut PacketWrapper) -> (r: Result<(), DecodeError>)
    requires
        old(w).wf(),
    ensures
        final(w).wf(),
        match spec_auth_input_to_v1001(old(w)@) {
            Some(st) => r is Ok && final(w)@ == st,
            None => r is Err,
        },
{
    let head = vec![Field::Fixed(4), Field::Fixed(4), Field::Fixed(12), Field::Fixed(8), Field::Fixed(4)];
    assert(head@.skip(0) =~= auth_head());
    w.passthrough_fields(head.as_slice(), 0)?;
    let mut flags = read_input_flags_v2168(w)?;
    let motion = read_auth_motion_v2168(w)?;
    let p = read_auth_payload_v2168(w)?;
    if p.stack_request {
        w.cancel();
        return Ok(());
    }
    set_flag_vec(&mut flags, FLAG_PERFORM_ITEM_INTERACTION, false);
    set_flag_vec(&mut flags, FLAG_PERFORM_ITEM_STACK_REQUEST, false);
    set_flag_vec(&mut flags, FLAG_PERFORM_BLOCK_ACTIONS, p.block_actions.is_some());
    set_flag_vec(&mut flags, FLAG_CLIENT_PREDICTED_VEHICLE, p.vehicle.is_some());
    let ghost s3 = w@;
    write_bitset(w, &flags, INPUT_FLAG_BITSET_SIZE_V1001);
    w.write_bytes(motion.as_slice());
    let ghost o2 = w@.out;
    match &p.block_actions {
        Some(b) => w.write_bytes(b.as_slice()),
        None => {},
    }
    let ghost o3 = w@.out;
    match &p.vehicle {
        Some(v) => w.write_bytes(v.as_slice()),
        None => {},
    }
    proof {
        let bpart = match p@.block_actions { Some(b) => b, None => Seq::<u8>::empty() };
        let vpart = match p@.vehicle { Some(v) => v, None => Seq::<u8>::empty() };
        assert(o3 =~= o2 + bpart);
        assert(w@.out =~= o3 + vpart);
        assert(w@.out =~= s3.out + (encode_bitset(flags@, INPUT_FLAG_BITSET_SIZE_V1001) + motion@ + bpart + vpart));
    }
    Ok(())
}

// ---------------------------------------------------------------------------
// The steps.

/// An authoritative input in the form both protocols can carry: the head,
/// the flags (none that asks for a payload), the modes, the interaction
/// model, angles, tick and position delta, and the vehicle rotation and id
/// exactly when the vehicle flag is set.
pub struct AuthInput {
    pub head: Seq<u8>,
    pub flags: Seq<u32>,
    pub input_mode: u32,
    pub play_mode: u32,
    pub model: u32,
    pub angles: Seq<u8>,
    pub tick: u64,
    pub delta: Seq<u8>,
    pub vehicle: Option<(Seq<u8>, i64)>,
}

pub open spec fn auth_input_ok(a: AuthInput) -> bool {
    &&& a.head.len() == 32
    &&& increasing(a.flags)
    &&& (forall|i: int| 0 <= i < a.flags.len() ==> #[trigger] a.flags[i] < INPUT_FLAG_BITSET_SIZE_V1001)
    &&& !wants_payload(a.flags)
    &&& a.flags.contains(FLAG_CLIENT_PREDICTED_VEHICLE) == (a.vehicle is Some)
    &&& a.angles.len() == 8
    &&& a.delta.len() == 12
    &&& (a.vehicle matches Some((rot, _)) ==> rot.len() == 8)
}

/// The interaction angles, tick and position delta.
pub open spec fn auth_motion_bytes(a: AuthInput) -> Seq<u8> {
    a.angles + ser_u64v(a.tick) + a.delta
}

/// The input as protocol 1001 writes it.
pub open spec fn auth_v1001(a: AuthInput) -> Seq<u8> {
    a.head + encode_bitset(a.flags, INPUT_FLAG_BITSET_SIZE_V1001) + ser_u32v(a.input_mode) + ser_u32v(a.play_mode)
        + ser_u32v(a.model) + auth_motion_bytes(a) + match a.vehicle {
        Some((rot, v)) => rot + ser_i64v(v),
        None => Seq::empty(),
    }
}

/// The vehicle part of the input as protocol 2168 writes it.
pub open spec fn auth_vehicle_v2168(vehicle: Option<(Seq<u8>, i64)>) -> Seq<u8> {
    match vehicle {
        Some((rot, v)) => ser_bool(true) + ser_bool(true) + rot + ser_bool(true) + ser_bool(true) + ser_i64v(v),
        None => absent() + absent(),
    }
}

/// The input as protocol 2168 writes it.
pub open spec fn auth_v2168(a: AuthInput) -> Seq<u8> {
    a.head + (ser_bool(true) + ser_u32v(a.flags.len() as u32) + ser_flag_ids(a.flags)) + ser_u32v(a.input_mode)
        + ser_u32v(a.play_mode) + ser_i32v(a.model as i32) + auth_motion_bytes(a)
        + (absent() + absent() + absent() + auth_vehicle_v2168(a.vehicle))
}

#[verifier::rlimit(40)]
#[verifier::spinoff_prover]
proof fn lemma_auth_fields_len(a: AuthInput)
    requires
        auth_input_ok(a),
    ensures
        fields_len(auth_head(), a.head) == Some(a.head.len()),
        fields_len(auth_modes(), ser_u32v(a.input_mode) + ser_u32v(a.play_mode))
            == Some((ser_u32v(a.input_mode) + ser_u32v(a.play_mode)).len()),
        fields_len(auth_motion(), auth_motion_bytes(a)) == Some(auth_motion_bytes(a).len()),
{
    reveal_with_fuel(fields_len, 6);
    let h = a.head;
    assert(auth_head().drop_first() =~= seq![Field::Fixed(4), Field::Fixed(12), Field::Fixed(8), Field::Fixed(4)]);
    assert(auth_head().drop_first().drop_first() =~= seq![Field::Fixed(12), Field::Fixed(8), Field::Fixed(4)]);
    assert(auth_head().drop_first().drop_first().drop_first() =~= seq![Field::Fixed(8), Field::Fixed(4)]);
    assert(auth_head().drop_first().drop_first().drop_first().drop_first() =~= seq![Field::Fixed(4)]);
    assert(seq![Field::Fixed(4)].drop_first() =~= Seq::<Field>::empty());
    assert(h.skip(4).skip(4).skip(12).skip(8).skip(4).len() == 0);
    let m = ser_u32v(a.input_mode) + ser_u32v(a.play_mode);
    crate::codec::lemma_u32v_round_trip(a.input_mode, ser_u32v(a.play_mode));
    crate::codec::lemma_u32v_round_trip(a.play_mode, Seq::empty());
    assert(ser_u32v(a.play_mode) + Seq::<u8>::empty() =~= ser_u32v(a.play_mode));
    assert(m.skip(ser_u32v(a.input_mode).len() as int) =~= ser_u32v(a.play_mode));
    assert(auth_modes().drop_first() =~= seq![Field::UVarInt]);
    assert(seq![Field::UVarInt].drop_first() =~= Seq::<Field>::empty());
    assert(ser_u32v(a.play_mode).skip(ser_u32v(a.play_mode).len() as int).len() == 0);
    let mb = auth_motion_bytes(a);
    let k = ser_u64v(a.tick);
    crate::codec::lemma_u64v_round_trip(a.tick, a.delta);
    assert(mb.skip(4).skip(4) =~= k + a.delta);
    assert(mb.skip(4).skip(4).skip(k.len() as int) =~= a.delta);
    assert(auth_motion().drop_first() =~= seq![Field::Fixed(4), Field::UVarInt64, Field::Fixed(12)]);
    assert(auth_motion().drop_first().drop_first() =~= seq![Field::UVarInt64, Field::Fixed(12)]);
    assert(auth_motion().drop_first().drop_first().drop_first() =~= seq![Field::Fixed(12)]);
    assert(seq![Field::Fixed(12)].drop_first() =~= Seq::<Field>::empty());
    assert(a.delta.skip(12).len() == 0);
}

proof fn lemma_flag_list_round_trip(ids: Seq<u32>, t: Seq<u8>)
    requires
        forall|i: int| 0 <= i < ids.len() ==> #[trigger] ids[i] < INPUT_FLAG_BITSET_SIZE_V1001,
    ensures
        decode_flag_list(ser_flag_ids(ids) + t, ids.len()) == Some((ids, t)),
    decreases ids.len(),
{
    if ids.len() > 0 {
        let p = ids.drop_last();
        let x = ids.last();
        assert forall|i: int| 0 <= i < p.len() implies #[trigger] p[i] < INPUT_FLAG_BITSET_SIZE_V1001 by {
            assert(p[i] == ids[i]);
        }
        assert(ids[ids.len() - 1] < INPUT_FLAG_BITSET_SIZE_V1001);
        lemma_flag_list_round_trip(p, ser_i32v(x as i32) + t);
        assert(ser_flag_ids(ids) + t =~= ser_flag_ids(p) + (ser_i32v(x as i32) + t));
        crate::codec::lemma_take_i32v(x as i32, t);
        assert(p.push(x) =~= ids);
    } else {
        assert(ser_flag_ids(ids) + t =~= t);
    }
}

proof fn lemma_double_optional(present: bool, t: Seq<u8>)
    ensures
        take_double_optional(ser_bool(true) + ser_bool(present) + t) == Some((present, t)),
{
    assert(ser_bool(true) + ser_bool(present) + t =~= ser_u8(1u8) + (ser_u8(if present { 1u8 } else { 0u8 }) + t));
    lemma_take_u8(1u8, ser_u8(if present { 1u8 } else { 0u8 }) + t);
    lemma_take_u8(if present { 1u8 } else { 0u8 }, t);
}

#[verifier::rlimit(40)]
#[verifier::spinoff_prover]
proof fn lemma_auth_payload(vehicle: Option<(Seq<u8>, i64)>, t: Seq<u8>)
    requires
        vehicle matches Some((rot, _)) ==> rot.len() == 8,
    ensures
        take_auth_payload_v2168(absent() + absent() + absent() + auth_vehicle_v2168(vehicle) + t) == Some((
            AuthPayload {
                stack_request: false,
                block_actions: None,
                vehicle: match vehicle { Some((rot, v)) => Some(rot + ser_i64v(v)), None => None },
            },
            t,
        )),
{
    let a = absent();
    let vt = auth_vehicle_v2168(vehicle);
    assert(a + a + a + vt + t =~= a + (a + (a + (vt + t))));
    lemma_double_optional(false, a + (a + (vt + t)));
    lemma_double_optional(false, a + (vt + t));
    lemma_double_optional(false, vt + t);
    match vehicle {
        Some((rot, v)) => {
            let one = ser_bool(true);
            assert(vt + t =~= one + one + (rot + (one + one + (ser_i64v(v) + t))));
            lemma_double_optional(true, rot + (one + one + (ser_i64v(v) + t)));
            lemma_take_fixed(rot, one + one + (ser_i64v(v) + t));
            lemma_double_optional(true, ser_i64v(v) + t);
            crate::codec::lemma_take_i64v(v, t);
        },
        None => {
            assert(vt + t =~= a + (a + t));
            lemma_double_optional(false, a + t);
            lemma_double_optional(false, t);
        },
    }
}

/// The flag edits toward protocol 1001 keep the flags of an input that asks
/// for no payload.
proof fn lemma_auth_flags_kept(a: AuthInput)
    requires
        auth_input_ok(a),
    ensures
        set_flag(
            set_flag(
                set_flag(set_flag(a.flags, FLAG_PERFORM_ITEM_INTERACTION, false), FLAG_PERFORM_ITEM_STACK_REQUEST, false),
                FLAG_PERFORM_BLOCK_ACTIONS,
                false,
            ),
            FLAG_CLIENT_PREDICTED_VEHICLE,
            a.vehicle is Some,
        ) == a.flags,
{
    lemma_remove_absent(a.flags, FLAG_PERFORM_ITEM_INTERACTION);
    lemma_remove_absent(a.flags, FLAG_PERFORM_ITEM_STACK_REQUEST);
    lemma_remove_absent(a.flags, FLAG_PERFORM_BLOCK_ACTIONS);
    if a.vehicle is None {
        lemma_remove_absent(a.flags, FLAG_CLIENT_PREDICTED_VEHICLE);
    }
}

#[verifier::rlimit(60)]
#[verifier::spinoff_prover]
proof fn lemma_auth_input_up(a: AuthInput, t: Seq<u8>)
    requires
        auth_input_ok(a),
    ensures
        spec_auth_input_to_v2168(start(auth_v1001(a) + t)) matches Some(st) && finished(st) == auth_v2168(a) + t
            && !st.cancelled,
{
    let size = INPUT_FLAG_BITSET_SIZE_V1001;
    let bits = encode_bitset(a.flags, size);
    let modes = ser_u32v(a.input_mode) + ser_u32v(a.play_mode);
    let mb = auth_motion_bytes(a);
    let vp = match a.vehicle { Some((rot, v)) => rot + ser_i64v(v), None => Seq::<u8>::empty() };
    let list = ser_bool(true) + ser_u32v(a.flags.len() as u32) + ser_flag_ids(a.flags);
    let tail = absent() + absent() + absent() + auth_vehicle_v2168(a.vehicle);
    lemma_auth_fields_len(a);
    let r5 = vp + t;
    let r4 = mb + r5;
    let r3 = ser_u32v(a.model) + r4;
    let r2 = modes + r3;
    let r1 = bits + r2;
    assert(auth_v1001(a) + t =~= a.head + r1);
    lemma_head_copied(auth_head(), a.head, r1);
    law_bitset_round_trip(a.flags, size, r2);
    let s2 = WireState { rest: r2, out: a.head + list, cancelled: false };
    lemma_fields_copied(auth_modes(), s2, modes, r3);
    crate::codec::lemma_take_u32v(a.model, r4);
    let s4 = WireState { rest: r4, out: a.head + list + modes + ser_i32v(a.model as i32), cancelled: false };
    lemma_fields_copied(auth_motion(), s4, mb, r5);
    let s5 = WireState { rest: r5, out: s4.out + mb, cancelled: false };
    match a.vehicle {
        Some((rot, v)) => {
            lemma_take_fixed(rot, ser_i64v(v) + t);
            assert(r5 =~= rot + (ser_i64v(v) + t));
            crate::codec::lemma_take_i64v(v, t);
        },
        None => {
            assert(r5 =~= t);
        },
    }
    let st = spec_auth_input_to_v2168(start(auth_v1001(a) + t)).unwrap();
    assert(st.out =~= s5.out + tail);
    assert(finished(st) =~= auth_v2168(a) + t);
}

/// An increasing flag is at least its position.
proof fn lemma_increasing_at_least(s: Seq<u32>, i: int)
    requires
        increasing(s),
        0 <= i < s.len(),
    ensures
        s[i] >= i,
    decreases i,
{
    if i > 0 {
        lemma_increasing_at_least(s, i - 1);
        assert(s[i - 1] < s[i]);
    }
}

#[verifier::rlimit(40)]
#[verifier::spinoff_prover]
proof fn lemma_auth_flags_down(a: AuthInput, r1: Seq<u8>)
    requires
        auth_input_ok(a),
    ensures
        take_input_flags_v2168(ser_bool(true) + ser_u32v(a.flags.len() as u32) + ser_flag_ids(a.flags) + r1)
            == Some((a.flags, r1)),
{
    if a.flags.len() > 0 {
        lemma_increasing_at_least(a.flags, a.flags.len() - 1);
    }
    let one = ser_bool(true);
    let n = a.flags.len() as u32;
    let fl = ser_flag_ids(a.flags);
    assert(one + ser_u32v(n) + fl + r1 =~= one + (ser_u32v(n) + (fl + r1)));
    lemma_take_u8(1u8, ser_u32v(n) + (fl + r1));
    assert(one =~= ser_u8(1u8));
    crate::codec::lemma_take_u32v(n, fl + r1);
    lemma_flag_list_round_trip(a.flags, r1);
}

#[verifier::rlimit(40)]
#[verifier::spinoff_prover]
proof fn lemma_auth_motion_down(a: AuthInput, r2: Seq<u8>)
    requires
        auth_input_ok(a),
    ensures
        take_auth_motion_v2168(ser_u32v(a.input_mode) + ser_u32v(a.play_mode) + ser_i32v(a.model as i32)
            + auth_motion_bytes(a) + r2) == Some((
            ser_u32v(a.input_mode) + ser_u32v(a.play_mode) + ser_u32v(a.model) + auth_motion_bytes(a),
            r2,
        )),
{
    let m = a.model as i32;
    let x = ser_u32v(a.input_mode) + ser_u32v(a.play_mode) + ser_i32v(m) + auth_motion_bytes(a) + r2;
    assert(x =~= ser_u32v(a.input_mode) + (ser_u32v(a.play_mode) + (ser_i32v(m) + (a.angles + (ser_u64v(a.tick)
        + (a.delta + r2))))));
    crate::codec::lemma_take_u32v(a.input_mode, ser_u32v(a.play_mode) + (ser_i32v(m) + (a.angles + (ser_u64v(a.tick)
        + (a.delta + r2)))));
    crate::codec::lemma_take_u32v(a.play_mode, ser_i32v(m) + (a.angles + (ser_u64v(a.tick) + (a.delta + r2))));
    crate::codec::lemma_take_i32v(m, a.angles + (ser_u64v(a.tick) + (a.delta + r2)));
    lemma_take_fixed(a.angles, ser_u64v(a.tick) + (a.delta + r2));
    crate::codec::lemma_u64v_round_trip(a.tick, a.delta + r2);
    assert((ser_u64v(a.tick) + (a.delta + r2)).skip(ser_u64v(a.tick).len() as int) =~= a.delta + r2);
    lemma_take_fixed(a.delta, r2);
    let model = a.model;
    assert(((model as i32) as u32) == model) by (bit_vector);
    assert(ser_u32v(a.input_mode) + ser_u32v(a.play_mode) + ser_u32v(a.model) + a.angles + ser_u64v(a.tick) + a.delta
        =~= ser_u32v(a.input_mode) + ser_u32v(a.play_mode) + ser_u32v(a.model) + auth_motion_bytes(a));
}

#[verifier::rlimit(60)]
#[verifier::spinoff_prover]
proof fn lemma_auth_input_down(a: AuthInput, t: Seq<u8>)
    requires
        auth_input_ok(a),
    ensures
        spec_auth_input_to_v1001(start(auth_v2168(a) + t)) matches Some(st) && finished(st) == auth_v1001(a) + t
            && !st.cancelled,
{
    let list = ser_bool(true) + ser_u32v(a.flags.len() as u32) + ser_flag_ids(a.flags);
    let mb = auth_motion_bytes(a);
    let motion2168 = ser_u32v(a.input_mode) + ser_u32v(a.play_mode) + ser_i32v(a.model as i32) + mb;
    let motion1001 = ser_u32v(a.input_mode) + ser_u32v(a.play_mode) + ser_u32v(a.model) + mb;
    let tail = absent() + absent() + absent() + auth_vehicle_v2168(a.vehicle);
    let r2 = tail + t;
    let r1 = motion2168 + r2;
    assert(auth_v2168(a) + t =~= a.head + (list + r1));
    lemma_auth_fields_len(a);
    lemma_head_copied(auth_head(), a.head, list + r1);
    lemma_auth_flags_down(a, r1);
    lemma_auth_motion_down(a, r2);
    lemma_auth_payload(a.vehicle, t);
    lemma_auth_flags_kept(a);
    let st = spec_auth_input_to_v1001(start(auth_v2168(a) + t)).unwrap();
    assert(st.out =~= a.head + (encode_bitset(a.flags, INPUT_FLAG_BITSET_SIZE_V1001) + motion1001 + Seq::<u8>::empty()
        + match a.vehicle { Some((rot, v)) => rot + ser_i64v(v), None => Seq::<u8>::empty() }));
    assert(finished(st) =~= auth_v1001(a) + t);
}

/// An authoritative input taken from protocol 1001 to 2168 and back, or
/// from 2168 to 1001 and back, is unchanged, where it asks for no item
/// interaction, item stack request or block actions, its fields are
/// written in their shortest form, and its vehicle data comes exactly with
/// the vehicle flag.
pub proof fn law_player_auth_input_round_trip(a: AuthInput, t: Seq<u8>)
    requires
        auth_input_ok(a),
    ensures
        spec_player_auth_input(start(auth_v1001(a) + t), true) matches Some(x) && finished(x) == auth_v2168(a) + t
            && !x.cancelled,
        spec_player_auth_input(start(auth_v2168(a) + t), false) matches Some(y) && finished(y) == auth_v1001(a) + t
            && !y.cancelled,
{
    lemma_auth_input_up(a, t);
    lemma_auth_input_down(a, t);
}

/// The handlers of a step between 1001 and 2168, for a client (`cb`) and a
/// server (`sb`) that speak 2168 or not; `loops` is the loop count written
/// into sounds toward 2168.
pub open spec fn step_handlers(cb: bool, sb: bool, loops: i32, shape: Option<SubChunkShape>, scores: bool) -> (Map<u16, Handler>, Map<u16, Handler>) {
    let base = map![
        packet_ids::RESOURCE_PACKS_INFO => Handler::ResourcePacksInfo(cb),
        packet_ids::LEVEL_CHUNK => Handler::FullChunkData(cb),
        packet_ids::MOVE_ACTOR_DELTA => Handler::MoveDeltaActor(cb),
        packet_ids::MOVE_PLAYER => Handler::MovePlayer(cb),
        packet_ids::PLAY_SOUND => Handler::PlaySoundLoops(cb, loops),
        packet_ids::TRANSFER => Handler::Transfer(cb),
        packet_ids::DIMENSION_DATA => Handler::DimensionData(cb),
        packet_ids::STRUCTURE_BLOCK_UPDATE => Handler::StructureBlockUpdate(cb),
        packet_ids::PLAYER_LIST => Handler::PlayerList(cb),
        packet_ids::ITEM_STACK_RESPONSE => Handler::ItemStackResponse(cb),
        packet_ids::INVENTORY_TRANSACTION => Handler::InventoryTransaction,
    ];
    let clientbound = base.insert(packet_ids::SET_SCORE, Handler::SetScore(cb, false, scores)).insert(
        packet_ids::SET_SCOREBOARD_IDENTITY,
        Handler::SetScore(cb, true, scores),
    );
    (
        match shape {
            Some(s) => clientbound.insert(packet_ids::SUB_CHUNK, Handler::SubChunk(cb, s)),
            None => clientbound,
        },
        map![
            packet_ids::MOVE_PLAYER => Handler::MovePlayer(sb),
            packet_ids::RESOURCE_PACK_CLIENT_RESPONSE => Handler::ResourcePackClientResponse(sb),
            packet_ids::STRUCTURE_BLOCK_UPDATE => Handler::StructureBlockUpdate(sb),
            packet_ids::PLAYER_AUTH_INPUT => Handler::PlayerAuthInput(sb),
            packet_ids::ANVIL_DAMAGE => Handler::AnvilDamage(sb),
            packet_ids::SERVERBOUND_DIAGNOSTICS => Handler::ServerboundDiagnostics(sb),
            packet_ids::INVENTORY_TRANSACTION => Handler::InventoryTransaction,
        ],
    )
}

/// The packets the step drops, clientbound and serverbound: skins, maps
/// and player locations, the post-move position toward a protocol-1001
/// client (`!cb`), and SubChunk when no shape is picked.
pub open spec fn step_cancels(cb: bool, shape: Option<SubChunkShape>) -> (Set<u16>, Set<u16>) {
    let base = set![packet_ids::PLAYER_SKIN, packet_ids::MAP_DATA, packet_ids::PLAYER_LOCATION];
    let for_client = if cb { base } else { base.insert(packet_ids::SERVER_PLAYER_POST_MOVE_POSITION) };
    (
        if shape is Some { for_client } else { for_client.insert(packet_ids::SUB_CHUNK) },
        set![packet_ids::PLAYER_SKIN],
    )
}

fn build(name: &'static str, server_protocol: u32, client_protocol: u32, loops: i32, shape: Option<SubChunkShape>, scores: bool) -> (t: Translator)
    ensures
        t.wf(),
        t.name == name,
        t.server_protocol == server_protocol,
        t.client_protocol == client_protocol,
        t.handlers(Direction::Clientbound) == step_handlers(client_protocol == 2168, server_protocol == 2168, loops, shape, scores).0,
        t.handlers(Direction::Serverbound) == step_handlers(client_protocol == 2168, server_protocol == 2168, loops, shape, scores).1,
        t.cancels(Direction::Clientbound) == step_cancels(client_protocol == 2168, shape).0,
        t.cancels(Direction::Serverbound) == step_cancels(client_protocol == 2168, shape).1,
{
    let cb = client_protocol == 2168;
    let sb = server_protocol == 2168;
    let clientbound_drops = [packet_ids::PLAYER_SKIN, packet_ids::MAP_DATA, packet_ids::PLAYER_LOCATION];
    let serverbound_drops = [packet_ids::PLAYER_SKIN];
    let step = Translator::new(name, server_protocol, client_protocol)
        .clientbound(packet_ids::RESOURCE_PACKS_INFO, Handler::ResourcePacksInfo(cb))
        .clientbound(packet_ids::LEVEL_CHUNK, Handler::FullChunkData(cb))
        .clientbound(packet_ids::MOVE_ACTOR_DELTA, Handler::MoveDeltaActor(cb))
        .clientbound(packet_ids::MOVE_PLAYER, Handler::MovePlayer(cb))
        .clientbound(packet_ids::PLAY_SOUND, Handler::PlaySoundLoops(cb, loops))
        .clientbound(packet_ids::TRANSFER, Handler::Transfer(cb))
        .clientbound(packet_ids::DIMENSION_DATA, Handler::DimensionData(cb))
        .clientbound(packet_ids::STRUCTURE_BLOCK_UPDATE, Handler::StructureBlockUpdate(cb))
        .clientbound(packet_ids::PLAYER_LIST, Handler::PlayerList(cb))
        .clientbound(packet_ids::ITEM_STACK_RESPONSE, Handler::ItemStackResponse(cb))
        .clientbound(packet_ids::INVENTORY_TRANSACTION, Handler::InventoryTransaction)
        .serverbound(packet_ids::INVENTORY_TRANSACTION, Handler::InventoryTransaction)
        .serverbound(packet_ids::MOVE_PLAYER, Handler::MovePlayer(sb))
        .serverbound(packet_ids::RESOURCE_PACK_CLIENT_RESPONSE, Handler::ResourcePackClientResponse(sb))
        .serverbound(packet_ids::STRUCTURE_BLOCK_UPDATE, Handler::StructureBlockUpdate(sb))
        .serverbound(packet_ids::PLAYER_AUTH_INPUT, Handler::PlayerAuthInput(sb))
        .serverbound(packet_ids::ANVIL_DAMAGE, Handler::AnvilDamage(sb))
        .serverbound(packet_ids::SERVERBOUND_DIAGNOSTICS, Handler::ServerboundDiagnostics(sb))
        .cancel_all(Direction::Clientbound, &clientbound_drops)
        .cancel_all(Direction::Serverbound, &serverbound_drops);
    proof {
        assert(clientbound_drops@.to_set() =~= set![packet_ids::PLAYER_SKIN, packet_ids::MAP_DATA, packet_ids::PLAYER_LOCATION]) by {
            assert(clientbound_drops@[0] == packet_ids::PLAYER_SKIN);
            assert(clientbound_drops@[1] == packet_ids::MAP_DATA);
            assert(clientbound_drops@[2] == packet_ids::PLAYER_LOCATION);
        }
        assert(serverbound_drops@.to_set() =~= set![packet_ids::PLAYER_SKIN]) by {
            assert(serverbound_drops@[0] == packet_ids::PLAYER_SKIN);
        }
    }
    assert(step.cancels(Direction::Serverbound) =~= step_cancels(cb, shape).1);
    let step = if cb { step } else { step.cancel(Direction::Clientbound, packet_ids::SERVER_PLAYER_POST_MOVE_POSITION) };
    let step = match shape {
        Some(s) => step.clientbound(packet_ids::SUB_CHUNK, Handler::SubChunk(cb, s)),
        None => step.cancel(Direction::Clientbound, packet_ids::SUB_CHUNK),
    };
    let step = step.clientbound(packet_ids::SET_SCORE, Handler::SetScore(cb, false, scores)).clientbound(
        packet_ids::SET_SCOREBOARD_IDENTITY,
        Handler::SetScore(cb, true, scores),
    );
    assert(step.cancels(Direction::Clientbound) =~= step_cancels(cb, shape).0);
    assert(step.handlers(Direction::Clientbound) =~= step_handlers(cb, sb, loops, shape, scores).0);
    assert(step.handlers(Direction::Serverbound) =~= step_handlers(cb, sb, loops, shape, scores).1);
    step
}

/// Serves a protocol 2168 client from a protocol 1001 server; sounds loop
/// `loops` times, sub-chunks are sent in `shape` (dropped when none), and
/// score packets are translated when `scores`, else dropped.
pub fn downgrade(loops: i32, shape: Option<SubChunkShape>, scores: bool) -> (t: Translator)
    ensures
        t.wf(),
        t.name@ == "v2168->v1001"@,
        t.server_protocol == 1001,
        t.client_protocol == 2168,
        t.handlers(Direction::Clientbound) == step_handlers(true, false, loops, shape, scores).0,
        t.handlers(Direction::Serverbound) == step_handlers(true, false, loops, shape, scores).1,
        t.cancels(Direction::Clientbound) == step_cancels(true, shape).0,
        t.cancels(Direction::Serverbound) == step_cancels(true, shape).1,
{
    build("v2168->v1001", 1001, 2168, loops, shape, scores)
}

/// Serves a protocol 1001 client from a protocol 2168 server.
pub fn upgrade(loops: i32, shape: Option<SubChunkShape>, scores: bool) -> (t: Translator)
    ensures
        t.wf(),
        t.name@ == "v1001->v2168"@,
        t.server_protocol == 2168,
        t.client_protocol == 1001,
        t.handlers(Direction::Clientbound) == step_handlers(false, true, loops, shape, scores).0,
        t.handlers(Direction::Serverbound) == step_handlers(false, true, loops, shape, scores).1,
        t.cancels(Direction::Clientbound) == step_cancels(false, shape).0,
        t.cancels(Direction::Serverbound) == step_cancels(false, shape).1,
{
    build("v1001->v2168", 2168, 1001, loops, shape, scores)
}

} // verus!
