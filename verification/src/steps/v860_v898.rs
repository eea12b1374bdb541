//! Protocol 860 and protocol 898: MobEffect gained an "ambient" flag,
//! Animate a trailing float, Interact a position for opening the inventory,
//! ResourcePackStack a trailing name, and the legacy telemetry event type
//! grew from one byte to a variable-length integer.
use vstd::prelude::*;
use crate::codec::{
    field_len, lemma_field_prefix, lemma_i32v_round_trip, lemma_str_round_trip, parse_bool, parse_i32v, parse_u8,
    ser_bool, ser_i32v, ser_str, ser_u8, zeros, DecodeError, Field,
};
use crate::direction::Direction;
use crate::handler::Handler;
use crate::mapping::IdShift;
use crate::packet_ids;
use crate::rewriter::{ActorEventRewriter, SoundRewriter};
use crate::translator::Translator;
use crate::wrapper::{
    copied, copied_upto, dropped, fields_len, finished, lemma_copied_upto, lemma_field_agree,
    lemma_list_agree, lemma_list_prefix, lemma_pass_fields_replay, lemma_pass_list_replay,
    lemma_pass_replay, list_len, pass, pass_fields, pass_list, put, skip, start, PacketWrapper,
    WireState,
};

verus! {

/// The fields of MobEffect before the ambient flag.
pub open spec fn mob_effect_fields() -> Seq<Field> {
    seq![
        Field::UVarInt64,
        Field::Byte,
        Field::VarInt,
        Field::VarInt,
        Field::Byte,
        Field::VarInt,
        Field::UVarInt64,
    ]
}

fn mob_effect_field_list() -> (v: Vec<Field>)
    ensures
        v@ == mob_effect_fields(),
{
    let v = vec![
        Field::UVarInt64,
        Field::Byte,
        Field::VarInt,
        Field::VarInt,
        Field::Byte,
        Field::VarInt,
        Field::UVarInt64,
    ];
    assert(v@ =~= mob_effect_fields());
    v
}

/// The fields of Animate before the trailing float.
pub open spec fn animate_fields() -> Seq<Field> {
    seq![Field::VarInt, Field::UVarInt64]
}

fn animate_field_list() -> (v: Vec<Field>)
    ensures
        v@ == animate_fields(),
{
    let v = vec![Field::VarInt, Field::UVarInt64];
    assert(v@ =~= animate_fields());
    v
}

/// MobEffect toward protocol 898: the fields are kept and the ambient flag
/// is appended as false.
pub open spec fn spec_mob_effect_add_ambient(st: WireState) -> Option<WireState> {
    match pass_fields(st, mob_effect_fields()) {
        Some(s) => Some(put(s, ser_bool(false))),
        None => None,
    }
}

/// MobEffect toward protocol 860: the ambient flag is removed.
pub open spec fn spec_mob_effect_drop_ambient(st: WireState) -> Option<WireState> {
    match pass_fields(st, mob_effect_fields()) {
        Some(s) => skip(s, Field::Byte),
        None => None,
    }
}

/// Animate toward protocol 898: a zero float is appended.
pub open spec fn spec_animate_add_data(st: WireState) -> Option<WireState> {
    match pass_fields(st, animate_fields()) {
        Some(s) => Some(put(s, zeros(4))),
        None => None,
    }
}

/// Animate toward protocol 860: the trailing float is removed.
pub open spec fn spec_animate_drop_data(st: WireState) -> Option<WireState> {
    match pass_fields(st, animate_fields()) {
        Some(s) => skip(s, Field::Fixed(4)),
        None => None,
    }
}

pub const STOP_RIDING: u8 = 3;
pub const INTERACT_UPDATE: u8 = 4;
pub const OPEN_INVENTORY: u8 = 6;

/// Interact: the action byte and the target actor are kept; the position
/// that follows an update or stop-riding action is kept; toward protocol
/// 898 an open-inventory action gains a zero position (`add`), toward 860 it
/// loses it.
pub open spec fn spec_interact(st: WireState, add: bool) -> Option<WireState> {
    match parse_u8(st.rest) {
        Some((action, n)) => match pass(copied(st, n), Field::UVarInt64) {
            Some(s) => if action == INTERACT_UPDATE || action == STOP_RIDING {
                pass(s, Field::Fixed(12))
            } else if action == OPEN_INVENTORY {
                if add { Some(put(s, zeros(12))) } else { skip(s, Field::Fixed(12)) }
            } else {
                Some(s)
            },
            None => None,
        },
        None => None,
    }
}

/// The part of ResourcePackStack before the trailing name: a flag, two
/// lists of (id, version, sub-pack) records, the game version, a list of
/// (name, enabled) experiments, and a flag.
pub open spec fn spec_resource_pack_stack_head(st: WireState) -> Option<WireState> {
    match resource_pack_stack_packs(st) {
        Some(s) => resource_pack_stack_tail(s),
        None => None,
    }
}

/// The flag and the two pack lists.
pub open spec fn resource_pack_stack_packs(st: WireState) -> Option<WireState> {
    match pass(st, Field::Byte) {
        Some(s1) => match pass_list(s1, seq![Field::Str, Field::Str, Field::Str]) {
            Some(s2) => pass_list(s2, seq![Field::Str, Field::Str, Field::Str]),
            None => None,
        },
        None => None,
    }
}

/// The game version, the experiments and the flag.
pub open spec fn resource_pack_stack_tail(st: WireState) -> Option<WireState> {
    match pass(st, Field::Str) {
        Some(s4) => match pass_list(s4, seq![Field::Str, Field::Byte]) {
            Some(s5) => pass(s5, Field::Byte),
            None => None,
        },
        None => None,
    }
}

/// ResourcePackStack toward 898: an empty name is appended.
pub open spec fn spec_resource_pack_stack_add_name(st: WireState) -> Option<WireState> {
    match spec_resource_pack_stack_head(st) {
        Some(s) => Some(put(s, ser_str(Seq::empty()))),
        None => None,
    }
}

/// ResourcePackStack toward 860: the trailing name is removed.
pub open spec fn spec_resource_pack_stack_drop_name(st: WireState) -> Option<WireState> {
    match spec_resource_pack_stack_head(st) {
        Some(s) => skip(s, Field::Str),
        None => None,
    }
}

/// The legacy telemetry event toward 860: the one-byte signed event type
/// becomes a variable-length integer.
pub open spec fn spec_telemetry_widen_type(st: WireState) -> Option<WireState> {
    match pass(st, Field::VarInt64) {
        Some(s) => match parse_u8(s.rest) {
            Some((b, n)) => Some(put(dropped(s, n), ser_i32v((b as i8) as i32))),
            None => None,
        },
        None => None,
    }
}

/// The legacy telemetry event toward 898: the variable-length event type
/// is narrowed to one byte.
pub open spec fn spec_telemetry_narrow_type(st: WireState) -> Option<WireState> {
    match pass(st, Field::VarInt64) {
        Some(s) => match parse_i32v(s.rest) {
            Some((v, n)) => Some(put(dropped(s, n), ser_u8((v as i8) as u8))),
            None => None,
        },
        None => None,
    }
}

pub fn mob_effect_add_ambient(w: &mut PacketWrapper) -> (r: Result<(), DecodeError>)
    requires
        old(w).wf(),
    ensures
        final(w).wf(),
        match spec_mob_effect_add_ambient(old(w)@) {
            Some(st) => r is Ok && final(w)@ == st,
            None => r is Err,
        },
{
    let fs = mob_effect_field_list();
    assert(fs@.skip(0) =~= fs@);
    w.passthrough_fields(fs.as_slice(), 0)?;
    w.write_bool(false);
    Ok(())
}

pub fn mob_effect_drop_ambient(w: &mut PacketWrapper) -> (r: Result<(), DecodeError>)
    requires
        old(w).wf(),
    ensures
        final(w).wf(),
        match spec_mob_effect_drop_ambient(old(w)@) {
            Some(st) => r is Ok && final(w)@ == st,
            None => r is Err,
        },
{
    let fs = mob_effect_field_list();
    assert(fs@.skip(0) =~= fs@);
    w.passthrough_fields(fs.as_slice(), 0)?;
    w.skip(Field::Byte)?;
    Ok(())
}

pub fn animate_add_data(w: &mut PacketWrapper) -> (r: Result<(), DecodeError>)
    requires
        old(w).wf(),
    ensures
        final(w).wf(),
        match spec_animate_add_data(old(w)@) {
            Some(st) => r is Ok && final(w)@ == st,
            None => r is Err,
        },
{
    let fs = animate_field_list();
    assert(fs@.skip(0) =~= fs@);
    w.passthrough_fields(fs.as_slice(), 0)?;
    w.write_zeros(4);
    Ok(())
}

pub fn animate_drop_data(w: &mut PacketWrapper) -> (r: Result<(), DecodeError>)
    requires
        old(w).wf(),
    ensures
        final(w).wf(),
        match spec_animate_drop_data(old(w)@) {
            Some(st) => r is Ok && final(w)@ == st,
            None => r is Err,
        },
{
    let fs = animate_field_list();
    assert(fs@.skip(0) =~= fs@);
    w.passthrough_fields(fs.as_slice(), 0)?;
    w.skip(Field::Fixed(4))?;
    Ok(())
}

fn interact(w: &mut PacketWrapper, add: bool) -> (r: Result<(), DecodeError>)
    requires
        old(w).wf(),
    ensures
        final(w).wf(),
        match spec_interact(old(w)@, add) {
            Some(st) => r is Ok && final(w)@ == st,
            None => r is Err,
        },
{
    let action = w.pass_u8()?;
    w.passthrough(Field::UVarInt64)?;
    if action == INTERACT_UPDATE || action == STOP_RIDING {
        w.passthrough(Field::Fixed(12))?;
    } else if action == OPEN_INVENTORY {
        if add {
            w.write_zeros(12);
        } else {
            w.skip(Field::Fixed(12))?;
        }
    }
    Ok(())
}

pub fn interact_add_position(w: &mut PacketWrapper) -> (r: Result<(), DecodeError>)
    requires
        old(w).wf(),
    ensures
        final(w).wf(),
        match spec_interact(old(w)@, true) {
            Some(st) => r is Ok && final(w)@ == st,
            None => r is Err,
        },
{
    interact(w, true)
}

pub fn interact_drop_position(w: &mut PacketWrapper) -> (r: Result<(), DecodeError>)
    requires
        old(w).wf(),
    ensures
        final(w).wf(),
        match spec_interact(old(w)@, false) {
            Some(st) => r is Ok && final(w)@ == st,
            None => r is Err,
        },
{
    interact(w, false)
}

fn resource_pack_stack_head(w: &mut PacketWrapper) -> (r: Result<(), DecodeError>)
    requires
        old(w).wf(),
    ensures
        final(w).wf(),
        match spec_resource_pack_stack_head(old(w)@) {
            Some(st) => r is Ok && final(w)@ == st,
            None => r is Err,
        },
{
    let packs = vec![Field::Str, Field::Str, Field::Str];
    let experiments = vec![Field::Str, Field::Byte];
    assert(packs@ =~= seq![Field::Str, Field::Str, Field::Str]);
    assert(experiments@ =~= seq![Field::Str, Field::Byte]);
    w.passthrough(Field::Byte)?;
    w.passthrough_list(packs.as_slice())?;
    w.passthrough_list(packs.as_slice())?;
    w.passthrough(Field::Str)?;
    w.passthrough_list(experiments.as_slice())?;
    w.passthrough(Field::Byte)?;
    Ok(())
}

pub fn resource_pack_stack_add_name(w: &mut PacketWrapper) -> (r: Result<(), DecodeError>)
    requires
        old(w).wf(),
    ensures
        final(w).wf(),
        match spec_resource_pack_stack_add_name(old(w)@) {
            Some(st) => r is Ok && final(w)@ == st,
            None => r is Err,
        },
{
    resource_pack_stack_head(w)?;
    w.write_u32v(0);
    assert(ser_str(Seq::<u8>::empty()) =~= crate::codec::ser_u32v(0));
    Ok(())
}

pub fn resource_pack_stack_drop_name(w: &mut PacketWrapper) -> (r: Result<(), DecodeError>)
    requires
        old(w).wf(),
    ensures
        final(w).wf(),
        match spec_resource_pack_stack_drop_name(old(w)@) {
            Some(st) => r is Ok && final(w)@ == st,
            None => r is Err,
        },
{
    resource_pack_stack_head(w)?;
    w.skip(Field::Str)?;
    Ok(())
}

pub fn telemetry_widen_type(w: &mut PacketWrapper) -> (r: Result<(), DecodeError>)
    requires
        old(w).wf(),
    ensures
        final(w).wf(),
        match spec_telemetry_widen_type(old(w)@) {
            Some(st) => r is Ok && final(w)@ == st,
            None => r is Err,
        },
{
    w.passthrough(Field::VarInt64)?;
    let b = w.read_u8()?;
    w.write_i32v((b as i8) as i32);
    Ok(())
}

pub fn telemetry_narrow_type(w: &mut PacketWrapper) -> (r: Result<(), DecodeError>)
    requires
        old(w).wf(),
    ensures
        final(w).wf(),
        match spec_telemetry_narrow_type(old(w)@) {
            Some(st) => r is Ok && final(w)@ == st,
            None => r is Err,
        },
{
    w.passthrough(Field::VarInt64)?;
    let v = w.read_i32v()?;
    w.write_u8((v as i8) as u8);
    Ok(())
}

// ---------------------------------------------------------------------------
// Laws: each field this step adds is removed again by the reverse rewrite.

/// Adding the ambient flag to a MobEffect and removing it again gives back
/// the packet.
pub proof fn law_mob_effect_round_trip(x: Seq<u8>)
    ensures
        spec_mob_effect_add_ambient(start(x)) matches Some(a) ==> spec_mob_effect_drop_ambient(
            start(finished(a)),
        ) matches Some(b) && finished(b) == x,
{
    if let Some(a) = spec_mob_effect_add_ambient(start(x)) {
        let fs = mob_effect_fields();
        let n = fields_len(fs, x).unwrap();
        let t = ser_bool(false) + x.skip(n as int);
        lemma_pass_fields_replay(fs, x, t, Seq::empty(), false);
        assert(finished(a) =~= x.take(n as int) + t);
        let o = Seq::<u8>::empty() + x.take(n as int);
        lemma_pass_replay(Field::Byte, ser_bool(false), x.skip(n as int), o, false);
        assert(ser_bool(false).take(1) =~= ser_bool(false));
        let b = spec_mob_effect_drop_ambient(start(finished(a))).unwrap();
        assert(finished(b) =~= x);
    }
}

/// Adding the trailing float to an Animate and removing it again gives back
/// the packet.
pub proof fn law_animate_round_trip(x: Seq<u8>)
    ensures
        spec_animate_add_data(start(x)) matches Some(a) ==> spec_animate_drop_data(start(finished(a)))
            matches Some(b) && finished(b) == x,
{
    if let Some(a) = spec_animate_add_data(start(x)) {
        let fs = animate_fields();
        let n = fields_len(fs, x).unwrap();
        let t = zeros(4) + x.skip(n as int);
        lemma_pass_fields_replay(fs, x, t, Seq::empty(), false);
        assert(finished(a) =~= x.take(n as int) + t);
        let o = Seq::<u8>::empty() + x.take(n as int);
        lemma_pass_replay(Field::Fixed(4), zeros(4), x.skip(n as int), o, false);
        assert(zeros(4).take(4) =~= zeros(4));
        let b = spec_animate_drop_data(start(finished(a))).unwrap();
        assert(finished(b) =~= x);
    }
}

/// Adding the position to an Interact and removing it again gives back the
/// packet, whatever its action.
pub proof fn law_interact_round_trip(x: Seq<u8>)
    ensures
        spec_interact(start(x), true) matches Some(a) ==> spec_interact(start(finished(a)), false)
            matches Some(b) && finished(b) == x,
{
    if let Some(a) = spec_interact(start(x), true) {
        let action = x[0];
        let s1 = copied(start(x), 1);
        let m = field_len(Field::UVarInt64, s1.rest).unwrap();
        let x1 = x.skip(1);
        assert(s1.rest =~= x1);
        lemma_field_prefix(Field::UVarInt64, x1, Seq::empty());
        let head = x.take((1 + m) as int);
        assert(head =~= x.take(1) + x1.take(m as int));
        if action == INTERACT_UPDATE || action == STOP_RIDING {
            let x2 = x1.skip(m as int);
            let k = field_len(Field::Fixed(12), x2).unwrap();
            assert(a.out =~= x.take(1) + x1.take(m as int) + x2.take(12));
            assert(a.rest =~= x2.skip(12));
            assert(finished(a) =~= x);
            lemma_pass_replay(Field::UVarInt64, x1, x2, x.take(1), false);
            assert(x1.take(m as int) + x2 =~= x1);
            assert(x.take(1) + x1 =~= x);
            let b = spec_interact(start(finished(a)), false).unwrap();
            assert(finished(b) =~= x);
        } else {
            let x2 = x1.skip(m as int);
            let t = if action == OPEN_INVENTORY { zeros(12) + x2 } else { x2 };
            let y = finished(a);
            assert(y =~= x.take(1) + (x1.take(m as int) + t));
            assert(y[0] == action);
            assert(y.skip(1) =~= x1.take(m as int) + t);
            assert(y.take(1) =~= x.take(1));
            lemma_pass_replay(Field::UVarInt64, x1, t, x.take(1), false);
            if action == OPEN_INVENTORY {
                lemma_pass_replay(Field::Fixed(12), zeros(12), x2, x.take(1) + x1.take(m as int), false);
                assert(zeros(12).take(12) =~= zeros(12));
            }
            let b = spec_interact(start(y), false).unwrap();
            assert(x.take(1) + x1.take(m as int) + x2 =~= x);
            assert(finished(b) =~= x);
        }
    }
}

/// Where the fields of a ResourcePackStack head end, one after the other.
pub open spec fn resource_pack_stack_offsets(x: Seq<u8>) -> Seq<int> {
    let packs = seq![Field::Str, Field::Str, Field::Str];
    let exps = seq![Field::Str, Field::Byte];
    let k1 = field_len(Field::Byte, x).unwrap() as int;
    let k2 = k1 + list_len(packs, x.skip(k1)).unwrap();
    let k3 = k2 + list_len(packs, x.skip(k2)).unwrap();
    let k4 = k3 + field_len(Field::Str, x.skip(k3)).unwrap();
    let k5 = k4 + list_len(exps, x.skip(k4)).unwrap();
    let k6 = k5 + field_len(Field::Byte, x.skip(k5)).unwrap();
    seq![k1, k2, k3, k4, k5, k6]
}

/// The head of a ResourcePackStack copies a prefix of the input.
#[verifier::rlimit(40)]
proof fn lemma_resource_pack_stack_head_copies(x: Seq<u8>)
    requires
        spec_resource_pack_stack_head(start(x)) is Some,
    ensures
        ({
            let k = resource_pack_stack_offsets(x);
            &&& 0 <= k[0] <= k[1] <= k[2] <= k[3] <= k[4] <= k[5] <= x.len()
            &&& spec_resource_pack_stack_head(start(x)) == Some(copied_upto(x, k[5]))
            &&& field_len(Field::Byte, x.skip(0)) is Some
            &&& list_len(seq![Field::Str, Field::Str, Field::Str], x.skip(k[0])) is Some
            &&& list_len(seq![Field::Str, Field::Str, Field::Str], x.skip(k[1])) is Some
            &&& field_len(Field::Str, x.skip(k[2])) is Some
            &&& list_len(seq![Field::Str, Field::Byte], x.skip(k[3])) is Some
            &&& field_len(Field::Byte, x.skip(k[4])) is Some
        }),
{
    let packs = seq![Field::Str, Field::Str, Field::Str];
    let exps = seq![Field::Str, Field::Byte];
    let k = resource_pack_stack_offsets(x);
    lemma_copied_upto(x, 0, 0);
    assert(x.skip(0) =~= x);
    lemma_field_prefix(Field::Byte, x, Seq::empty());
    lemma_copied_upto(x, 0, k[0] as nat);
    lemma_list_prefix(packs, x.skip(k[0]), Seq::empty());
    lemma_copied_upto(x, k[0], (k[1] - k[0]) as nat);
    lemma_list_prefix(packs, x.skip(k[1]), Seq::empty());
    lemma_copied_upto(x, k[1], (k[2] - k[1]) as nat);
    lemma_field_prefix(Field::Str, x.skip(k[2]), Seq::empty());
    lemma_copied_upto(x, k[2], (k[3] - k[2]) as nat);
    lemma_list_prefix(exps, x.skip(k[3]), Seq::empty());
    lemma_copied_upto(x, k[3], (k[4] - k[3]) as nat);
    lemma_field_prefix(Field::Byte, x.skip(k[4]), Seq::empty());
    lemma_copied_upto(x, k[4], (k[5] - k[4]) as nat);
}

proof fn lemma_take_agree(x: Seq<u8>, y: Seq<u8>, n: int, j: int)
    requires
        0 <= j <= n <= x.len(),
        n <= y.len(),
        y.take(n) == x.take(n),
    ensures
        y.take(j) == x.take(j),
{
    assert(y.take(j) =~= y.take(n).take(j));
    assert(x.take(j) =~= x.take(n).take(j));
}

/// The head of a ResourcePackStack is copied the same from any input that
/// starts with the bytes it copied.
#[verifier::rlimit(40)]
proof fn lemma_resource_pack_stack_head_replay(x: Seq<u8>, y: Seq<u8>)
    requires
        spec_resource_pack_stack_head(start(x)) is Some,
        resource_pack_stack_offsets(x)[5] <= y.len(),
        y.take(resource_pack_stack_offsets(x)[5]) == x.take(resource_pack_stack_offsets(x)[5]),
    ensures
        spec_resource_pack_stack_head(start(y)) == Some(copied_upto(y, resource_pack_stack_offsets(x)[5])),
{
    let packs = seq![Field::Str, Field::Str, Field::Str];
    let exps = seq![Field::Str, Field::Byte];
    lemma_resource_pack_stack_head_copies(x);
    let k = resource_pack_stack_offsets(x);
    let n = k[5];
    lemma_take_agree(x, y, n, k[0]);
    lemma_take_agree(x, y, n, k[1]);
    lemma_take_agree(x, y, n, k[2]);
    lemma_take_agree(x, y, n, k[3]);
    lemma_take_agree(x, y, n, k[4]);
    assert(x.skip(0) =~= x);
    assert(y.skip(0) =~= y);
    lemma_copied_upto(y, 0, 0);
    lemma_field_agree(Field::Byte, x, y, 0);
    lemma_copied_upto(y, 0, k[0] as nat);
    lemma_list_agree(packs, x, y, k[0]);
    lemma_copied_upto(y, k[0], (k[1] - k[0]) as nat);
    lemma_list_agree(packs, x, y, k[1]);
    lemma_copied_upto(y, k[1], (k[2] - k[1]) as nat);
    assert(resource_pack_stack_packs(start(y)) == Some(copied_upto(y, k[2])));
    lemma_field_agree(Field::Str, x, y, k[2]);
    lemma_copied_upto(y, k[2], (k[3] - k[2]) as nat);
    lemma_list_agree(exps, x, y, k[3]);
    lemma_copied_upto(y, k[3], (k[4] - k[3]) as nat);
    lemma_field_agree(Field::Byte, x, y, k[4]);
    lemma_copied_upto(y, k[4], (k[5] - k[4]) as nat);
    assert(resource_pack_stack_tail(copied_upto(y, k[2])) == Some(copied_upto(y, k[5])));
}

/// Adding the trailing name to a ResourcePackStack and removing it again
/// gives back the packet.
pub proof fn law_resource_pack_stack_round_trip(x: Seq<u8>)
    ensures
        spec_resource_pack_stack_add_name(start(x)) matches Some(a)
            ==> spec_resource_pack_stack_drop_name(start(finished(a))) matches Some(b) && finished(b)
            == x,
{
    if let Some(a) = spec_resource_pack_stack_add_name(start(x)) {
        lemma_resource_pack_stack_head_copies(x);
        let n = resource_pack_stack_offsets(x)[5];
        let name = ser_str(Seq::empty());
        let y = finished(a);
        assert(y =~= x.take(n) + name + x.skip(n));
        assert(y.take(n) =~= x.take(n));
        lemma_resource_pack_stack_head_replay(x, y);
        let hy = copied_upto(y, n);
        assert(hy.rest =~= name + x.skip(n));
        lemma_str_round_trip(Seq::empty(), x.skip(n));
        let b = spec_resource_pack_stack_drop_name(start(y)).unwrap();
        assert(b.rest =~= x.skip(n));
        assert(finished(b) =~= x);
    }
}

/// Widening the telemetry event type and narrowing it again gives back the
/// packet, negative types included.
pub proof fn law_telemetry_round_trip(x: Seq<u8>)
    ensures
        spec_telemetry_widen_type(start(x)) matches Some(a) ==> spec_telemetry_narrow_type(
            start(finished(a)),
        ) matches Some(b) && finished(b) == x,
{
    if let Some(a) = spec_telemetry_widen_type(start(x)) {
        let m = field_len(Field::VarInt64, x).unwrap();
        let x1 = x.skip(m as int);
        let byte = x1[0];
        let v = (byte as i8) as i32;
        let t = ser_i32v(v) + x1.skip(1);
        lemma_pass_replay(Field::VarInt64, x, t, Seq::empty(), false);
        assert(finished(a) =~= x.take(m as int) + t);
        lemma_i32v_round_trip(v, x1.skip(1));
        assert(((v as i8) as u8) == byte) by (bit_vector)
            requires
                v == (byte as i8) as i32,
        ;
        let b = spec_telemetry_narrow_type(start(finished(a))).unwrap();
        assert(finished(b) =~= x.take(m as int) + seq![byte] + x1.skip(1));
        assert(x1 =~= seq![byte] + x1.skip(1));
        assert(finished(b) =~= x);
    }
}

// ---------------------------------------------------------------------------
// The steps.

/// The sounds inserted in protocol 898.
pub open spec fn sound() -> IdShift {
    IdShift { insert_at: 566, count: 12 }
}

/// The actor event inserted in protocol 898.
pub open spec fn actor_event() -> IdShift {
    IdShift { insert_at: 80, count: 1 }
}

/// The actor data key of the heartbeat sound.
pub const HEARTBEAT_KEY: u32 = 126;

/// The handlers of a step between 860 and 898: `to_newer` tells the rewrites
/// of packets going to the protocol 898 side.
pub open spec fn step_handlers(to_newer_clientbound: bool) -> (Map<u16, Handler>, Map<u16, Handler>) {
    let snd = crate::rewriter::SoundRewriter {
        shift: sound(),
        client_is_newer: to_newer_clientbound,
        sound_key: HEARTBEAT_KEY,
        dropped_keys: crate::rewriter::no_keys(),
        skip_level_sound_event: false,
        item_encoding_changed: false,
    };
    let act = ActorEventRewriter { shift: actor_event(), client_is_newer: to_newer_clientbound };
    let cb = if to_newer_clientbound {
        map![
            packet_ids::MOB_EFFECT => Handler::MobEffectAddAmbient,
            packet_ids::ANIMATE => Handler::AnimateAddData,
            packet_ids::RESOURCE_PACK_STACK => Handler::ResourcePackStackAddName,
            packet_ids::LEGACY_TELEMETRY_EVENT => Handler::TelemetryWidenType,
        ]
    } else {
        map![
            packet_ids::MOB_EFFECT => Handler::MobEffectDropAmbient,
            packet_ids::ANIMATE => Handler::AnimateDropData,
            packet_ids::RESOURCE_PACK_STACK => Handler::ResourcePackStackDropName,
            packet_ids::LEGACY_TELEMETRY_EVENT => Handler::TelemetryNarrowType,
        ]
    };
    let sb = if to_newer_clientbound {
        map![
            packet_ids::MOB_EFFECT => Handler::MobEffectDropAmbient,
            packet_ids::ANIMATE => Handler::AnimateDropData,
            packet_ids::INTERACT => Handler::InteractDropPosition,
        ]
    } else {
        map![
            packet_ids::MOB_EFFECT => Handler::MobEffectAddAmbient,
            packet_ids::ANIMATE => Handler::AnimateAddData,
            packet_ids::INTERACT => Handler::InteractAddPosition,
        ]
    };
    (
        cb.insert(packet_ids::LEVEL_SOUND_EVENT, Handler::LevelSoundEvent(snd, Direction::Clientbound))
            .insert(packet_ids::ACTOR_EVENT, Handler::ActorEvent(act, Direction::Clientbound)),
        sb.insert(packet_ids::LEVEL_SOUND_EVENT, Handler::LevelSoundEvent(snd, Direction::Serverbound)),
    )
}

fn make(name: &'static str, server: u32, client: u32, to_newer_clientbound: bool) -> (t: Translator)
    ensures
        t.wf(),
        t.name == name,
        t.server_protocol == server,
        t.client_protocol == client,
        t.handlers(Direction::Clientbound) == step_handlers(to_newer_clientbound).0,
        t.handlers(Direction::Serverbound) == step_handlers(to_newer_clientbound).1,
        forall|d: Direction| #[trigger] t.cancels(d) == Set::<u16>::empty(),
{
    let step = Translator::new(name, server, client);
    let step = if to_newer_clientbound {
        step.clientbound(packet_ids::MOB_EFFECT, Handler::MobEffectAddAmbient)
            .clientbound(packet_ids::ANIMATE, Handler::AnimateAddData)
            .clientbound(packet_ids::RESOURCE_PACK_STACK, Handler::ResourcePackStackAddName)
            .clientbound(packet_ids::LEGACY_TELEMETRY_EVENT, Handler::TelemetryWidenType)
            .serverbound(packet_ids::MOB_EFFECT, Handler::MobEffectDropAmbient)
            .serverbound(packet_ids::ANIMATE, Handler::AnimateDropData)
            .serverbound(packet_ids::INTERACT, Handler::InteractDropPosition)
    } else {
        step.clientbound(packet_ids::MOB_EFFECT, Handler::MobEffectDropAmbient)
            .clientbound(packet_ids::ANIMATE, Handler::AnimateDropData)
            .clientbound(packet_ids::RESOURCE_PACK_STACK, Handler::ResourcePackStackDropName)
            .clientbound(packet_ids::LEGACY_TELEMETRY_EVENT, Handler::TelemetryNarrowType)
            .serverbound(packet_ids::MOB_EFFECT, Handler::MobEffectAddAmbient)
            .serverbound(packet_ids::ANIMATE, Handler::AnimateAddData)
            .serverbound(packet_ids::INTERACT, Handler::InteractAddPosition)
    };
    let step = SoundRewriter::new(IdShift::inserted(12, 566), to_newer_clientbound, HEARTBEAT_KEY).register(step);
    let step = ActorEventRewriter::new(IdShift::inserted(1, 80), to_newer_clientbound).register(step);
    assert(step.handlers(Direction::Clientbound) =~= step_handlers(to_newer_clientbound).0);
    assert(step.handlers(Direction::Serverbound) =~= step_handlers(to_newer_clientbound).1);
    step
}

/// Serves a protocol 898 client from a protocol 860 server.
pub fn downgrade() -> (t: Translator)
    ensures
        t.wf(),
        t.name@ == "v898->v860"@,
        t.server_protocol == 860,
        t.client_protocol == 898,
        t.handlers(Direction::Clientbound) == step_handlers(true).0,
        t.handlers(Direction::Serverbound) == step_handlers(true).1,
        forall|d: Direction| #[trigger] t.cancels(d) == Set::<u16>::empty(),
{
    make("v898->v860", 860, 898, true)
}

/// Serves a protocol 860 client from a protocol 898 server.
pub fn upgrade() -> (t: Translator)
    ensures
        t.wf(),
        t.name@ == "v860->v898"@,
        t.server_protocol == 898,
        t.client_protocol == 860,
        t.handlers(Direction::Clientbound) == step_handlers(false).0,
        t.handlers(Direction::Serverbound) == step_handlers(false).1,
        forall|d: Direction| #[trigger] t.cancels(d) == Set::<u16>::empty(),
{
    make("v860->v898", 898, 860, false)
}

} // verus!
