//! One action of an ItemStackRequest between protocols 1001 and 2168.
//! Protocol 2168 writes each action as a variant number followed by the
//! action's id byte, numbers slots' stack ids as four little-endian bytes
//! rather than a zig-zag integer, and names the items of a crafting result
//! where protocol 1001 gives their network ids. An action the older side
//! cannot carry out blocks the request.
use vstd::prelude::*;
use crate::codec::{
    le32, parse_bool, parse_i32v, parse_u32v, parse_u8, ser_bool, ser_i32v, ser_str, ser_u32v, ser_u8, take_fixed,
    take_str, two32, DecodeError, Field,
};
use crate::steps::player_list_v2168::bytes_eq;
use crate::steps::sub_chunk::{coordinate, spec_coordinate};
use crate::wrapper::{cut_back, dropped, pass, put, PacketWrapper, WireState};

verus! {

pub const ACTION_PLACE_IN_CONTAINER: u32 = 7;
pub const ACTION_TAKE_OUT_CONTAINER: u32 = 8;
pub const ACTION_CRAFT_RECIPE_AUTO: u32 = 13;
pub const ACTION_MAX: u32 = 19;

pub const DESCRIPTOR_INVALID: u32 = 0;
pub const DESCRIPTOR_DEFAULT: u32 = 1;

/// What became of an action.
#[derive(Debug, Clone, Copy, PartialEq, Eq)]
pub enum ActionOutcome {
    /// The action was written in the other protocol's form.
    Written,
    /// The action cannot be carried out on the other side; the request it
    /// belongs to is held back.
    Blocked,
}

/// The protocol-2168 variant of action `id`: the two container actions
/// that protocol 2168 no longer has leave a gap.
pub open spec fn spec_action_variant(id: u32) -> u32 {
    if id > ACTION_TAKE_OUT_CONTAINER { (id - 2) as u32 } else { id }
}

/// The action id of protocol-2168 variant `variant`.
pub open spec fn spec_action_id(variant: u32) -> u32 {
    if variant >= ACTION_PLACE_IN_CONTAINER { (variant + 2) as u32 } else { variant }
}

/// The protocol-2168 variant of action `id`.
pub fn action_variant(id: u32) -> (v: u32)
    ensures
        v == spec_action_variant(id),
{
    if id > ACTION_TAKE_OUT_CONTAINER { id - 2 } else { id }
}

/// The action id of protocol-2168 variant `variant`.
pub fn action_id(variant: u32) -> (id: u32)
    requires
        variant <= u32::MAX - 2,
    ensures
        id == spec_action_id(variant),
{
    if variant >= ACTION_PLACE_IN_CONTAINER { variant + 2 } else { variant }
}

/// Every action but the two container actions that protocol 2168 dropped
/// comes back from its protocol-2168 variant, and no variant stands for
/// either of those two.
pub proof fn law_action_variant_round_trip(id: u32, variant: u32)
    requires
        id != ACTION_PLACE_IN_CONTAINER,
        id != ACTION_TAKE_OUT_CONTAINER,
        variant <= u32::MAX - 2,
    ensures
        spec_action_id(spec_action_variant(id)) == id,
        spec_action_id(variant) != ACTION_PLACE_IN_CONTAINER,
        spec_action_id(variant) != ACTION_TAKE_OUT_CONTAINER,
{
}

// ---------------------------------------------------------------------------
// Fields read and written again.

/// A boolean read and written as 0 or 1.
pub open spec fn spec_copy_bool(st: WireState) -> Option<WireState> {
    match parse_bool(st.rest) {
        Some((b, n)) => Some(put(dropped(st, n), ser_bool(b))),
        None => None,
    }
}

/// A zig-zag integer read and written in its shortest form.
pub open spec fn spec_copy_i32v(st: WireState) -> Option<WireState> {
    match parse_i32v(st.rest) {
        Some((v, n)) => Some(put(dropped(st, n), ser_i32v(v))),
        None => None,
    }
}

/// An unsigned variable-length integer read and written in its shortest
/// form.
pub open spec fn spec_copy_u32v(st: WireState) -> Option<WireState> {
    match parse_u32v(st.rest) {
        Some((v, n)) => Some(put(dropped(st, n), ser_u32v(v))),
        None => None,
    }
}

/// A string read and written with its length in shortest form.
pub open spec fn spec_copy_str(st: WireState) -> Option<WireState> {
    match take_str(st.rest) {
        Some((p, r)) => Some(put(WireState { rest: r, ..st }, ser_str(p))),
        None => None,
    }
}

fn copy_bool(w: &mut PacketWrapper) -> (r: Result<(), DecodeError>)
    requires
        old(w).wf(),
    ensures
        final(w).wf(),
        match spec_copy_bool(old(w)@) {
            Some(st) => r is Ok && final(w)@ == st,
            None => r is Err,
        },
{
    let b = w.read_bool()?;
    w.write_bool(b);
    Ok(())
}

fn copy_i32v(w: &mut PacketWrapper) -> (r: Result<(), DecodeError>)
    requires
        old(w).wf(),
    ensures
        final(w).wf(),
        match spec_copy_i32v(old(w)@) {
            Some(st) => r is Ok && final(w)@ == st,
            None => r is Err,
        },
{
    let v = w.read_i32v()?;
    w.write_i32v(v);
    Ok(())
}

fn copy_u32v(w: &mut PacketWrapper) -> (r: Result<(), DecodeError>)
    requires
        old(w).wf(),
    ensures
        final(w).wf(),
        match spec_copy_u32v(old(w)@) {
            Some(st) => r is Ok && final(w)@ == st,
            None => r is Err,
        },
{
    let v = w.read_u32v()?;
    w.write_u32v(v);
    Ok(())
}

fn copy_str(w: &mut PacketWrapper) -> (r: Result<(), DecodeError>)
    requires
        old(w).wf(),
    ensures
        final(w).wf(),
        match spec_copy_str(old(w)@) {
            Some(st) => r is Ok && final(w)@ == st,
            None => r is Err,
        },
{
    let p = w.read_str()?;
    w.write_str(p.as_slice());
    Ok(())
}

fn pass_field(w: &mut PacketWrapper, f: Field) -> (r: Result<(), DecodeError>)
    requires
        old(w).wf(),
    ensures
        final(w).wf(),
        match pass(old(w)@, f) {
            Some(st) => r is Ok && final(w)@ == st,
            None => r is Err,
        },
{
    w.passthrough(f)
}

// ---------------------------------------------------------------------------
// Slots.

/// A container name: its id byte, then an optional four-byte dynamic id.
pub open spec fn spec_container_name(st: WireState) -> Option<WireState> {
    match pass(st, Field::Byte) {
        Some(s1) => match parse_bool(s1.rest) {
            Some((present, n)) => {
                let s2 = put(dropped(s1, n), ser_bool(present));
                if present { pass(s2, Field::Fixed(4)) } else { Some(s2) }
            },
            None => None,
        },
        None => None,
    }
}

/// A slot: its container name, slot byte and stack id, whose encoding
/// changes.
pub open spec fn spec_slot(st: WireState, to_v2168: bool) -> Option<WireState> {
    match spec_container_name(st) {
        Some(s1) => match pass(s1, Field::Byte) {
            Some(s2) => spec_coordinate(s2, to_v2168),
            None => None,
        },
        None => None,
    }
}

fn container_name(w: &mut PacketWrapper) -> (r: Result<(), DecodeError>)
    requires
        old(w).wf(),
    ensures
        final(w).wf(),
        match spec_container_name(old(w)@) {
            Some(st) => r is Ok && final(w)@ == st,
            None => r is Err,
        },
{
    pass_field(w, Field::Byte)?;
    let present = w.read_bool()?;
    w.write_bool(present);
    if present {
        pass_field(w, Field::Fixed(4))?;
    }
    Ok(())
}

fn slot(w: &mut PacketWrapper, to_v2168: bool) -> (r: Result<(), DecodeError>)
    requires
        old(w).wf(),
    ensures
        final(w).wf(),
        match spec_slot(old(w)@, to_v2168) {
            Some(st) => r is Ok && final(w)@ == st,
            None => r is Err,
        },
{
    container_name(w)?;
    pass_field(w, Field::Byte)?;
    coordinate(w, to_v2168)
}

// ---------------------------------------------------------------------------
// Crafting results.

/// A byte read off the packet, and the state after it.
pub open spec fn rd_u8(st: WireState) -> Option<(u8, WireState)> {
    match parse_u8(st.rest) {
        Some((v, n)) => Some((v, dropped(st, n))),
        None => None,
    }
}

/// An unsigned variable-length integer read off the packet.
pub open spec fn rd_u32v(st: WireState) -> Option<(u32, WireState)> {
    match parse_u32v(st.rest) {
        Some((v, n)) => Some((v, dropped(st, n))),
        None => None,
    }
}

/// A zig-zag integer read off the packet.
pub open spec fn rd_i32v(st: WireState) -> Option<(i32, WireState)> {
    match parse_i32v(st.rest) {
        Some((v, n)) => Some((v, dropped(st, n))),
        None => None,
    }
}

/// `k` raw bytes read off the packet.
pub open spec fn rd_fixed(k: nat, st: WireState) -> Option<(Seq<u8>, WireState)> {
    match take_fixed(k, st.rest) {
        Some((v, r)) => Some((v, WireState { rest: r, ..st })),
        None => None,
    }
}

/// A string read off the packet.
pub open spec fn rd_str(st: WireState) -> Option<(Seq<u8>, WireState)> {
    match take_str(st.rest) {
        Some((v, r)) => Some((v, WireState { rest: r, ..st })),
        None => None,
    }
}

/// The name `ids` gives network id `id`: its first entry for the id.
pub open spec fn name_of_id(ids: Seq<(i32, Vec<u8>)>, id: i32) -> Option<Seq<u8>>
    decreases ids.len(),
{
    if ids.len() == 0 {
        None
    } else if ids[0].0 == id {
        Some(ids[0].1@)
    } else {
        name_of_id(ids.drop_first(), id)
    }
}

/// The network id `names` gives item name `name`: its first entry for the
/// name.
pub open spec fn id_of_name(names: Seq<(Vec<u8>, i32)>, name: Seq<u8>) -> Option<i32>
    decreases names.len(),
{
    if names.len() == 0 {
        None
    } else if names[0].0@ == name {
        Some(names[0].1)
    } else {
        id_of_name(names.drop_first(), name)
    }
}

fn lookup_name(ids: &Vec<(i32, Vec<u8>)>, id: i32) -> (r: Option<&Vec<u8>>)
    ensures
        match name_of_id(ids@, id) {
            Some(n) => r matches Some(v) && v@ == n,
            None => r is None,
        },
{
    let mut i: usize = 0;
    assert(ids@.skip(0) =~= ids@);
    while i < ids.len()
        invariant
            i <= ids@.len(),
            name_of_id(ids@, id) == name_of_id(ids@.skip(i as int), id),
        decreases ids@.len() - i,
    {
        assert(ids@.skip(i as int).drop_first() =~= ids@.skip(i + 1));
        assert(ids@.skip(i as int)[0] == ids@[i as int]);
        if ids[i].0 == id {
            return Some(&ids[i].1);
        }
        i = i + 1;
    }
    assert(ids@.skip(i as int).len() == 0);
    None
}

fn lookup_id(names: &Vec<(Vec<u8>, i32)>, name: &[u8]) -> (r: Option<i32>)
    ensures
        r == id_of_name(names@, name@),
{
    let mut i: usize = 0;
    assert(names@.skip(0) =~= names@);
    while i < names.len()
        invariant
            i <= names@.len(),
            id_of_name(names@, name@) == id_of_name(names@.skip(i as int), name@),
        decreases names@.len() - i,
    {
        assert(names@.skip(i as int).drop_first() =~= names@.skip(i + 1));
        assert(names@.skip(i as int)[0] == names@[i as int]);
        if bytes_eq(names[i].0.as_slice(), name) {
            return Some(names[i].1);
        }
        i = i + 1;
    }
    assert(names@.skip(i as int).len() == 0);
    None
}

/// The empty result item as protocol 2168 writes it: an invalid
/// descriptor, no count, no runtime id, no user data.
pub open spec fn empty_item_v2168() -> Seq<u8> {
    ser_u32v(DESCRIPTOR_INVALID) + ser_u8(DESCRIPTOR_INVALID as u8) + seq![0u8, 0u8] + ser_u32v(0) + ser_u32v(0)
}

#[verifier::opaque]
/// A crafting result toward protocol 2168: a network id becomes the
/// item's name; an id `ids` does not name blocks the action (`false`).
pub open spec fn spec_result_item_up(st: WireState, ids: Seq<(i32, Vec<u8>)>) -> Option<(bool, WireState)> {
    match rd_i32v(st) {
        None => None,
        Some((nid, s1)) => if nid == 0 {
            Some((true, put(s1, empty_item_v2168())))
        } else {
            match name_of_id(ids, nid) {
                None => Some((false, s1)),
                Some(name) => match rd_fixed(2, s1) {
                    None => None,
                    Some((count, s2)) => match rd_u32v(s2) {
                        None => None,
                        Some((meta, s3)) => match rd_i32v(s3) {
                            None => None,
                            Some((brid, s4)) => match rd_u32v(s4) {
                                None => None,
                                Some((extra, s5)) => match rd_fixed(extra as nat, s5) {
                                    None => None,
                                    Some((user, s6)) => Some((true, put(s6,
                                        ser_u32v(DESCRIPTOR_DEFAULT) + ser_u8(DESCRIPTOR_DEFAULT as u8) + ser_str(name)
                                            + ser_i32v(meta as i32) + count + ser_u32v(brid as u32) + ser_u32v(extra) + user,
                                    ))),
                                },
                            },
                        },
                    },
                },
            }
        },
    }
}

#[verifier::opaque]
/// A crafting result toward protocol 1001: a named item becomes its
/// network id; a name `names` does not know, or a descriptor other than
/// the default and the invalid one, blocks the action (`false`).
pub open spec fn spec_result_item_down(st: WireState, names: Seq<(Vec<u8>, i32)>) -> Option<(bool, WireState)> {
    match rd_u32v(st) {
        None => None,
        Some((variant, s0)) => match rd_u8(s0) {
            None => None,
            Some((_, s1)) => if variant == DESCRIPTOR_DEFAULT {
                match rd_str(s1) {
                    None => None,
                    Some((name, s2)) => match rd_i32v(s2) {
                        None => None,
                        Some((meta, s3)) => match rd_fixed(2, s3) {
                            None => None,
                            Some((count, s4)) => match rd_u32v(s4) {
                                None => None,
                                Some((brid, s5)) => match rd_u32v(s5) {
                                    None => None,
                                    Some((extra, s6)) => match rd_fixed(extra as nat, s6) {
                                        None => None,
                                        Some((user, s7)) => match id_of_name(names, name) {
                                            None => Some((false, s7)),
                                            Some(nid) => if nid == 0 {
                                                Some((true, put(s7, ser_i32v(0))))
                                            } else {
                                                Some((true, put(s7,
                                                    ser_i32v(nid) + count + ser_u32v(meta as u32) + ser_i32v(brid as i32)
                                                        + ser_u32v(extra) + user,
                                                )))
                                            },
                                        },
                                    },
                                },
                            },
                        },
                    },
                }
            } else if variant != DESCRIPTOR_INVALID {
                Some((false, s1))
            } else {
                match rd_fixed(2, s1) {
                    None => None,
                    Some((_, s2)) => match rd_u32v(s2) {
                        None => None,
                        Some((_, s3)) => match rd_u32v(s3) {
                            None => None,
                            Some((extra, s4)) => match rd_fixed(extra as nat, s4) {
                                None => None,
                                Some((_, s5)) => Some((true, put(s5, ser_i32v(0)))),
                            },
                        },
                    },
                }
            },
        },
    }
}

/// A crafting result either way.
pub open spec fn spec_result_item(
    st: WireState,
    to_v2168: bool,
    names: Seq<(Vec<u8>, i32)>,
    ids: Seq<(i32, Vec<u8>)>,
) -> Option<(bool, WireState)> {
    if to_v2168 { spec_result_item_up(st, ids) } else { spec_result_item_down(st, names) }
}

/// The names `ids` holds fit a string's length prefix.
pub open spec fn names_fit(ids: Seq<(i32, Vec<u8>)>) -> bool {
    forall|i: int| 0 <= i < ids.len() ==> (#[trigger] ids[i]).1@.len() < two32()
}

proof fn lemma_found_name_fits(ids: Seq<(i32, Vec<u8>)>, id: i32)
    requires
        names_fit(ids),
    ensures
        name_of_id(ids, id) matches Some(n) ==> n.len() < two32(),
    decreases ids.len(),
{
    if ids.len() > 0 && ids[0].0 != id {
        assert forall|i: int| 0 <= i < ids.drop_first().len() implies (#[trigger] ids.drop_first()[i]).1@.len() < two32() by {
            assert(ids.drop_first()[i] == ids[i + 1]);
        }
        lemma_found_name_fits(ids.drop_first(), id);
    } else if ids.len() > 0 {
        assert(ids[0].1@.len() < two32());
    }
}

fn result_item_up(w: &mut PacketWrapper, ids: &Vec<(i32, Vec<u8>)>) -> (r: Result<bool, DecodeError>)
    requires
        old(w).wf(),
        names_fit(ids@),
    ensures
        final(w).wf(),
        match spec_result_item_up(old(w)@, ids@) {
            Some((ok, st)) => r == Ok::<bool, DecodeError>(ok) && final(w)@ == st,
            None => r is Err,
        },
{
    reveal(spec_result_item_up);
    let ghost s0 = w@;
    let nid = w.read_i32v()?;
    let ghost s1 = w@;
    if nid == 0 {
        w.write_u32v(DESCRIPTOR_INVALID);
        w.write_u8(DESCRIPTOR_INVALID as u8);
        w.write_bytes(&[0u8, 0u8]);
        w.write_u32v(0);
        w.write_u32v(0);
        assert(w@.out =~= s1.out + empty_item_v2168());
        return Ok(true);
    }
    let name = match lookup_name(ids, nid) {
        Some(n) => n,
        None => return Ok(false),
    };
    proof {
        lemma_found_name_fits(ids@, nid);
    }
    let count = w.read_fixed(2)?;
    let meta = w.read_u32v()?;
    let brid = w.read_i32v()?;
    let extra = w.read_u32v()?;
    let user = w.read_fixed(extra as usize)?;
    let ghost o = w@.out;
    w.write_u32v(DESCRIPTOR_DEFAULT);
    w.write_u8(DESCRIPTOR_DEFAULT as u8);
    w.write_str(name.as_slice());
    w.write_i32v(meta as i32);
    w.write_bytes(count.as_slice());
    w.write_u32v(brid as u32);
    w.write_u32v(extra);
    w.write_bytes(user.as_slice());
    assert(w@.out =~= o + (ser_u32v(DESCRIPTOR_DEFAULT) + ser_u8(DESCRIPTOR_DEFAULT as u8) + ser_str(name@)
        + ser_i32v(meta as i32) + count@ + ser_u32v(brid as u32) + ser_u32v(extra) + user@));
    Ok(true)
}

fn result_item_down(w: &mut PacketWrapper, names: &Vec<(Vec<u8>, i32)>) -> (r: Result<bool, DecodeError>)
    requires
        old(w).wf(),
    ensures
        final(w).wf(),
        match spec_result_item_down(old(w)@, names@) {
            Some((ok, st)) => r == Ok::<bool, DecodeError>(ok) && final(w)@ == st,
            None => r is Err,
        },
{
    reveal(spec_result_item_down);
    let variant = w.read_u32v()?;
    let _ = w.read_u8()?;
    if variant == DESCRIPTOR_DEFAULT {
        let name = w.read_str()?;
        let meta = w.read_i32v()?;
        let count = w.read_fixed(2)?;
        let brid = w.read_u32v()?;
        let extra = w.read_u32v()?;
        let user = w.read_fixed(extra as usize)?;
        let nid = match lookup_id(names, name.as_slice()) {
            Some(v) => v,
            None => return Ok(false),
        };
        if nid == 0 {
            w.write_i32v(0);
            return Ok(true);
        }
        let ghost o = w@.out;
        w.write_i32v(nid);
        w.write_bytes(count.as_slice());
        w.write_u32v(meta as u32);
        w.write_i32v(brid as i32);
        w.write_u32v(extra);
        w.write_bytes(user.as_slice());
        assert(w@.out =~= o + (ser_i32v(nid) + count@ + ser_u32v(meta as u32) + ser_i32v(brid as i32)
            + ser_u32v(extra) + user@));
        Ok(true)
    } else if variant != DESCRIPTOR_INVALID {
        Ok(false)
    } else {
        let _ = w.read_fixed(2)?;
        let _ = w.read_u32v()?;
        let extra = w.read_u32v()?;
        let _ = w.read_fixed(extra as usize)?;
        w.write_i32v(0);
        Ok(true)
    }
}

fn result_item(
    w: &mut PacketWrapper,
    to_v2168: bool,
    names: &Vec<(Vec<u8>, i32)>,
    ids: &Vec<(i32, Vec<u8>)>,
) -> (r: Result<bool, DecodeError>)
    requires
        old(w).wf(),
        names_fit(ids@),
    ensures
        final(w).wf(),
        match spec_result_item(old(w)@, to_v2168, names@, ids@) {
            Some((ok, st)) => r == Ok::<bool, DecodeError>(ok) && final(w)@ == st,
            None => r is Err,
        },
{
    if to_v2168 { result_item_up(w, ids) } else { result_item_down(w, names) }
}

/// The first `n` crafting results, in turn; the first that blocks ends the
/// list.
pub open spec fn spec_items(
    st: WireState,
    n: nat,
    to_v2168: bool,
    names: Seq<(Vec<u8>, i32)>,
    ids: Seq<(i32, Vec<u8>)>,
) -> Option<(bool, WireState)>
    decreases n,
{
    if n == 0 {
        Some((true, st))
    } else {
        match spec_items(st, (n - 1) as nat, to_v2168, names, ids) {
            Some((true, s)) => spec_result_item(s, to_v2168, names, ids),
            other => other,
        }
    }
}

proof fn lemma_items_stop(
    st: WireState,
    k: nat,
    n: nat,
    to_v2168: bool,
    names: Seq<(Vec<u8>, i32)>,
    ids: Seq<(i32, Vec<u8>)>,
)
    requires
        k <= n,
        !(spec_items(st, k, to_v2168, names, ids) matches Some((true, _))),
    ensures
        spec_items(st, n, to_v2168, names, ids) == spec_items(st, k, to_v2168, names, ids),
    decreases n,
{
    if n > k {
        lemma_items_stop(st, k, (n - 1) as nat, to_v2168, names, ids);
    }
}

fn items(
    w: &mut PacketWrapper,
    n: u32,
    to_v2168: bool,
    names: &Vec<(Vec<u8>, i32)>,
    ids: &Vec<(i32, Vec<u8>)>,
) -> (r: Result<bool, DecodeError>)
    requires
        old(w).wf(),
        names_fit(ids@),
    ensures
        final(w).wf(),
        match spec_items(old(w)@, n as nat, to_v2168, names@, ids@) {
            Some((ok, st)) => r == Ok::<bool, DecodeError>(ok) && final(w)@ == st,
            None => r is Err,
        },
{
    let ghost s0 = w@;
    let mut i: u32 = 0;
    while i < n
        invariant
            w.wf(),
            names_fit(ids@),
            i <= n,
            s0 == old(w)@,
            spec_items(s0, i as nat, to_v2168, names@, ids@) == Some((true, w@)),
        decreases n - i,
    {
        let ghost before = w@;
        let ok = result_item(w, to_v2168, names, ids);
        assert(spec_items(s0, (i + 1) as nat, to_v2168, names@, ids@) == spec_result_item(before, to_v2168, names@, ids@));
        match ok {
            Ok(true) => {},
            Ok(false) => {
                proof {
                    lemma_items_stop(s0, (i + 1) as nat, n as nat, to_v2168, names@, ids@);
                }
                return Ok(false);
            },
            Err(e) => {
                proof {
                    lemma_items_stop(s0, (i + 1) as nat, n as nat, to_v2168, names@, ids@);
                }
                return Err(e);
            },
        }
        i = i + 1;
    }
    Ok(true)
}

// ---------------------------------------------------------------------------
// Actions.

/// A field copied after what `o` left, if it left anything.
pub open spec fn then_pass(o: Option<WireState>, f: Field) -> Option<WireState> {
    match o {
        Some(s) => pass(s, f),
        None => None,
    }
}

/// A slot after what `o` left.
pub open spec fn then_slot(o: Option<WireState>, to_v2168: bool) -> Option<WireState> {
    match o {
        Some(s) => spec_slot(s, to_v2168),
        None => None,
    }
}

/// A zig-zag integer written again after what `o` left.
pub open spec fn then_copy_i32v(o: Option<WireState>) -> Option<WireState> {
    match o {
        Some(s) => spec_copy_i32v(s),
        None => None,
    }
}

/// A stack id changing encoding after what `o` left.
pub open spec fn then_coordinate(o: Option<WireState>, to_v2168: bool) -> Option<WireState> {
    match o {
        Some(s) => spec_coordinate(s, to_v2168),
        None => None,
    }
}

/// An action written as far as `o`.
pub open spec fn written(o: Option<WireState>) -> Option<(ActionOutcome, WireState)> {
    match o {
        Some(s) => Some((ActionOutcome::Written, s)),
        None => None,
    }
}

/// A recipe id: a variable-length integer in protocol 1001, four
/// little-endian bytes in protocol 2168.
pub open spec fn spec_recipe(st: WireState, to_v2168: bool) -> Option<WireState> {
    if to_v2168 {
        match rd_u32v(st) {
            Some((v, s1)) => Some(put(s1, le32(v))),
            None => None,
        }
    } else {
        match rd_fixed(4, st) {
            Some((b, s1)) => Some(put(s1, ser_u32v(crate::codec::from_le32(b)))),
            None => None,
        }
    }
}

/// The fields of action `id` after its header.
pub open spec fn spec_action_body(
    st: WireState,
    id: u32,
    to_v2168: bool,
    names: Seq<(Vec<u8>, i32)>,
    ids: Seq<(i32, Vec<u8>)>,
) -> Option<(ActionOutcome, WireState)> {
    if id == 0 || id == 1 {
        written(then_slot(then_slot(pass(st, Field::Byte), to_v2168), to_v2168))
    } else if id == 2 {
        written(then_slot(spec_slot(st, to_v2168), to_v2168))
    } else if id == 3 {
        written(match then_slot(pass(st, Field::Byte), to_v2168) {
            Some(s) => spec_copy_bool(s),
            None => None,
        })
    } else if id == 4 || id == 5 {
        written(then_slot(pass(st, Field::Byte), to_v2168))
    } else if id == 6 {
        written(pass(st, Field::Byte))
    } else if id == 9 || id == 18 {
        written(Some(st))
    } else if id == 10 {
        written(then_copy_i32v(spec_copy_i32v(st)))
    } else if id == 11 {
        written(then_coordinate(then_copy_i32v(spec_copy_i32v(st)), to_v2168))
    } else if id == 12 || id == 14 {
        written(then_pass(spec_copy_u32v(st), Field::Byte))
    } else if id == 15 {
        written(then_pass(spec_copy_u32v(st), Field::Fixed(4)))
    } else if id == 16 {
        written(then_copy_i32v(then_pass(spec_recipe(st, to_v2168), Field::Byte)))
    } else if id == 17 {
        written(then_pass(spec_copy_str(st), Field::Byte))
    } else {
        match rd_u32v(st) {
            None => None,
            Some((n, s1)) => match spec_items(put(s1, ser_u32v(n)), n as nat, to_v2168, names, ids) {
                None => None,
                Some((false, s2)) => Some((ActionOutcome::Blocked, s2)),
                Some((true, s2)) => written(pass(s2, Field::Byte)),
            },
        }
    }
}

/// The header of an action: toward protocol 2168 an id byte, toward 1001
/// a variant number and an id byte that is not read; with the action id.
/// A variant past the last action does not decode.
pub open spec fn spec_action_head(st: WireState, to_v2168: bool) -> Option<(u32, WireState)> {
    if to_v2168 {
        match rd_u8(st) {
            Some((b, s1)) => Some((b as u32, s1)),
            None => None,
        }
    } else {
        match rd_u32v(st) {
            Some((v, s1)) => match rd_u8(s1) {
                Some((_, s2)) => if v > spec_action_variant(ACTION_MAX) { None } else { Some((spec_action_id(v), s2)) },
                None => None,
            },
            None => None,
        }
    }
}

/// One ItemStackRequest action taken to the other protocol. An id past
/// the last action, or one of the container actions that protocol 2168
/// dropped, does not decode; an automatic recipe craft, or a crafting
/// result one side cannot name, blocks the request; every other action is
/// written in the other protocol's form.
pub open spec fn spec_action(
    st: WireState,
    to_v2168: bool,
    names: Seq<(Vec<u8>, i32)>,
    ids: Seq<(i32, Vec<u8>)>,
) -> Option<(ActionOutcome, WireState)> {
    match spec_action_head(st, to_v2168) {
        None => None,
        Some((id, s1)) => if id > ACTION_MAX {
            None
        } else if id == ACTION_CRAFT_RECIPE_AUTO {
            Some((ActionOutcome::Blocked, s1))
        } else if id == ACTION_PLACE_IN_CONTAINER || id == ACTION_TAKE_OUT_CONTAINER {
            None
        } else {
            let head = if to_v2168 { ser_u32v(spec_action_variant(id)) + ser_u8(id as u8) } else { ser_u8(id as u8) };
            spec_action_body(put(s1, head), id, to_v2168, names, ids)
        },
    }
}

fn recipe(w: &mut PacketWrapper, to_v2168: bool) -> (r: Result<(), DecodeError>)
    requires
        old(w).wf(),
    ensures
        final(w).wf(),
        match spec_recipe(old(w)@, to_v2168) {
            Some(st) => r is Ok && final(w)@ == st,
            None => r is Err,
        },
{
    if to_v2168 {
        let v = w.read_u32v()?;
        let b = crate::codec::le32_bytes(v);
        w.write_bytes(b.as_slice());
    } else {
        let b = w.read_fixed(4)?;
        let v = crate::codec::u32_from_le(b.as_slice());
        w.write_u32v(v);
    }
    Ok(())
}

#[verifier::rlimit(60)]
fn action_body(
    w: &mut PacketWrapper,
    id: u32,
    to_v2168: bool,
    names: &Vec<(Vec<u8>, i32)>,
    ids: &Vec<(i32, Vec<u8>)>,
) -> (r: Result<ActionOutcome, DecodeError>)
    requires
        old(w).wf(),
        names_fit(ids@),
        id <= ACTION_MAX,
        id != ACTION_PLACE_IN_CONTAINER,
        id != ACTION_TAKE_OUT_CONTAINER,
        id != ACTION_CRAFT_RECIPE_AUTO,
    ensures
        final(w).wf(),
        match spec_action_body(old(w)@, id, to_v2168, names@, ids@) {
            Some((o, st)) => r == Ok::<ActionOutcome, DecodeError>(o) && final(w)@ == st,
            None => r is Err,
        },
{
    if id == 0 || id == 1 {
        pass_field(w, Field::Byte)?;
        slot(w, to_v2168)?;
        slot(w, to_v2168)?;
    } else if id == 2 {
        slot(w, to_v2168)?;
        slot(w, to_v2168)?;
    } else if id == 3 {
        pass_field(w, Field::Byte)?;
        slot(w, to_v2168)?;
        copy_bool(w)?;
    } else if id == 4 || id == 5 {
        pass_field(w, Field::Byte)?;
        slot(w, to_v2168)?;
    } else if id == 6 {
        pass_field(w, Field::Byte)?;
    } else if id == 9 || id == 18 {
    } else if id == 10 {
        copy_i32v(w)?;
        copy_i32v(w)?;
    } else if id == 11 {
        copy_i32v(w)?;
        copy_i32v(w)?;
        coordinate(w, to_v2168)?;
    } else if id == 12 || id == 14 {
        copy_u32v(w)?;
        pass_field(w, Field::Byte)?;
    } else if id == 15 {
        copy_u32v(w)?;
        pass_field(w, Field::Fixed(4))?;
    } else if id == 16 {
        recipe(w, to_v2168)?;
        pass_field(w, Field::Byte)?;
        copy_i32v(w)?;
    } else if id == 17 {
        copy_str(w)?;
        pass_field(w, Field::Byte)?;
    } else {
        let n = w.read_u32v()?;
        w.write_u32v(n);
        if !items(w, n, to_v2168, names, ids)? {
            return Ok(ActionOutcome::Blocked);
        }
        pass_field(w, Field::Byte)?;
    }
    Ok(ActionOutcome::Written)
}

/// Takes one ItemStackRequest action to the other protocol: toward
/// protocol 2168 when `to_v2168`. `names` gives the network id of each item
/// name and `ids` the name of each network id, as the item registry has
/// them; a name is looked up by its first entry.
pub fn action(
    w: &mut PacketWrapper,
    to_v2168: bool,
    names: &Vec<(Vec<u8>, i32)>,
    ids: &Vec<(i32, Vec<u8>)>,
) -> (r: Result<ActionOutcome, DecodeError>)
    requires
        old(w).wf(),
        names_fit(ids@),
    ensures
        final(w).wf(),
        match spec_action(old(w)@, to_v2168, names@, ids@) {
            Some((o, st)) => r == Ok::<ActionOutcome, DecodeError>(o) && final(w)@ == st,
            None => r is Err,
        },
{
    let id: u32 = if to_v2168 {
        let b = w.read_u8()?;
        b as u32
    } else {
        let v = w.read_u32v()?;
        let _ = w.read_u8()?;
        if v > ACTION_MAX - 2 {
            return Err(DecodeError);
        }
        if v >= ACTION_PLACE_IN_CONTAINER { v + 2 } else { v }
    };
    if id > ACTION_MAX {
        return Err(DecodeError);
    }
    if id == ACTION_CRAFT_RECIPE_AUTO {
        return Ok(ActionOutcome::Blocked);
    }
    if id == ACTION_PLACE_IN_CONTAINER || id == ACTION_TAKE_OUT_CONTAINER {
        return Err(DecodeError);
    }
    let ghost s1 = w@;
    if to_v2168 {
        let variant = if id > ACTION_TAKE_OUT_CONTAINER { id - 2 } else { id };
        assert(variant == spec_action_variant(id));
        w.write_u32v(variant);
        w.write_u8(id as u8);
        assert(w@.out =~= s1.out + (ser_u32v(spec_action_variant(id)) + ser_u8(id as u8)));
    } else {
        w.write_u8(id as u8);
    }
    action_body(w, id, to_v2168, names, ids)
}

// ---------------------------------------------------------------------------
// Requests.

/// `n` parts read in turn by `part`, each saying whether the request may
/// go on; the first that says no ends the run.
pub open spec fn spec_repeat(st: WireState, n: nat, part: spec_fn(WireState) -> Option<(bool, WireState)>) -> Option<(bool, WireState)>
    decreases n,
{
    if n == 0 {
        Some((true, st))
    } else {
        match spec_repeat(st, (n - 1) as nat, part) {
            Some((true, s)) => part(s),
            other => other,
        }
    }
}

proof fn lemma_repeat_stop(st: WireState, k: nat, n: nat, part: spec_fn(WireState) -> Option<(bool, WireState)>)
    requires
        k <= n,
        !(spec_repeat(st, k, part) matches Some((true, _))),
    ensures
        spec_repeat(st, n, part) == spec_repeat(st, k, part),
    decreases n,
{
    if n > k {
        lemma_repeat_stop(st, k, (n - 1) as nat, part);
    }
}

/// An action as a part of a request: whether the request may go on.
pub open spec fn action_part(to_v2168: bool, names: Seq<(Vec<u8>, i32)>, ids: Seq<(i32, Vec<u8>)>) -> spec_fn(WireState) -> Option<(bool, WireState)> {
    |s: WireState| match spec_action(s, to_v2168, names, ids) {
        Some((o, s2)) => Some((o == ActionOutcome::Written, s2)),
        None => None,
    }
}

/// `n` strings, each read and written again.
pub open spec fn spec_strs(st: WireState, n: nat) -> Option<WireState>
    decreases n,
{
    if n == 0 {
        Some(st)
    } else {
        match spec_strs(st, (n - 1) as nat) {
            Some(s) => spec_copy_str(s),
            None => None,
        }
    }
}

/// One request: its id, its actions, its filter strings and its cause.
pub open spec fn spec_request(
    st: WireState,
    to_v2168: bool,
    names: Seq<(Vec<u8>, i32)>,
    ids: Seq<(i32, Vec<u8>)>,
) -> Option<(bool, WireState)> {
    match spec_copy_i32v(st) {
        None => None,
        Some(s1) => match rd_u32v(s1) {
            None => None,
            Some((n, s2)) => match spec_repeat(put(s2, ser_u32v(n)), n as nat, action_part(to_v2168, names, ids)) {
                None => None,
                Some((false, s3)) => Some((false, s3)),
                Some((true, s3)) => match rd_u32v(s3) {
                    None => None,
                    Some((f, s4)) => match then_pass(spec_strs(put(s4, ser_u32v(f)), f as nat), Field::Fixed(4)) {
                        Some(s5) => Some((true, s5)),
                        None => None,
                    },
                },
            },
        },
    }
}

/// A request as a part of the packet.
pub open spec fn request_part(to_v2168: bool, names: Seq<(Vec<u8>, i32)>, ids: Seq<(i32, Vec<u8>)>) -> spec_fn(WireState) -> Option<(bool, WireState)> {
    |s: WireState| spec_request(s, to_v2168, names, ids)
}

/// An ItemStackRequest packet: its requests, each with its actions taken
/// to the other protocol. `false` when an action blocks: the packet is
/// then not to be sent.
pub open spec fn spec_item_stack_request(
    st: WireState,
    to_v2168: bool,
    names: Seq<(Vec<u8>, i32)>,
    ids: Seq<(i32, Vec<u8>)>,
) -> Option<(bool, WireState)> {
    match rd_u32v(st) {
        None => None,
        Some((n, s1)) => spec_repeat(put(s1, ser_u32v(n)), n as nat, request_part(to_v2168, names, ids)),
    }
}

fn actions(
    w: &mut PacketWrapper,
    n: u32,
    to_v2168: bool,
    names: &Vec<(Vec<u8>, i32)>,
    ids: &Vec<(i32, Vec<u8>)>,
) -> (r: Result<bool, DecodeError>)
    requires
        old(w).wf(),
        names_fit(ids@),
    ensures
        final(w).wf(),
        match spec_repeat(old(w)@, n as nat, action_part(to_v2168, names@, ids@)) {
            Some((ok, st)) => r == Ok::<bool, DecodeError>(ok) && final(w)@ == st,
            None => r is Err,
        },
{
    let ghost s0 = w@;
    let ghost part = action_part(to_v2168, names@, ids@);
    let mut i: u32 = 0;
    while i < n
        invariant
            w.wf(),
            names_fit(ids@),
            i <= n,
            s0 == old(w)@,
            part == action_part(to_v2168, names@, ids@),
            spec_repeat(s0, i as nat, part) == Some((true, w@)),
        decreases n - i,
    {
        let ghost before = w@;
        let done = action(w, to_v2168, names, ids);
        assert(spec_repeat(s0, (i + 1) as nat, part) == part(before));
        match done {
            Ok(ActionOutcome::Written) => {},
            Ok(ActionOutcome::Blocked) => {
                proof {
                    lemma_repeat_stop(s0, (i + 1) as nat, n as nat, part);
                }
                return Ok(false);
            },
            Err(e) => {
                proof {
                    lemma_repeat_stop(s0, (i + 1) as nat, n as nat, part);
                }
                return Err(e);
            },
        }
        i = i + 1;
    }
    Ok(true)
}

fn strs(w: &mut PacketWrapper, n: u32) -> (r: Result<(), DecodeError>)
    requires
        old(w).wf(),
    ensures
        final(w).wf(),
        match spec_strs(old(w)@, n as nat) {
            Some(st) => r is Ok && final(w)@ == st,
            None => r is Err,
        },
{
    let ghost s0 = w@;
    let mut i: u32 = 0;
    while i < n
        invariant
            w.wf(),
            i <= n,
            s0 == old(w)@,
            spec_strs(s0, i as nat) == Some(w@),
        decreases n - i,
    {
        let ghost before = w@;
        let done = copy_str(w);
        assert(spec_strs(s0, (i + 1) as nat) == spec_copy_str(before));
        match done {
            Ok(()) => {},
            Err(e) => {
                proof {
                    let k: nat = (i + 1) as nat;
                    assert(spec_strs(s0, k) is None);
                    lemma_strs_stop(s0, k, n as nat);
                }
                return Err(e);
            },
        }
        i = i + 1;
    }
    Ok(())
}

proof fn lemma_strs_stop(st: WireState, k: nat, n: nat)
    requires
        k <= n,
        spec_strs(st, k) is None,
    ensures
        spec_strs(st, n) is None,
    decreases n,
{
    if n > k {
        lemma_strs_stop(st, k, (n - 1) as nat);
    }
}

#[verifier::rlimit(40)]
fn request(
    w: &mut PacketWrapper,
    to_v2168: bool,
    names: &Vec<(Vec<u8>, i32)>,
    ids: &Vec<(i32, Vec<u8>)>,
) -> (r: Result<bool, DecodeError>)
    requires
        old(w).wf(),
        names_fit(ids@),
    ensures
        final(w).wf(),
        match spec_request(old(w)@, to_v2168, names@, ids@) {
            Some((ok, st)) => r == Ok::<bool, DecodeError>(ok) && final(w)@ == st,
            None => r is Err,
        },
{
    copy_i32v(w)?;
    let n = w.read_u32v()?;
    w.write_u32v(n);
    if !actions(w, n, to_v2168, names, ids)? {
        return Ok(false);
    }
    let f = w.read_u32v()?;
    w.write_u32v(f);
    strs(w, f)?;
    pass_field(w, Field::Fixed(4))?;
    Ok(true)
}

/// Takes an ItemStackRequest packet to the other protocol: toward protocol
/// 2168 when `to_v2168`, with the item names and network ids of `names` and
/// `ids`. `Ok(false)` when an action blocks; the packet is then to be
/// dropped.
pub fn item_stack_request(
    w: &mut PacketWrapper,
    to_v2168: bool,
    names: &Vec<(Vec<u8>, i32)>,
    ids: &Vec<(i32, Vec<u8>)>,
) -> (r: Result<bool, DecodeError>)
    requires
        old(w).wf(),
        names_fit(ids@),
    ensures
        final(w).wf(),
        match spec_item_stack_request(old(w)@, to_v2168, names@, ids@) {
            Some((ok, st)) => r == Ok::<bool, DecodeError>(ok) && final(w)@ == st,
            None => r is Err,
        },
{
    let n = w.read_u32v()?;
    w.write_u32v(n);
    let ghost s1 = w@;
    let ghost part = request_part(to_v2168, names@, ids@);
    let mut i: u32 = 0;
    while i < n
        invariant
            w.wf(),
            names_fit(ids@),
            i <= n,
            part == request_part(to_v2168, names@, ids@),
            spec_item_stack_request(old(w)@, to_v2168, names@, ids@) == spec_repeat(s1, n as nat, part),
            spec_repeat(s1, i as nat, part) == Some((true, w@)),
        decreases n - i,
    {
        let ghost before = w@;
        let done = request(w, to_v2168, names, ids);
        assert(spec_repeat(s1, (i + 1) as nat, part) == part(before));
        match done {
            Ok(true) => {},
            Ok(false) => {
                proof {
                    lemma_repeat_stop(s1, (i + 1) as nat, n as nat, part);
                }
                return Ok(false);
            },
            Err(e) => {
                proof {
                    lemma_repeat_stop(s1, (i + 1) as nat, n as nat, part);
                }
                return Err(e);
            },
        }
        i = i + 1;
    }
    Ok(true)
}

// ---------------------------------------------------------------------------
// Responses.

pub const RESPONSE_STATUS_OK: u8 = 0;

/// `n` parts read in turn by `part`.
pub open spec fn spec_each(st: WireState, n: nat, part: spec_fn(WireState) -> Option<WireState>) -> Option<WireState>
    decreases n,
{
    if n == 0 {
        Some(st)
    } else {
        match spec_each(st, (n - 1) as nat, part) {
            Some(s) => part(s),
            None => None,
        }
    }
}

pub proof fn lemma_each_stop(st: WireState, k: nat, n: nat, part: spec_fn(WireState) -> Option<WireState>)
    requires
        k <= n,
        spec_each(st, k, part) is None,
    ensures
        spec_each(st, n, part) is None,
    decreases n,
{
    if n > k {
        lemma_each_stop(st, k, (n - 1) as nat, part);
    }
}

/// A protocol-2168 double optional: a presence flag, then, when present,
/// a second flag that says whether the value follows.
pub open spec fn rd_double_optional(st: WireState) -> Option<(bool, WireState)> {
    match parse_bool(st.rest) {
        None => None,
        Some((outer, n)) => if !outer {
            Some((false, dropped(st, n)))
        } else {
            match parse_bool(dropped(st, n).rest) {
                None => None,
                Some((inner, m)) => Some((inner, dropped(dropped(st, n), m))),
            }
        },
    }
}

/// One slot of a response: its three bytes, its stack id (a double
/// optional in protocol 2168, zero when absent toward 1001), its two
/// names and its durability.
pub open spec fn spec_response_slot(st: WireState, to_v2168: bool) -> Option<WireState> {
    let s1 = then_pass(then_pass(pass(st, Field::Byte), Field::Byte), Field::Byte);
    let s2 = match s1 {
        None => None,
        Some(s) => if to_v2168 {
            match rd_i32v(s) {
                Some((net, t)) => Some(put(t, ser_bool(true) + ser_bool(true) + ser_i32v(net))),
                None => None,
            }
        } else {
            match rd_double_optional(s) {
                None => None,
                Some((true, t)) => spec_copy_i32v(t),
                Some((false, t)) => Some(put(t, ser_i32v(0))),
            }
        },
    };
    then_copy_i32v(then_copy_str(then_copy_str(s2)))
}

/// A string written again after what `o` left.
pub open spec fn then_copy_str(o: Option<WireState>) -> Option<WireState> {
    match o {
        Some(s) => spec_copy_str(s),
        None => None,
    }
}

/// A response slot as a part of a container.
pub open spec fn slot_part(to_v2168: bool) -> spec_fn(WireState) -> Option<WireState> {
    |s: WireState| spec_response_slot(s, to_v2168)
}

/// One container of a response: its name and its slots.
pub open spec fn spec_response_container(st: WireState, to_v2168: bool) -> Option<WireState> {
    match spec_container_name(st) {
        None => None,
        Some(s1) => match rd_u32v(s1) {
            None => None,
            Some((n, s2)) => spec_each(put(s2, ser_u32v(n)), n as nat, slot_part(to_v2168)),
        },
    }
}

/// A response container as a part of the container list.
pub open spec fn container_part(to_v2168: bool) -> spec_fn(WireState) -> Option<WireState> {
    |s: WireState| spec_response_container(s, to_v2168)
}

/// The container list of a response.
pub open spec fn spec_response_containers(st: WireState, to_v2168: bool) -> Option<WireState> {
    match rd_u32v(st) {
        None => None,
        Some((n, s1)) => spec_each(put(s1, ser_u32v(n)), n as nat, container_part(to_v2168)),
    }
}

/// One response entry: its status and request id, then its container
/// list. Toward protocol 2168 the list becomes a double optional present
/// for a successful status; toward 1001 the list is written for a
/// successful status only (what it wrote is otherwise taken back), and
/// an absent one becomes an empty list.
pub open spec fn spec_response_entry(st: WireState, to_v2168: bool) -> Option<WireState> {
    match rd_u8(st) {
        None => None,
        Some((status, s0)) => match spec_copy_i32v(put(s0, ser_u8(status))) {
            None => None,
            Some(s1) => if to_v2168 {
                let present = status == RESPONSE_STATUS_OK;
                let s2 = put(s1, ser_bool(true) + ser_bool(present));
                if present { spec_response_containers(s2, true) } else { Some(s2) }
            } else {
                let writes = status == RESPONSE_STATUS_OK;
                match rd_double_optional(s1) {
                    None => None,
                    Some((present, s2)) => if present {
                        match spec_response_containers(s2, false) {
                            None => None,
                            Some(s3) => if writes {
                                Some(s3)
                            } else {
                                Some(WireState { out: cut_back(s3.out, s2.out.len()), ..s3 })
                            },
                        }
                    } else if writes {
                        Some(put(s2, ser_u32v(0)))
                    } else {
                        Some(s2)
                    },
                }
            },
        },
    }
}

/// A response entry as a part of the packet.
pub open spec fn entry_part(to_v2168: bool) -> spec_fn(WireState) -> Option<WireState> {
    |s: WireState| spec_response_entry(s, to_v2168)
}

/// An ItemStackResponse packet taken to the other protocol.
pub open spec fn spec_item_stack_response(st: WireState, to_v2168: bool) -> Option<WireState> {
    match rd_u32v(st) {
        None => None,
        Some((n, s1)) => spec_each(put(s1, ser_u32v(n)), n as nat, entry_part(to_v2168)),
    }
}

fn read_double_optional(w: &mut PacketWrapper) -> (r: Result<bool, DecodeError>)
    requires
        old(w).wf(),
    ensures
        final(w).wf(),
        match rd_double_optional(old(w)@) {
            Some((b, st)) => r == Ok::<bool, DecodeError>(b) && final(w)@ == st,
            None => r is Err,
        },
{
    if !w.read_bool()? {
        return Ok(false);
    }
    w.read_bool()
}

fn response_slot(w: &mut PacketWrapper, to_v2168: bool) -> (r: Result<(), DecodeError>)
    requires
        old(w).wf(),
    ensures
        final(w).wf(),
        match spec_response_slot(old(w)@, to_v2168) {
            Some(st) => r is Ok && final(w)@ == st,
            None => r is Err,
        },
{
    pass_field(w, Field::Byte)?;
    pass_field(w, Field::Byte)?;
    pass_field(w, Field::Byte)?;
    if to_v2168 {
        let net = w.read_i32v()?;
        let ghost o = w@;
        w.write_bool(true);
        w.write_bool(true);
        w.write_i32v(net);
        assert(w@.out =~= o.out + (ser_bool(true) + ser_bool(true) + ser_i32v(net)));
    } else if read_double_optional(w)? {
        copy_i32v(w)?;
    } else {
        w.write_i32v(0);
    }
    copy_str(w)?;
    copy_str(w)?;
    copy_i32v(w)
}

fn response_container(w: &mut PacketWrapper, to_v2168: bool) -> (r: Result<(), DecodeError>)
    requires
        old(w).wf(),
    ensures
        final(w).wf(),
        match spec_response_container(old(w)@, to_v2168) {
            Some(st) => r is Ok && final(w)@ == st,
            None => r is Err,
        },
{
    container_name(w)?;
    let n = w.read_u32v()?;
    w.write_u32v(n);
    let ghost s0 = w@;
    let ghost part = slot_part(to_v2168);
    let mut i: u32 = 0;
    while i < n
        invariant
            w.wf(),
            i <= n,
            part == slot_part(to_v2168),
            spec_response_container(old(w)@, to_v2168) == spec_each(s0, n as nat, part),
            spec_each(s0, i as nat, part) == Some(w@),
        decreases n - i,
    {
        let ghost before = w@;
        let done = response_slot(w, to_v2168);
        assert(spec_each(s0, (i + 1) as nat, part) == part(before));
        if done.is_err() {
            proof {
                lemma_each_stop(s0, (i + 1) as nat, n as nat, part);
            }
            return done;
        }
        i = i + 1;
    }
    Ok(())
}

fn response_containers(w: &mut PacketWrapper, to_v2168: bool) -> (r: Result<(), DecodeError>)
    requires
        old(w).wf(),
    ensures
        final(w).wf(),
        match spec_response_containers(old(w)@, to_v2168) {
            Some(st) => r is Ok && final(w)@ == st,
            None => r is Err,
        },
{
    let n = w.read_u32v()?;
    w.write_u32v(n);
    let ghost s0 = w@;
    let ghost part = container_part(to_v2168);
    let mut i: u32 = 0;
    while i < n
        invariant
            w.wf(),
            i <= n,
            part == container_part(to_v2168),
            spec_response_containers(old(w)@, to_v2168) == spec_each(s0, n as nat, part),
            spec_each(s0, i as nat, part) == Some(w@),
        decreases n - i,
    {
        let ghost before = w@;
        let done = response_container(w, to_v2168);
        assert(spec_each(s0, (i + 1) as nat, part) == part(before));
        if done.is_err() {
            proof {
                lemma_each_stop(s0, (i + 1) as nat, n as nat, part);
            }
            return done;
        }
        i = i + 1;
    }
    Ok(())
}

fn response_entry(w: &mut PacketWrapper, to_v2168: bool) -> (r: Result<(), DecodeError>)
    requires
        old(w).wf(),
    ensures
        final(w).wf(),
        match spec_response_entry(old(w)@, to_v2168) {
            Some(st) => r is Ok && final(w)@ == st,
            None => r is Err,
        },
{
    let status = w.read_u8()?;
    w.write_u8(status);
    copy_i32v(w)?;
    if to_v2168 {
        let present = status == RESPONSE_STATUS_OK;
        let ghost o = w@;
        w.write_bool(true);
        w.write_bool(present);
        assert(w@.out =~= o.out + (ser_bool(true) + ser_bool(present)));
        if present {
            response_containers(w, true)?;
        }
    } else {
        let writes = status == RESPONSE_STATUS_OK;
        let present = read_double_optional(w)?;
        if present {
            let mark = w.written_len();
            response_containers(w, false)?;
            if !writes {
                w.truncate_written(mark);
            }
        } else if writes {
            w.write_u32v(0);
        }
    }
    Ok(())
}

/// Takes an ItemStackResponse packet to the other protocol: toward protocol
/// 2168 when `to_v2168`.
pub fn item_stack_response(w: &mut PacketWrapper, to_v2168: bool) -> (r: Result<(), DecodeError>)
    requires
        old(w).wf(),
    ensures
        final(w).wf(),
        match spec_item_stack_response(old(w)@, to_v2168) {
            Some(st) => r is Ok && final(w)@ == st,
            None => r is Err,
        },
{
    let n = w.read_u32v()?;
    w.write_u32v(n);
    let ghost s0 = w@;
    let ghost part = entry_part(to_v2168);
    let mut i: u32 = 0;
    while i < n
        invariant
            w.wf(),
            i <= n,
            part == entry_part(to_v2168),
            spec_item_stack_response(old(w)@, to_v2168) == spec_each(s0, n as nat, part),
            spec_each(s0, i as nat, part) == Some(w@),
        decreases n - i,
    {
        let ghost before = w@;
        let done = response_entry(w, to_v2168);
        assert(spec_each(s0, (i + 1) as nat, part) == part(before));
        if done.is_err() {
            proof {
                lemma_each_stop(s0, (i + 1) as nat, n as nat, part);
            }
            return done;
        }
        i = i + 1;
    }
    Ok(())
}

} // verus!
