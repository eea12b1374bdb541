//! InventoryTransaction between protocols 1001 and 2168. The frame of the
//! packet is the same in both: the legacy request id and slot block, the
//! transaction type and the list of inventory actions are copied as they
//! are. What differs is the layout of the item instances inside the
//! actions and inside the use-item, use-item-on-entity and release-item
//! payloads; that layout belongs to the game's item codec, which this
//! library does not hold, so a transaction that carries an item is refused
//! rather than guessed at.
use vstd::prelude::*;
use crate::codec::{parse_bool, parse_u32v, DecodeError, Field};
use crate::steps::item_stack_v2168::{lemma_each_stop, spec_each};
use crate::wrapper::{copied, pass, PacketWrapper, WireState};

verus! {

pub const TRANSACTION_NORMAL: u32 = 0;
pub const TRANSACTION_MISMATCH: u32 = 1;
pub const TRANSACTION_ITEM_USE: u32 = 2;
pub const TRANSACTION_ITEM_USE_ON_ENTITY: u32 = 3;
pub const TRANSACTION_ITEM_RELEASE: u32 = 4;

/// A count copied as it is, with its value.
pub open spec fn pass_count(st: WireState) -> Option<(u32, WireState)> {
    match parse_u32v(st.rest) {
        Some((v, n)) => Some((v, copied(st, n))),
        None => None,
    }
}

/// A boolean copied as it is, with its value.
pub open spec fn pass_flag(st: WireState) -> Option<(bool, WireState)> {
    match parse_bool(st.rest) {
        Some((v, n)) => Some((v, copied(st, n))),
        None => None,
    }
}

/// One entry of the legacy slot block: a container byte and its list of
/// slot bytes.
pub open spec fn spec_legacy_entry(st: WireState) -> Option<WireState> {
    match pass(st, Field::Byte) {
        None => None,
        Some(s1) => match pass_count(s1) {
            None => None,
            Some((n, s2)) => pass(s2, Field::Fixed(n as usize)),
        },
    }
}

/// A legacy slot entry as a part of the block.
pub open spec fn legacy_part() -> spec_fn(WireState) -> Option<WireState> {
    |s: WireState| spec_legacy_entry(s)
}

/// The legacy slot block: its entries, copied.
pub open spec fn spec_legacy_slots(st: WireState) -> Option<WireState> {
    match pass_count(st) {
        None => None,
        Some((n, s1)) => spec_each(s1, n as nat, legacy_part()),
    }
}

/// Whether a transaction of type `kind` with `actions` inventory actions
/// carries an item instance.
pub open spec fn carries_item(kind: u32, actions: u32) -> bool {
    actions != 0 || kind == TRANSACTION_ITEM_USE || kind == TRANSACTION_ITEM_USE_ON_ENTITY
        || kind == TRANSACTION_ITEM_RELEASE
}

/// InventoryTransaction either way: the legacy request id, the legacy slot
/// block when its flag is set, a flag, the transaction type, a flag and
/// the action count are copied as they are; a transaction that carries an
/// item is refused.
pub open spec fn spec_inventory_transaction(st: WireState) -> Option<WireState> {
    match pass(st, Field::VarInt) {
        None => None,
        Some(s1) => match pass_flag(s1) {
            None => None,
            Some((legacy, s2)) => match if legacy { spec_legacy_slots(s2) } else { Some(s2) } {
                None => None,
                Some(s3) => match pass(s3, Field::Byte) {
                    None => None,
                    Some(s4) => match pass_count(s4) {
                        None => None,
                        Some((kind, s5)) => match pass(s5, Field::Byte) {
                            None => None,
                            Some(s6) => match pass_count(s6) {
                                None => None,
                                Some((actions, s7)) => if carries_item(kind, actions) { None } else { Some(s7) },
                            },
                        },
                    },
                },
            },
        },
    }
}

fn legacy_entry(w: &mut PacketWrapper) -> (r: Result<(), DecodeError>)
    requires
        old(w).wf(),
    ensures
        final(w).wf(),
        match spec_legacy_entry(old(w)@) {
            Some(st) => r is Ok && final(w)@ == st,
            None => r is Err,
        },
{
    w.passthrough(Field::Byte)?;
    let n = w.pass_u32v()?;
    w.passthrough(Field::Fixed(n as usize))
}

fn legacy_slots(w: &mut PacketWrapper) -> (r: Result<(), DecodeError>)
    requires
        old(w).wf(),
    ensures
        final(w).wf(),
        match spec_legacy_slots(old(w)@) {
            Some(st) => r is Ok && final(w)@ == st,
            None => r is Err,
        },
{
    let n = w.pass_u32v()?;
    let ghost s0 = w@;
    let ghost part = legacy_part();
    let mut i: u32 = 0;
    while i < n
        invariant
            w.wf(),
            i <= n,
            part == legacy_part(),
            spec_legacy_slots(old(w)@) == spec_each(s0, n as nat, part),
            spec_each(s0, i as nat, part) == Some(w@),
        decreases n - i,
    {
        let ghost before = w@;
        let done = legacy_entry(w);
        assert(spec_each(s0, (i + 1) as nat, part) == part(before));
        if done.is_err() {
            proof {
                lemma_each_stop(s0, (i + 1) as nat, n as nat, part);
            }
            return done;
        }
        i = i + 1;
    }
    Ok(())
}

/// The InventoryTransaction handler, the same either way: the frame is
/// copied, and a transaction that carries an item is refused.
pub fn inventory_transaction(w: &mut PacketWrapper) -> (r: Result<(), DecodeError>)
    requires
        old(w).wf(),
    ensures
        final(w).wf(),
        match spec_inventory_transaction(old(w)@) {
            Some(st) => r is Ok && final(w)@ == st,
            None => r is Err,
        },
{
    w.passthrough(Field::VarInt)?;
    let legacy = w.pass_bool()?;
    if legacy {
        legacy_slots(w)?;
    }
    w.passthrough(Field::Byte)?;
    let kind = w.pass_u32v()?;
    w.passthrough(Field::Byte)?;
    let actions = w.pass_u32v()?;
    if actions != 0 || kind == TRANSACTION_ITEM_USE || kind == TRANSACTION_ITEM_USE_ON_ENTITY
        || kind == TRANSACTION_ITEM_RELEASE {
        return Err(DecodeError);
    }
    Ok(())
}

} // verus!
