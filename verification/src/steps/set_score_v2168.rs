//! SetScore and SetScoreboardIdentity between protocols 1001 and 2168.
//! Protocol 1001 gives SetScore one action for the whole list and a
//! holder kind byte per entry; protocol 2168 gives each entry a variant
//! number and its name. SetScoreboardIdentity gains a presence flag before
//! each player id. A packet that the older form cannot express is dropped.
use vstd::prelude::*;
use crate::codec::{
    from_le32, le32, le32_bytes, ser_bool, ser_i64v, ser_str, ser_u32v, ser_u8, take_fixed, take_i64v, take_str,
    take_u32v, take_u8, two32, u32_from_le, DecodeError,
};
use crate::connection::{after_note, leave_note, texts};
use crate::packet_ids;
use crate::steps::v1001_v2168::{read_flag, take_flag};
use crate::wrapper::{put, PacketWrapper, WireState};

verus! {

pub const ACTION_CHANGE: u8 = 0;
pub const ACTION_REMOVE: u8 = 1;

pub const IDENTITY_PLAYER: u8 = 1;
pub const IDENTITY_ENTITY: u8 = 2;
pub const IDENTITY_FAKE_PLAYER: u8 = 3;

pub const VARIANT_REMOVE: u32 = 0;
pub const VARIANT_CHANGE_PLAYER: u32 = 1;
pub const VARIANT_CHANGE_ENTITY: u32 = 2;
pub const VARIANT_CHANGE_FAKE_PLAYER: u32 = 3;

/// Who a score belongs to, with the bytes of a fake player's name.
pub enum ScoreHolder {
    Player(i64),
    Entity(i64),
    FakePlayer(Seq<u8>),
}

/// One score: its scoreboard id, objective name, value and holder (none
/// for a removal).
pub struct ScoreEntry {
    pub scoreboard_id: i64,
    pub objective: Option<Seq<u8>>,
    pub score: i32,
    pub identity: Option<ScoreHolder>,
}

/// Who a score belongs to.
pub enum Identity {
    Player(i64),
    Entity(i64),
    FakePlayer(Vec<u8>),
}

impl Identity {
    pub open spec fn view(&self) -> ScoreHolder {
        match self {
            Identity::Player(x) => ScoreHolder::Player(*x),
            Identity::Entity(x) => ScoreHolder::Entity(*x),
            Identity::FakePlayer(n) => ScoreHolder::FakePlayer(n@),
        }
    }
}

/// One score entry as read from a packet.
pub struct Entry {
    pub scoreboard_id: i64,
    pub objective: Option<Vec<u8>>,
    pub score: i32,
    pub identity: Option<Identity>,
}

impl Entry {
    pub open spec fn view(&self) -> ScoreEntry {
        ScoreEntry {
            scoreboard_id: self.scoreboard_id,
            objective: match &self.objective {
                Some(o) => Some(o@),
                None => None,
            },
            score: self.score,
            identity: match &self.identity {
                Some(h) => Some(h.view()),
                None => None,
            },
        }
    }
}

pub open spec fn entries_view(v: Seq<Entry>) -> Seq<ScoreEntry> {
    v.map_values(|e: Entry| e.view())
}

/// A little-endian 32-bit signed integer.
pub open spec fn take_i32le(s: Seq<u8>) -> Option<(i32, Seq<u8>)> {
    match take_fixed(4, s) {
        Some((b, r)) => Some((from_le32(b) as i32, r)),
        None => None,
    }
}

pub open spec fn ser_i32le(v: i32) -> Seq<u8> {
    le32(v as u32)
}

/// The strings of an entry fit a 32-bit length.
pub open spec fn holder_ok(h: ScoreHolder) -> bool {
    h matches ScoreHolder::FakePlayer(n) ==> n.len() < two32()
}

pub open spec fn entry_ok(e: ScoreEntry) -> bool {
    &&& (e.objective matches Some(o) ==> o.len() < two32())
    &&& (e.identity matches Some(h) ==> holder_ok(h))
}

/// A protocol-1001 identity: a kind byte, then an actor id or a name.
pub open spec fn take_holder_v1001(s: Seq<u8>) -> Option<(ScoreHolder, Seq<u8>)> {
    match take_u8(s) {
        Some((kind, r)) => if kind == IDENTITY_PLAYER {
            match take_i64v(r) {
                Some((id, r2)) => Some((ScoreHolder::Player(id), r2)),
                None => None,
            }
        } else if kind == IDENTITY_ENTITY {
            match take_i64v(r) {
                Some((id, r2)) => Some((ScoreHolder::Entity(id), r2)),
                None => None,
            }
        } else if kind == IDENTITY_FAKE_PLAYER {
            match take_str(r) {
                Some((n, r2)) => Some((ScoreHolder::FakePlayer(n), r2)),
                None => None,
            }
        } else {
            None
        },
        None => None,
    }
}

/// A protocol-1001 entry: id, objective, score, and the holder unless the
/// packet removes scores.
pub open spec fn take_entry_v1001(s: Seq<u8>, remove: bool) -> Option<(ScoreEntry, Seq<u8>)> {
    match take_i64v(s) {
        Some((id, r1)) => match take_str(r1) {
            Some((obj, r2)) => match take_i32le(r2) {
                Some((score, r3)) => if remove {
                    Some((ScoreEntry { scoreboard_id: id, objective: Some(obj), score, identity: None }, r3))
                } else {
                    match take_holder_v1001(r3) {
                        Some((h, r4)) => Some((ScoreEntry { scoreboard_id: id, objective: Some(obj), score, identity: Some(h) }, r4)),
                        None => None,
                    }
                },
                None => None,
            },
            None => None,
        },
        None => None,
    }
}

pub open spec fn take_entries_v1001(s: Seq<u8>, remove: bool, n: nat) -> Option<(Seq<ScoreEntry>, Seq<u8>)>
    decreases n,
{
    if n == 0 {
        Some((Seq::empty(), s))
    } else {
        match take_entries_v1001(s, remove, (n - 1) as nat) {
            Some((es, r)) => match take_entry_v1001(r, remove) {
                Some((e, r2)) => Some((es.push(e), r2)),
                None => None,
            },
            None => None,
        }
    }
}

/// A protocol-1001 SetScore body: the action (change or remove), the
/// count and the entries, with nothing after them.
pub open spec fn decode_score_v1001(s: Seq<u8>) -> Option<Seq<ScoreEntry>> {
    match take_u8(s) {
        Some((action, r)) => if action != ACTION_CHANGE && action != ACTION_REMOVE {
            None
        } else {
            match take_u32v(r) {
                Some((n, r2)) => match take_entries_v1001(r2, action == ACTION_REMOVE, n as nat) {
                    Some((es, r3)) => if r3.len() == 0 { Some(es) } else { None },
                    None => None,
                },
                None => None,
            }
        },
        None => None,
    }
}

/// The names protocol 2168 gives the entry variants: Remove, ChangePlayer,
/// ChangeEntity, ChangeFakePlayer.
pub open spec fn expected_name(variant: u32) -> Seq<u8> {
    if variant == VARIANT_REMOVE {
        seq![82u8, 101, 109, 111, 118, 101]
    } else if variant == VARIANT_CHANGE_PLAYER {
        seq![67u8, 104, 97, 110, 103, 101, 80, 108, 97, 121, 101, 114]
    } else if variant == VARIANT_CHANGE_ENTITY {
        seq![67u8, 104, 97, 110, 103, 101, 69, 110, 116, 105, 116, 121]
    } else {
        seq![67u8, 104, 97, 110, 103, 101, 70, 97, 107, 101, 80, 108, 97, 121, 101, 114]
    }
}

fn expected_name_bytes(variant: u32) -> (b: Vec<u8>)
    ensures
        b@ == expected_name(variant),
{
    let b = if variant == VARIANT_REMOVE {
        vec![82u8, 101, 109, 111, 118, 101]
    } else if variant == VARIANT_CHANGE_PLAYER {
        vec![67u8, 104, 97, 110, 103, 101, 80, 108, 97, 121, 101, 114]
    } else if variant == VARIANT_CHANGE_ENTITY {
        vec![67u8, 104, 97, 110, 103, 101, 69, 110, 116, 105, 116, 121]
    } else {
        vec![67u8, 104, 97, 110, 103, 101, 70, 97, 107, 101, 80, 108, 97, 121, 101, 114]
    };
    assert(b@ =~= expected_name(variant));
    b
}

/// A byte made lower case when it is an ASCII capital.
pub open spec fn lower_byte(b: u8) -> u8 {
    if 65 <= b <= 90 { (b + 32) as u8 } else { b }
}

/// Two names that differ at most in the case of ASCII letters.
pub open spec fn eq_ignore_case(a: Seq<u8>, b: Seq<u8>) -> bool {
    a.len() == b.len() && forall|i: int| 0 <= i < a.len() ==> lower_byte(#[trigger] a[i]) == lower_byte(b[i])
}

pub(crate) fn same_ignoring_case(a: &Vec<u8>, b: &Vec<u8>) -> (r: bool)
    ensures
        r == eq_ignore_case(a@, b@),
{
    if a.len() != b.len() {
        return false;
    }
    let mut i: usize = 0;
    while i < a.len()
        invariant
            a@.len() == b@.len(),
            i <= a@.len(),
            forall|k: int| 0 <= k < i ==> lower_byte(#[trigger] a@[k]) == lower_byte(b@[k]),
        decreases a@.len() - i,
    {
        let x = if 65 <= a[i] && a[i] <= 90 { a[i] + 32 } else { a[i] };
        let y = if 65 <= b[i] && b[i] <= 90 { b[i] + 32 } else { b[i] };
        if x != y {
            return false;
        }
        i = i + 1;
    }
    true
}

/// The holder of a protocol-2168 change entry of `variant`.
pub open spec fn take_holder_v2168(variant: u32, s: Seq<u8>) -> Option<(ScoreHolder, Seq<u8>)> {
    if variant == VARIANT_CHANGE_PLAYER {
        match take_i64v(s) {
            Some((id, r)) => Some((ScoreHolder::Player(id), r)),
            None => None,
        }
    } else if variant == VARIANT_CHANGE_ENTITY {
        match take_i64v(s) {
            Some((id, r)) => Some((ScoreHolder::Entity(id), r)),
            None => None,
        }
    } else {
        match take_str(s) {
            Some((n, r)) => Some((ScoreHolder::FakePlayer(n), r)),
            None => None,
        }
    }
}

/// A protocol-2168 entry: the variant and its name (matched ignoring
/// case), the id, then for a removal an optional objective, for a change
/// the objective, score and holder.
pub open spec fn take_entry_v2168(s: Seq<u8>) -> Option<(ScoreEntry, Seq<u8>)> {
    match take_u32v(s) {
        Some((variant, r1)) => match take_str(r1) {
            Some((name, r2)) => if variant > VARIANT_CHANGE_FAKE_PLAYER || !eq_ignore_case(name, expected_name(variant)) {
                None
            } else {
                match take_i64v(r2) {
                    Some((id, r3)) => if variant == VARIANT_REMOVE {
                        match take_flag(r3) {
                            Some((has, r4)) => if has {
                                match take_str(r4) {
                                    Some((o, r5)) => Some((ScoreEntry { scoreboard_id: id, objective: Some(o), score: 0, identity: None }, r5)),
                                    None => None,
                                }
                            } else {
                                Some((ScoreEntry { scoreboard_id: id, objective: None, score: 0, identity: None }, r4))
                            },
                            None => None,
                        }
                    } else {
                        match take_str(r3) {
                            Some((obj, r4)) => match take_i32le(r4) {
                                Some((score, r5)) => match take_holder_v2168(variant, r5) {
                                    Some((h, r6)) => Some((ScoreEntry { scoreboard_id: id, objective: Some(obj), score, identity: Some(h) }, r6)),
                                    None => None,
                                },
                                None => None,
                            },
                            None => None,
                        }
                    },
                    None => None,
                }
            },
            None => None,
        },
        None => None,
    }
}

pub open spec fn take_entries_v2168(s: Seq<u8>, n: nat) -> Option<(Seq<ScoreEntry>, Seq<u8>)>
    decreases n,
{
    if n == 0 {
        Some((Seq::empty(), s))
    } else {
        match take_entries_v2168(s, (n - 1) as nat) {
            Some((es, r)) => match take_entry_v2168(r) {
                Some((e, r2)) => Some((es.push(e), r2)),
                None => None,
            },
            None => None,
        }
    }
}

/// A protocol-2168 SetScore body: the count and the entries, with nothing
/// after them.
pub open spec fn decode_score_v2168(s: Seq<u8>) -> Option<Seq<ScoreEntry>> {
    match take_u32v(s) {
        Some((n, r)) => match take_entries_v2168(r, n as nat) {
            Some((es, r2)) => if r2.len() == 0 { Some(es) } else { None },
            None => None,
        },
        None => None,
    }
}

pub open spec fn holder_variant(h: ScoreHolder) -> u32 {
    match h {
        ScoreHolder::Player(_) => VARIANT_CHANGE_PLAYER,
        ScoreHolder::Entity(_) => VARIANT_CHANGE_ENTITY,
        ScoreHolder::FakePlayer(_) => VARIANT_CHANGE_FAKE_PLAYER,
    }
}

pub open spec fn holder_kind(h: ScoreHolder) -> u8 {
    match h {
        ScoreHolder::Player(_) => IDENTITY_PLAYER,
        ScoreHolder::Entity(_) => IDENTITY_ENTITY,
        ScoreHolder::FakePlayer(_) => IDENTITY_FAKE_PLAYER,
    }
}

/// The holder's id or name.
pub open spec fn holder_body(h: ScoreHolder) -> Seq<u8> {
    match h {
        ScoreHolder::Player(id) => ser_i64v(id),
        ScoreHolder::Entity(id) => ser_i64v(id),
        ScoreHolder::FakePlayer(n) => ser_str(n),
    }
}

/// The objective name, or the empty one.
pub open spec fn objective_or_empty(o: Option<Seq<u8>>) -> Seq<u8> {
    match o {
        Some(x) => x,
        None => Seq::empty(),
    }
}

/// An entry as protocol 2168 writes it.
pub open spec fn entry_v2168(e: ScoreEntry) -> Seq<u8> {
    match e.identity {
        None => ser_u32v(VARIANT_REMOVE) + ser_str(expected_name(VARIANT_REMOVE)) + ser_i64v(e.scoreboard_id)
            + match e.objective {
            Some(o) => ser_bool(true) + ser_str(o),
            None => ser_bool(false),
        },
        Some(h) => ser_u32v(holder_variant(h)) + ser_str(expected_name(holder_variant(h))) + ser_i64v(e.scoreboard_id)
            + ser_str(objective_or_empty(e.objective)) + ser_i32le(e.score) + holder_body(h),
    }
}

pub open spec fn entries_v2168(es: Seq<ScoreEntry>) -> Seq<u8>
    decreases es.len(),
{
    if es.len() == 0 { Seq::empty() } else { entries_v2168(es.drop_last()) + entry_v2168(es.last()) }
}

/// A SetScore body as protocol 2168 writes it.
pub open spec fn encode_score_v2168(es: Seq<ScoreEntry>) -> Seq<u8> {
    ser_u32v(es.len() as u32) + entries_v2168(es)
}

/// An entry as protocol 1001 writes it.
pub open spec fn entry_v1001(e: ScoreEntry) -> Seq<u8> {
    ser_i64v(e.scoreboard_id) + ser_str(objective_or_empty(e.objective)) + ser_i32le(e.score) + match e.identity {
        Some(h) => ser_u8(holder_kind(h)) + holder_body(h),
        None => Seq::empty(),
    }
}

pub open spec fn entries_v1001(es: Seq<ScoreEntry>) -> Seq<u8>
    decreases es.len(),
{
    if es.len() == 0 { Seq::empty() } else { entries_v1001(es.drop_last()) + entry_v1001(es.last()) }
}

/// The number of entries that change a score.
pub open spec fn changes(es: Seq<ScoreEntry>) -> nat
    decreases es.len(),
{
    if es.len() == 0 { 0 } else { changes(es.drop_last()) + if es.last().identity is Some { 1nat } else { 0nat } }
}

/// A SetScore body as protocol 1001 writes it, where it can: the entries
/// all change scores or all remove them, and each names its objective.
pub open spec fn encode_score_v1001(es: Seq<ScoreEntry>) -> Option<Seq<u8>> {
    let c = changes(es);
    if c != 0 && c != es.len() {
        None
    } else if exists|i: int| 0 <= i < es.len() && (#[trigger] es[i]).objective is None {
        None
    } else {
        let action = if c == 0 && es.len() > 0 { ACTION_REMOVE } else { ACTION_CHANGE };
        Some(ser_u8(action) + ser_u32v(es.len() as u32) + entries_v1001(es))
    }
}

/// What a SetScore body becomes: none when it cannot be read, the inner
/// none when the older form cannot express it, else the rewritten body.
pub open spec fn spec_score_body(body: Seq<u8>, to_v2168: bool) -> Option<Option<Seq<u8>>> {
    if to_v2168 {
        match decode_score_v1001(body) {
            Some(es) => Some(Some(encode_score_v2168(es))),
            None => None,
        }
    } else {
        match decode_score_v2168(body) {
            Some(es) => Some(encode_score_v1001(es)),
            None => None,
        }
    }
}

fn read_i32le(r: &mut PacketWrapper) -> (res: Result<i32, DecodeError>)
    requires
        old(r).wf(),
    ensures
        final(r).wf(),
        match take_i32le(old(r)@.rest) {
            Some((v, rest)) => res == Ok::<i32, DecodeError>(v) && final(r)@ == (WireState { rest, ..old(r)@ }),
            None => res is Err,
        },
{
    let b = r.read_fixed(4)?;
    Ok(u32_from_le(b.as_slice()) as i32)
}

fn write_i32le(w: &mut PacketWrapper, v: i32)
    requires
        old(w).wf(),
    ensures
        final(w).wf(),
        final(w)@ == put(old(w)@, ser_i32le(v)),
{
    let b = le32_bytes(v as u32);
    w.write_bytes(b.as_slice());
}

fn read_holder_v1001(r: &mut PacketWrapper) -> (res: Result<Identity, DecodeError>)
    requires
        old(r).wf(),
    ensures
        final(r).wf(),
        match take_holder_v1001(old(r)@.rest) {
            Some((h, rest)) => res matches Ok(x) && x.view() == h && holder_ok(h) && final(r)@ == (WireState { rest, ..old(r)@ }),
            None => res is Err,
        },
{
    let kind = r.read_u8()?;
    if kind == IDENTITY_PLAYER {
        Ok(Identity::Player(r.read_i64v()?))
    } else if kind == IDENTITY_ENTITY {
        Ok(Identity::Entity(r.read_i64v()?))
    } else if kind == IDENTITY_FAKE_PLAYER {
        Ok(Identity::FakePlayer(r.read_str()?))
    } else {
        Err(DecodeError)
    }
}

fn read_entry_v1001(r: &mut PacketWrapper, remove: bool) -> (res: Result<Entry, DecodeError>)
    requires
        old(r).wf(),
    ensures
        final(r).wf(),
        match take_entry_v1001(old(r)@.rest, remove) {
            Some((e, rest)) => res matches Ok(x) && x.view() == e && entry_ok(e) && final(r)@ == (WireState { rest, ..old(r)@ }),
            None => res is Err,
        },
{
    let id = r.read_i64v()?;
    let obj = r.read_str()?;
    let score = read_i32le(r)?;
    let holder = if remove { None } else { Some(read_holder_v1001(r)?) };
    Ok(Entry { scoreboard_id: id, objective: Some(obj), score, identity: holder })
}

fn read_entries_v1001(r: &mut PacketWrapper, remove: bool, n: u32) -> (res: Result<Vec<Entry>, DecodeError>)
    requires
        old(r).wf(),
    ensures
        final(r).wf(),
        match take_entries_v1001(old(r)@.rest, remove, n as nat) {
            Some((es, rest)) => res matches Ok(v) && entries_view(v@) == es
                && (forall|j: int| 0 <= j < es.len() ==> entry_ok(#[trigger] es[j]))
                && final(r)@ == (WireState { rest, ..old(r)@ }),
            None => res is Err,
        },
{
    let ghost s0 = old(r)@.rest;
    let mut v: Vec<Entry> = Vec::new();
    let mut k: u32 = 0;
    while k < n
        invariant
            r.wf(),
            k <= n,
            s0 == old(r)@.rest,
            r@.out == old(r)@.out,
            r@.cancelled == old(r)@.cancelled,
            take_entries_v1001(s0, remove, k as nat) == Some((entries_view(v@), r@.rest)),
            forall|j: int| 0 <= j < v@.len() ==> entry_ok(#[trigger] v@[j].view()),
        decreases n - k,
    {
        match read_entry_v1001(r, remove) {
            Ok(e) => {
                let ghost before = v@;
                v.push(e);
                assert(entries_view(v@) =~= entries_view(before).push(e.view()));
            },
            Err(err) => {
                proof { lemma_entries_v1001_stuck(s0, remove, (k + 1) as nat, n as nat); }
                return Err(err);
            },
        }
        k = k + 1;
    }
    proof {
        assert forall|j: int| 0 <= j < entries_view(v@).len() implies entry_ok(#[trigger] entries_view(v@)[j]) by {
            assert(entries_view(v@)[j] == v@[j].view());
        }
    }
    Ok(v)
}

proof fn lemma_entries_v1001_stuck(s: Seq<u8>, remove: bool, i: nat, n: nat)
    requires
        i <= n,
        take_entries_v1001(s, remove, i) is None,
    ensures
        take_entries_v1001(s, remove, n) is None,
    decreases n - i,
{
    if i < n {
        lemma_entries_v1001_stuck(s, remove, i + 1, n);
    }
}

proof fn lemma_entries_v2168_stuck(s: Seq<u8>, i: nat, n: nat)
    requires
        i <= n,
        take_entries_v2168(s, i) is None,
    ensures
        take_entries_v2168(s, n) is None,
    decreases n - i,
{
    if i < n {
        lemma_entries_v2168_stuck(s, i + 1, n);
    }
}

fn read_holder_v2168(r: &mut PacketWrapper, variant: u32) -> (res: Result<Identity, DecodeError>)
    requires
        old(r).wf(),
    ensures
        final(r).wf(),
        match take_holder_v2168(variant, old(r)@.rest) {
            Some((h, rest)) => res matches Ok(x) && x.view() == h && holder_ok(h) && final(r)@ == (WireState { rest, ..old(r)@ }),
            None => res is Err,
        },
{
    if variant == VARIANT_CHANGE_PLAYER {
        Ok(Identity::Player(r.read_i64v()?))
    } else if variant == VARIANT_CHANGE_ENTITY {
        Ok(Identity::Entity(r.read_i64v()?))
    } else {
        Ok(Identity::FakePlayer(r.read_str()?))
    }
}

fn read_entry_v2168(r: &mut PacketWrapper) -> (res: Result<Entry, DecodeError>)
    requires
        old(r).wf(),
    ensures
        final(r).wf(),
        match take_entry_v2168(old(r)@.rest) {
            Some((e, rest)) => res matches Ok(x) && x.view() == e && entry_ok(e) && final(r)@ == (WireState { rest, ..old(r)@ }),
            None => res is Err,
        },
{
    let variant = r.read_u32v()?;
    let name = r.read_str()?;
    if variant > VARIANT_CHANGE_FAKE_PLAYER {
        return Err(DecodeError);
    }
    let expected = expected_name_bytes(variant);
    if !same_ignoring_case(&name, &expected) {
        return Err(DecodeError);
    }
    let id = r.read_i64v()?;
    if variant == VARIANT_REMOVE {
        let objective = if read_flag(r)? { Some(r.read_str()?) } else { None };
        return Ok(Entry { scoreboard_id: id, objective, score: 0, identity: None });
    }
    let obj = r.read_str()?;
    let score = read_i32le(r)?;
    let holder = read_holder_v2168(r, variant)?;
    Ok(Entry { scoreboard_id: id, objective: Some(obj), score, identity: Some(holder) })
}

fn read_entries_v2168(r: &mut PacketWrapper, n: u32) -> (res: Result<Vec<Entry>, DecodeError>)
    requires
        old(r).wf(),
    ensures
        final(r).wf(),
        match take_entries_v2168(old(r)@.rest, n as nat) {
            Some((es, rest)) => res matches Ok(v) && entries_view(v@) == es
                && (forall|j: int| 0 <= j < es.len() ==> entry_ok(#[trigger] es[j]))
                && final(r)@ == (WireState { rest, ..old(r)@ }),
            None => res is Err,
        },
{
    let ghost s0 = old(r)@.rest;
    let mut v: Vec<Entry> = Vec::new();
    let mut k: u32 = 0;
    while k < n
        invariant
            r.wf(),
            k <= n,
            s0 == old(r)@.rest,
            r@.out == old(r)@.out,
            r@.cancelled == old(r)@.cancelled,
            take_entries_v2168(s0, k as nat) == Some((entries_view(v@), r@.rest)),
            forall|j: int| 0 <= j < v@.len() ==> entry_ok(#[trigger] v@[j].view()),
        decreases n - k,
    {
        match read_entry_v2168(r) {
            Ok(e) => {
                let ghost before = v@;
                v.push(e);
                assert(entries_view(v@) =~= entries_view(before).push(e.view()));
            },
            Err(err) => {
                proof { lemma_entries_v2168_stuck(s0, (k + 1) as nat, n as nat); }
                return Err(err);
            },
        }
        k = k + 1;
    }
    proof {
        assert forall|j: int| 0 <= j < entries_view(v@).len() implies entry_ok(#[trigger] entries_view(v@)[j]) by {
            assert(entries_view(v@)[j] == v@[j].view());
        }
    }
    Ok(v)
}

fn write_holder_body(w: &mut PacketWrapper, h: &Identity)
    requires
        old(w).wf(),
        holder_ok(h.view()),
    ensures
        final(w).wf(),
        final(w)@ == put(old(w)@, holder_body(h.view())),
{
    match h {
        Identity::Player(id) => w.write_i64v(*id),
        Identity::Entity(id) => w.write_i64v(*id),
        Identity::FakePlayer(n) => w.write_str(n.as_slice()),
    }
}

fn holder_variant_of(h: &Identity) -> (v: u32)
    ensures
        v == holder_variant(h.view()),
{
    match h {
        Identity::Player(_) => VARIANT_CHANGE_PLAYER,
        Identity::Entity(_) => VARIANT_CHANGE_ENTITY,
        Identity::FakePlayer(_) => VARIANT_CHANGE_FAKE_PLAYER,
    }
}

fn holder_kind_of(h: &Identity) -> (k: u8)
    ensures
        k == holder_kind(h.view()),
{
    match h {
        Identity::Player(_) => IDENTITY_PLAYER,
        Identity::Entity(_) => IDENTITY_ENTITY,
        Identity::FakePlayer(_) => IDENTITY_FAKE_PLAYER,
    }
}

fn write_entry_v2168(w: &mut PacketWrapper, e: &Entry)
    requires
        old(w).wf(),
        entry_ok(e.view()),
    ensures
        final(w).wf(),
        final(w)@ == put(old(w)@, entry_v2168(e.view())),
{
    let ghost o = old(w)@.out;
    match &e.identity {
        None => {
            w.write_u32v(VARIANT_REMOVE);
            let name = expected_name_bytes(VARIANT_REMOVE);
            w.write_str(name.as_slice());
            w.write_i64v(e.scoreboard_id);
            match &e.objective {
                Some(obj) => {
                    w.write_bool(true);
                    w.write_str(obj.as_slice());
                },
                None => {
                    w.write_bool(false);
                },
            }
        },
        Some(h) => {
            let variant = holder_variant_of(h);
            w.write_u32v(variant);
            let name = expected_name_bytes(variant);
            w.write_str(name.as_slice());
            w.write_i64v(e.scoreboard_id);
            match &e.objective {
                Some(obj) => {
                    w.write_str(obj.as_slice());
                },
                None => {
                    w.write_str(&[]);
                    assert(Seq::<u8>::empty() =~= objective_or_empty(e.view().objective));
                },
            }
            write_i32le(w, e.score);
            write_holder_body(w, h);
        },
    }
    assert(w@.out =~= o + entry_v2168(e.view()));
}

fn write_entry_v1001(w: &mut PacketWrapper, e: &Entry)
    requires
        old(w).wf(),
        entry_ok(e.view()),
    ensures
        final(w).wf(),
        final(w)@ == put(old(w)@, entry_v1001(e.view())),
{
    let ghost o = old(w)@.out;
    w.write_i64v(e.scoreboard_id);
    match &e.objective {
        Some(obj) => {
            w.write_str(obj.as_slice());
        },
        None => {
            w.write_str(&[]);
            assert(Seq::<u8>::empty() =~= objective_or_empty(e.view().objective));
        },
    }
    write_i32le(w, e.score);
    match &e.identity {
        Some(h) => {
            w.write_u8(holder_kind_of(h));
            write_holder_body(w, h);
        },
        None => {},
    }
    assert(w@.out =~= o + entry_v1001(e.view()));
}

fn write_entries(w: &mut PacketWrapper, v: &Vec<Entry>, to_v2168: bool)
    requires
        old(w).wf(),
        forall|j: int| 0 <= j < v@.len() ==> entry_ok(#[trigger] v@[j].view()),
    ensures
        final(w).wf(),
        final(w)@ == put(old(w)@, if to_v2168 { entries_v2168(entries_view(v@)) } else { entries_v1001(entries_view(v@)) }),
{
    let ghost es = entries_view(v@);
    let mut k: usize = 0;
    assert(es.take(0) =~= Seq::<ScoreEntry>::empty());
    assert(old(w)@.out + Seq::<u8>::empty() =~= old(w)@.out);
    while k < v.len()
        invariant
            w.wf(),
            k <= v@.len(),
            es == entries_view(v@),
            forall|j: int| 0 <= j < v@.len() ==> entry_ok(#[trigger] v@[j].view()),
            w@ == put(old(w)@, if to_v2168 { entries_v2168(es.take(k as int)) } else { entries_v1001(es.take(k as int)) }),
        decreases v@.len() - k,
    {
        assert(entry_ok(v@[k as int].view()));
        if to_v2168 {
            write_entry_v2168(w, &v[k]);
        } else {
            write_entry_v1001(w, &v[k]);
        }
        assert(es.take(k + 1).drop_last() =~= es.take(k as int));
        assert(es.take(k + 1).last() == v@[k as int].view());
        assert(w@.out =~= old(w)@.out + if to_v2168 { entries_v2168(es.take(k + 1)) } else { entries_v1001(es.take(k + 1)) });
        k = k + 1;
    }
    assert(es.take(v@.len() as int) =~= es);
}

/// Whether the entries can be written the protocol-1001 way, and the
/// action they are written with.
fn v1001_action(v: &Vec<Entry>) -> (r: Option<u8>)
    ensures
        ({
            let es = entries_view(v@);
            match encode_score_v1001(es) {
                Some(_) => r == Some(if changes(es) == 0 && es.len() > 0 { ACTION_REMOVE } else { ACTION_CHANGE }),
                None => r is None,
            }
        }),
{
    let ghost es = entries_view(v@);
    let mut c: usize = 0;
    let mut missing = false;
    let mut k: usize = 0;
    while k < v.len()
        invariant
            k <= v@.len(),
            es == entries_view(v@),
            c == changes(es.take(k as int)),
            c <= k,
            missing == exists|i: int| 0 <= i < k && (#[trigger] es[i]).objective is None,
        decreases v@.len() - k,
    {
        assert(es.take(k + 1).drop_last() =~= es.take(k as int));
        assert(es[k as int] == v@[k as int].view());
        if v[k].identity.is_some() {
            c = c + 1;
        }
        if v[k].objective.is_none() {
            missing = true;
        }
        k = k + 1;
    }
    assert(es.take(v@.len() as int) =~= es);
    if c != 0 && c != v.len() {
        return None;
    }
    if missing {
        return None;
    }
    if c == 0 && v.len() > 0 { Some(ACTION_REMOVE) } else { Some(ACTION_CHANGE) }
}

proof fn lemma_entries_ok(v: Seq<Entry>)
    requires
        forall|j: int| 0 <= j < entries_view(v).len() ==> entry_ok(#[trigger] entries_view(v)[j]),
    ensures
        forall|j: int| 0 <= j < v.len() ==> entry_ok(#[trigger] v[j].view()),
{
    assert forall|j: int| 0 <= j < v.len() implies entry_ok(#[trigger] v[j].view()) by {
        assert(entries_view(v)[j] == v[j].view());
    }
}

/// Reads a whole SetScore body of protocol `!to_v2168` (all of `rd`).
fn read_score(rd: &mut PacketWrapper, to_v2168: bool) -> (res: Result<Vec<Entry>, DecodeError>)
    requires
        old(rd).wf(),
    ensures
        match (if to_v2168 { decode_score_v1001(old(rd)@.rest) } else { decode_score_v2168(old(rd)@.rest) }) {
            Some(es) => res matches Ok(v) && entries_view(v@) == es
                && (forall|j: int| 0 <= j < v@.len() ==> entry_ok(#[trigger] v@[j].view())),
            None => res is Err,
        },
{
    let entries = if to_v2168 {
        let action = rd.read_u8()?;
        if action != ACTION_CHANGE && action != ACTION_REMOVE {
            return Err(DecodeError);
        }
        let count = rd.read_u32v()?;
        read_entries_v1001(rd, action == ACTION_REMOVE, count)?
    } else {
        let count = rd.read_u32v()?;
        read_entries_v2168(rd, count)?
    };
    if rd.has_remaining() {
        return Err(DecodeError);
    }
    proof { lemma_entries_ok(entries@); }
    Ok(entries)
}

/// Reads a protocol-2168 SetScore list: the count and the entries.
pub fn read_score_v2168(r: &mut PacketWrapper) -> (res: Result<Vec<Entry>, DecodeError>)
    requires
        old(r).wf(),
    ensures
        final(r).wf(),
        match take_u32v(old(r)@.rest) {
            Some((n, r1)) => match take_entries_v2168(r1, n as nat) {
                Some((es, rest)) => res matches Ok(v) && entries_view(v@) == es
                    && (forall|j: int| 0 <= j < es.len() ==> entry_ok(#[trigger] es[j]))
                    && final(r)@ == (WireState { rest, ..old(r)@ }),
                None => res is Err,
            },
            None => res is Err,
        },
{
    let count = r.read_u32v()?;
    read_entries_v2168(r, count)
}

/// Writes a SetScore list the protocol-2168 way.
pub fn write_score_v2168(w: &mut PacketWrapper, entries: &Vec<Entry>)
    requires
        old(w).wf(),
        forall|j: int| 0 <= j < entries@.len() ==> entry_ok(#[trigger] entries@[j].view()),
    ensures
        final(w).wf(),
        final(w)@ == put(old(w)@, encode_score_v2168(entries_view(entries@))),
{
    let ghost o = old(w)@.out;
    w.write_u32v(entries.len() as u32);
    write_entries(w, entries, true);
    assert(w@.out =~= o + encode_score_v2168(entries_view(entries@)));
}

/// Rewrites a SetScore body: `Ok(true)` with the body rewritten, `Ok(false)`
/// when the older form cannot express it, an error when it cannot be read.
/// The body is consumed in every case.
pub fn score_body(w: &mut PacketWrapper, to_v2168: bool) -> (r: Result<bool, DecodeError>)
    requires
        old(w).wf(),
    ensures
        final(w).wf(),
        match spec_score_body(old(w)@.rest, to_v2168) {
            None => r is Err && final(w)@ == (WireState { rest: Seq::empty(), ..old(w)@ }),
            Some(None) => r == Ok::<bool, DecodeError>(false) && final(w)@ == (WireState { rest: Seq::empty(), ..old(w)@ }),
            Some(Some(b)) => r == Ok::<bool, DecodeError>(true)
                && final(w)@ == (WireState { rest: Seq::empty(), out: old(w)@.out + b, ..old(w)@ }),
        },
{
    let n = w.remaining_len();
    let body = match w.read_fixed(n) {
        Ok(b) => b,
        Err(e) => return Err(e),
    };
    assert(body@ =~= old(w)@.rest);
    assert(w@.rest =~= Seq::<u8>::empty());
    let mut rd = PacketWrapper::new(body.as_slice());
    let entries = read_score(&mut rd, to_v2168)?;
    let ghost es = entries_view(entries@);
    let ghost o = w@.out;
    if to_v2168 {
        w.write_u32v(entries.len() as u32);
        write_entries(w, &entries, true);
        assert(w@.out =~= o + encode_score_v2168(es));
        Ok(true)
    } else {
        match v1001_action(&entries) {
            None => Ok(false),
            Some(action) => {
                w.write_u8(action);
                w.write_u32v(entries.len() as u32);
                write_entries(w, &entries, false);
                assert(w@.out =~= o + encode_score_v1001(es).unwrap());
                Ok(true)
            },
        }
    }
}

/// One scoreboard identity: the scoreboard id and, for an update, the
/// player's actor id.
pub struct IdentityRecord {
    pub scoreboard_id: i64,
    pub player_id: Option<i64>,
}

/// `n` protocol-1001 identities, each with a player id exactly when
/// `update`.
pub open spec fn take_identities_v1001(s: Seq<u8>, update: bool, n: nat) -> Option<(Seq<IdentityRecord>, Seq<u8>)>
    decreases n,
{
    if n == 0 {
        Some((Seq::empty(), s))
    } else {
        match take_identities_v1001(s, update, (n - 1) as nat) {
            Some((es, r)) => match take_i64v(r) {
                Some((id, r2)) => if update {
                    match take_i64v(r2) {
                        Some((p, r3)) => Some((es.push(IdentityRecord { scoreboard_id: id, player_id: Some(p) }), r3)),
                        None => None,
                    }
                } else {
                    Some((es.push(IdentityRecord { scoreboard_id: id, player_id: None }), r2))
                },
                None => None,
            },
            None => None,
        }
    }
}

/// `n` protocol-2168 identities, each with an optional player id.
pub open spec fn take_identities_v2168(s: Seq<u8>, n: nat) -> Option<(Seq<IdentityRecord>, Seq<u8>)>
    decreases n,
{
    if n == 0 {
        Some((Seq::empty(), s))
    } else {
        match take_identities_v2168(s, (n - 1) as nat) {
            Some((es, r)) => match take_i64v(r) {
                Some((id, r2)) => match take_flag(r2) {
                    Some((has, r3)) => if has {
                        match take_i64v(r3) {
                            Some((p, r4)) => Some((es.push(IdentityRecord { scoreboard_id: id, player_id: Some(p) }), r4)),
                            None => None,
                        }
                    } else {
                        Some((es.push(IdentityRecord { scoreboard_id: id, player_id: None }), r3))
                    },
                    None => None,
                },
                None => None,
            },
            None => None,
        }
    }
}

/// A SetScoreboardIdentity body of protocol `!to_v2168`: the action
/// (update or remove), the count and the identities, with nothing after
/// them; with whether it updates.
pub open spec fn decode_identity(s: Seq<u8>, to_v2168: bool) -> Option<(bool, Seq<IdentityRecord>)> {
    match take_u8(s) {
        Some((action, r)) => if action != ACTION_CHANGE && action != ACTION_REMOVE {
            None
        } else {
            match take_u32v(r) {
                Some((n, r2)) => match if to_v2168 {
                    take_identities_v1001(r2, action == ACTION_CHANGE, n as nat)
                } else {
                    take_identities_v2168(r2, n as nat)
                } {
                    Some((es, r3)) => if r3.len() == 0 { Some((action == ACTION_CHANGE, es)) } else { None },
                    None => None,
                },
                None => None,
            }
        },
        None => None,
    }
}

/// An identity as protocol 2168 writes it.
pub open spec fn identity_v2168(e: IdentityRecord) -> Seq<u8> {
    ser_i64v(e.scoreboard_id) + match e.player_id {
        Some(p) => ser_bool(true) + ser_i64v(p),
        None => ser_bool(false),
    }
}

/// An identity as protocol 1001 writes it.
pub open spec fn identity_v1001(e: IdentityRecord) -> Seq<u8> {
    ser_i64v(e.scoreboard_id) + match e.player_id {
        Some(p) => ser_i64v(p),
        None => Seq::empty(),
    }
}

pub open spec fn identities(es: Seq<IdentityRecord>, to_v2168: bool) -> Seq<u8>
    decreases es.len(),
{
    if es.len() == 0 {
        Seq::empty()
    } else {
        identities(es.drop_last(), to_v2168) + if to_v2168 { identity_v2168(es.last()) } else { identity_v1001(es.last()) }
    }
}

/// A SetScoreboardIdentity body written toward `to_v2168`, where it can:
/// toward protocol 1001 an update needs every player id and a removal none.
pub open spec fn encode_identity(update: bool, es: Seq<IdentityRecord>, to_v2168: bool) -> Option<Seq<u8>> {
    if !to_v2168 && update && exists|i: int| 0 <= i < es.len() && (#[trigger] es[i]).player_id is None {
        None
    } else if !to_v2168 && !update && exists|i: int| 0 <= i < es.len() && (#[trigger] es[i]).player_id is Some {
        None
    } else {
        Some(ser_u8(if update { ACTION_CHANGE } else { ACTION_REMOVE }) + ser_u32v(es.len() as u32) + identities(es, to_v2168))
    }
}

/// What a SetScoreboardIdentity body becomes, as for `spec_score_body`.
pub open spec fn spec_identity_body(body: Seq<u8>, to_v2168: bool) -> Option<Option<Seq<u8>>> {
    match decode_identity(body, to_v2168) {
        Some((update, es)) => Some(encode_identity(update, es, to_v2168)),
        None => None,
    }
}

pub struct IdentityEntry {
    pub scoreboard_id: i64,
    pub player_id: Option<i64>,
}

impl IdentityEntry {
    pub open spec fn view(&self) -> IdentityRecord {
        IdentityRecord { scoreboard_id: self.scoreboard_id, player_id: self.player_id }
    }
}

pub open spec fn identities_view(v: Seq<IdentityEntry>) -> Seq<IdentityRecord> {
    v.map_values(|e: IdentityEntry| e.view())
}

proof fn lemma_identities_stuck(s: Seq<u8>, update: bool, to_v2168: bool, i: nat, n: nat)
    requires
        i <= n,
        (if to_v2168 { take_identities_v1001(s, update, i) } else { take_identities_v2168(s, i) }) is None,
    ensures
        (if to_v2168 { take_identities_v1001(s, update, n) } else { take_identities_v2168(s, n) }) is None,
    decreases n - i,
{
    if i < n {
        lemma_identities_stuck(s, update, to_v2168, i + 1, n);
    }
}

fn read_identities(r: &mut PacketWrapper, update: bool, n: u32, to_v2168: bool) -> (res: Result<Vec<IdentityEntry>, DecodeError>)
    requires
        old(r).wf(),
    ensures
        final(r).wf(),
        match (if to_v2168 { take_identities_v1001(old(r)@.rest, update, n as nat) } else {
            take_identities_v2168(old(r)@.rest, n as nat)
        }) {
            Some((es, rest)) => res matches Ok(v) && identities_view(v@) == es && final(r)@ == (WireState { rest, ..old(r)@ }),
            None => res is Err,
        },
{
    let ghost s0 = old(r)@.rest;
    let mut v: Vec<IdentityEntry> = Vec::new();
    let mut k: u32 = 0;
    while k < n
        invariant
            r.wf(),
            k <= n,
            s0 == old(r)@.rest,
            r@.out == old(r)@.out,
            r@.cancelled == old(r)@.cancelled,
            (if to_v2168 { take_identities_v1001(s0, update, k as nat) } else { take_identities_v2168(s0, k as nat) })
                == Some((identities_view(v@), r@.rest)),
        decreases n - k,
    {
        let ghost before = v@;
        let id = match r.read_i64v() {
            Ok(x) => x,
            Err(e) => {
                proof { lemma_identities_stuck(s0, update, to_v2168, (k + 1) as nat, n as nat); }
                return Err(e);
            },
        };
        let player = if to_v2168 {
            if update {
                match r.read_i64v() {
                    Ok(p) => Some(p),
                    Err(e) => {
                        proof { lemma_identities_stuck(s0, update, to_v2168, (k + 1) as nat, n as nat); }
                        return Err(e);
                    },
                }
            } else {
                None
            }
        } else {
            let has = match read_flag(r) {
                Ok(b) => b,
                Err(e) => {
                    proof { lemma_identities_stuck(s0, update, to_v2168, (k + 1) as nat, n as nat); }
                    return Err(e);
                },
            };
            if has {
                match r.read_i64v() {
                    Ok(p) => Some(p),
                    Err(e) => {
                        proof { lemma_identities_stuck(s0, update, to_v2168, (k + 1) as nat, n as nat); }
                        return Err(e);
                    },
                }
            } else {
                None
            }
        };
        let e = IdentityEntry { scoreboard_id: id, player_id: player };
        v.push(e);
        assert(identities_view(v@) =~= identities_view(before).push(e.view()));
        k = k + 1;
    }
    Ok(v)
}

fn write_identities(w: &mut PacketWrapper, v: &Vec<IdentityEntry>, to_v2168: bool)
    requires
        old(w).wf(),
    ensures
        final(w).wf(),
        final(w)@ == put(old(w)@, identities(identities_view(v@), to_v2168)),
{
    let ghost es = identities_view(v@);
    let mut k: usize = 0;
    assert(es.take(0) =~= Seq::<IdentityRecord>::empty());
    assert(old(w)@.out + Seq::<u8>::empty() =~= old(w)@.out);
    while k < v.len()
        invariant
            w.wf(),
            k <= v@.len(),
            es == identities_view(v@),
            w@ == put(old(w)@, identities(es.take(k as int), to_v2168)),
        decreases v@.len() - k,
    {
        let ghost before = w@.out;
        w.write_i64v(v[k].scoreboard_id);
        match v[k].player_id {
            Some(p) => {
                if to_v2168 {
                    w.write_bool(true);
                }
                w.write_i64v(p);
            },
            None => {
                if to_v2168 {
                    w.write_bool(false);
                }
            },
        }
        assert(es.take(k + 1).drop_last() =~= es.take(k as int));
        assert(es.take(k + 1).last() == v@[k as int].view());
        assert(w@.out =~= old(w)@.out + identities(es.take(k + 1), to_v2168));
        k = k + 1;
    }
    assert(es.take(v@.len() as int) =~= es);
}

/// Whether every identity has a player id exactly when `update`.
fn identities_fit(v: &Vec<IdentityEntry>, update: bool) -> (b: bool)
    ensures
        b == forall|j: int| 0 <= j < v@.len() ==> (#[trigger] identities_view(v@)[j]).player_id is Some == update,
{
    let ghost es = identities_view(v@);
    let mut k: usize = 0;
    while k < v.len()
        invariant
            k <= v@.len(),
            es == identities_view(v@),
            forall|j: int| 0 <= j < k ==> (#[trigger] es[j]).player_id is Some == update,
        decreases v@.len() - k,
    {
        assert(es[k as int] == v@[k as int].view());
        if v[k].player_id.is_some() != update {
            return false;
        }
        k = k + 1;
    }
    true
}

/// Rewrites a SetScoreboardIdentity body, as `score_body` does a SetScore
/// one.
pub fn identity_body(w: &mut PacketWrapper, to_v2168: bool) -> (r: Result<bool, DecodeError>)
    requires
        old(w).wf(),
    ensures
        final(w).wf(),
        match spec_identity_body(old(w)@.rest, to_v2168) {
            None => r is Err && final(w)@ == (WireState { rest: Seq::empty(), ..old(w)@ }),
            Some(None) => r == Ok::<bool, DecodeError>(false) && final(w)@ == (WireState { rest: Seq::empty(), ..old(w)@ }),
            Some(Some(b)) => r == Ok::<bool, DecodeError>(true)
                && final(w)@ == (WireState { rest: Seq::empty(), out: old(w)@.out + b, ..old(w)@ }),
        },
{
    let n = w.remaining_len();
    let body = match w.read_fixed(n) {
        Ok(b) => b,
        Err(e) => return Err(e),
    };
    assert(body@ =~= old(w)@.rest);
    assert(w@.rest =~= Seq::<u8>::empty());
    let mut rd = PacketWrapper::new(body.as_slice());
    let action = rd.read_u8()?;
    if action != ACTION_CHANGE && action != ACTION_REMOVE {
        return Err(DecodeError);
    }
    let update = action == ACTION_CHANGE;
    let count = rd.read_u32v()?;
    let entries = read_identities(&mut rd, update, count, to_v2168)?;
    if rd.has_remaining() {
        return Err(DecodeError);
    }
    let ghost es = identities_view(entries@);
    if !to_v2168 && !identities_fit(&entries, update) {
        return Ok(false);
    }
    let ghost o = w@.out;
    w.write_u8(if update { ACTION_CHANGE } else { ACTION_REMOVE });
    w.write_u32v(entries.len() as u32);
    write_identities(w, &entries, to_v2168);
    assert(w@.out =~= o + encode_identity(update, es, to_v2168).unwrap());
    Ok(true)
}

/// SetScore toward either protocol when the translation is `on`; a body
/// that cannot be read or cannot be expressed the older way is dropped, and
/// so is every body while the translation is off.
pub open spec fn spec_set_score(st: WireState, to_v2168: bool, identity: bool, on: bool) -> Option<WireState> {
    let body = if identity { spec_identity_body(st.rest, to_v2168) } else { spec_score_body(st.rest, to_v2168) };
    if !on {
        Some(WireState { cancelled: true, ..st })
    } else {
        match body {
            Some(Some(b)) => Some(WireState { rest: Seq::empty(), out: st.out + b, ..st }),
            _ => Some(WireState { rest: Seq::empty(), cancelled: true, ..st }),
        }
    }
}

/// The name a score packet is reported under.
pub open spec fn score_packet_name(identity: bool) -> Seq<char> {
    if identity { "SetScoreboardIdentity"@ } else { "SetScore"@ }
}

/// The id of the score packet.
pub open spec fn score_packet_id(identity: bool) -> u16 {
    if identity { packet_ids::SET_SCOREBOARD_IDENTITY } else { packet_ids::SET_SCORE }
}

/// The message a dropped score packet leaves, once per packet id: that the
/// translation is off, that the body cannot be expressed the older way, or
/// that it cannot be read.
pub open spec fn spec_score_note(st: WireState, to_v2168: bool, identity: bool, on: bool) -> Option<(Option<u16>, Seq<char>)> {
    let body = if identity { spec_identity_body(st.rest, to_v2168) } else { spec_score_body(st.rest, to_v2168) };
    let name = score_packet_name(identity);
    let id = score_packet_id(identity);
    if !on {
        Some((Some(id), name + ": dropped, CROSSBIND_SET_SCORE=off. A sidebar on a 1.26.40 client shows its title and no lines while this is off"@))
    } else {
        match body {
            Some(Some(_)) => None,
            Some(None) => Some((Some(id), name + ": dropped, this packet cannot be expressed in the older form"@)),
            None => Some((Some(id), name + ": dropped, cannot decode: malformed body"@)),
        }
    }
}

/// The SetScore handler (`identity` for SetScoreboardIdentity); `on` says
/// whether the translation is switched on.
pub fn set_score(
    w: &mut PacketWrapper,
    to_v2168: bool,
    identity: bool,
    on: bool,
    pending: &mut Vec<String>,
    reported: &mut Vec<u16>,
) -> (r: Result<(), DecodeError>)
    requires
        old(w).wf(),
    ensures
        final(w).wf(),
        r is Ok,
        Some(final(w)@) == spec_set_score(old(w)@, to_v2168, identity, on),
        (texts(final(pending)@), final(reported)@) == after_note(
            texts(old(pending)@),
            old(reported)@,
            spec_score_note(old(w)@, to_v2168, identity, on),
        ),
{
    let name = if identity { "SetScoreboardIdentity" } else { "SetScore" };
    let id = if identity { packet_ids::SET_SCOREBOARD_IDENTITY } else { packet_ids::SET_SCORE };
    proof {
        reveal_strlit("SetScoreboardIdentity");
        reveal_strlit("SetScore");
    }
    assert(name@ == score_packet_name(identity));
    if !on {
        let mut s = String::from_str(name);
        s.append(": dropped, CROSSBIND_SET_SCORE=off. A sidebar on a 1.26.40 client shows its title and no lines while this is off");
        leave_note(pending, reported, Some(id), s);
        w.cancel();
        return Ok(());
    }
    let done = if identity { identity_body(w, to_v2168) } else { score_body(w, to_v2168) };
    match done {
        Ok(true) => {},
        Ok(false) => {
            let mut s = String::from_str(name);
            s.append(": dropped, this packet cannot be expressed in the older form");
            leave_note(pending, reported, Some(id), s);
            w.cancel();
        },
        Err(_) => {
            let mut s = String::from_str(name);
            s.append(": dropped, cannot decode: malformed body");
            leave_note(pending, reported, Some(id), s);
            w.cancel();
        },
    }
    Ok(())
}

/// A score entry both protocols carry alike: its strings fit, a change
/// names its objective, and a removal's score is zero (protocol 2168 does
/// not carry it).
pub open spec fn entry_portable(e: ScoreEntry) -> bool {
    &&& entry_ok(e)
    &&& (e.identity is Some ==> e.objective is Some)
    &&& (e.identity is None ==> e.score == 0)
}

proof fn lemma_take_i32le(v: i32, t: Seq<u8>)
    ensures
        take_i32le(ser_i32le(v) + t) == Some((v, t)),
{
    crate::codec::lemma_take_fixed(le32(v as u32), t);
    crate::codec::lemma_le32_round_trip(v as u32, le32(v as u32));
    assert((v as u32) as i32 == v) by (bit_vector);
}

proof fn lemma_take_holder(h: ScoreHolder, t: Seq<u8>)
    requires
        holder_ok(h),
    ensures
        take_holder_v2168(holder_variant(h), holder_body(h) + t) == Some((h, t)),
        take_holder_v1001(ser_u8(holder_kind(h)) + holder_body(h) + t) == Some((h, t)),
{
    assert(ser_u8(holder_kind(h)) + holder_body(h) + t =~= ser_u8(holder_kind(h)) + (holder_body(h) + t));
    crate::codec::lemma_take_u8(holder_kind(h), holder_body(h) + t);
    match h {
        ScoreHolder::Player(id) => crate::codec::lemma_take_i64v(id, t),
        ScoreHolder::Entity(id) => crate::codec::lemma_take_i64v(id, t),
        ScoreHolder::FakePlayer(n) => crate::codec::lemma_take_str(n, t),
    }
}

proof fn lemma_name_matches(v: u32)
    ensures
        eq_ignore_case(expected_name(v), expected_name(v)),
        expected_name(v).len() < two32(),
{
}

#[verifier::rlimit(40)]
#[verifier::spinoff_prover]
proof fn lemma_take_removal_v2168(e: ScoreEntry, t: Seq<u8>)
    requires
        entry_portable(e),
        e.identity is None,
    ensures
        take_entry_v2168(entry_v2168(e) + t) == Some((e, t)),
{
    let name = expected_name(VARIANT_REMOVE);
    lemma_name_matches(VARIANT_REMOVE);
    let tail = match e.objective {
        Some(o) => ser_bool(true) + ser_str(o),
        None => ser_bool(false),
    };
    assert(entry_v2168(e) == ser_u32v(VARIANT_REMOVE) + ser_str(name) + ser_i64v(e.scoreboard_id) + tail);
    assert(entry_v2168(e) + t =~= ser_u32v(VARIANT_REMOVE) + (ser_str(name) + (ser_i64v(e.scoreboard_id) + (tail + t))));
    crate::codec::lemma_take_u32v(VARIANT_REMOVE, ser_str(name) + (ser_i64v(e.scoreboard_id) + (tail + t)));
    crate::codec::lemma_take_str(name, ser_i64v(e.scoreboard_id) + (tail + t));
    crate::codec::lemma_take_i64v(e.scoreboard_id, tail + t);
    match e.objective {
        Some(o) => {
            assert(tail + t =~= ser_u8(1u8) + (ser_str(o) + t));
            crate::codec::lemma_take_u8(1u8, ser_str(o) + t);
            crate::codec::lemma_take_str(o, t);
            assert(take_flag(tail + t) == Some((true, ser_str(o) + t)));
        },
        None => {
            assert(tail + t =~= ser_u8(0u8) + t);
            crate::codec::lemma_take_u8(0u8, t);
            assert(take_flag(tail + t) == Some((false, t)));
        },
    }
    assert(e == ScoreEntry { scoreboard_id: e.scoreboard_id, objective: e.objective, score: 0, identity: None });
}

#[verifier::rlimit(40)]
#[verifier::spinoff_prover]
proof fn lemma_take_change_v2168(e: ScoreEntry, h: ScoreHolder, t: Seq<u8>)
    requires
        entry_portable(e),
        e.identity == Some(h),
    ensures
        take_entry_v2168(entry_v2168(e) + t) == Some((e, t)),
{
    let v = holder_variant(h);
    let name = expected_name(v);
    lemma_name_matches(v);
    let obj = objective_or_empty(e.objective);
    let rest = ser_i32le(e.score) + (holder_body(h) + t);
    assert(entry_v2168(e) + t =~= ser_u32v(v) + (ser_str(name) + (ser_i64v(e.scoreboard_id) + (ser_str(obj) + rest))));
    crate::codec::lemma_take_u32v(v, ser_str(name) + (ser_i64v(e.scoreboard_id) + (ser_str(obj) + rest)));
    crate::codec::lemma_take_str(name, ser_i64v(e.scoreboard_id) + (ser_str(obj) + rest));
    crate::codec::lemma_take_i64v(e.scoreboard_id, ser_str(obj) + rest);
    crate::codec::lemma_take_str(obj, rest);
    lemma_take_i32le(e.score, holder_body(h) + t);
    lemma_take_holder(h, t);
    assert(e.objective is Some || obj.len() == 0);
}

proof fn lemma_take_entry_v2168(e: ScoreEntry, t: Seq<u8>)
    requires
        entry_portable(e),
    ensures
        take_entry_v2168(entry_v2168(e) + t) == Some((e, t)),
{
    match e.identity {
        None => lemma_take_removal_v2168(e, t),
        Some(h) => lemma_take_change_v2168(e, h, t),
    }
}

proof fn lemma_take_entry_v1001(e: ScoreEntry, t: Seq<u8>)
    requires
        entry_ok(e),
        e.objective is Some,
    ensures
        take_entry_v1001(entry_v1001(e) + t, e.identity is None) == Some((e, t)),
{
    let obj = e.objective.unwrap();
    let tail = match e.identity {
        Some(h) => ser_u8(holder_kind(h)) + holder_body(h),
        None => Seq::<u8>::empty(),
    };
    assert(entry_v1001(e) + t =~= ser_i64v(e.scoreboard_id) + (ser_str(obj) + (ser_i32le(e.score) + (tail + t))));
    crate::codec::lemma_take_i64v(e.scoreboard_id, ser_str(obj) + (ser_i32le(e.score) + (tail + t)));
    crate::codec::lemma_take_str(obj, ser_i32le(e.score) + (tail + t));
    lemma_take_i32le(e.score, tail + t);
    match e.identity {
        Some(h) => {
            lemma_take_holder(h, t);
        },
        None => {
            assert(tail + t =~= t);
        },
    }
}

proof fn lemma_take_entries_v2168(es: Seq<ScoreEntry>, t: Seq<u8>)
    requires
        forall|i: int| 0 <= i < es.len() ==> entry_portable(#[trigger] es[i]),
    ensures
        take_entries_v2168(entries_v2168(es) + t, es.len()) == Some((es, t)),
    decreases es.len(),
{
    if es.len() == 0 {
        assert(entries_v2168(es) + t =~= t);
        assert(es =~= Seq::<ScoreEntry>::empty());
    } else {
        let p = es.drop_last();
        let e = es.last();
        assert(entry_portable(es[es.len() - 1]));
        assert forall|i: int| 0 <= i < p.len() implies entry_portable(#[trigger] p[i]) by {
            assert(p[i] == es[i]);
        }
        lemma_take_entries_v2168(p, entry_v2168(e) + t);
        assert(entries_v2168(es) + t =~= entries_v2168(p) + (entry_v2168(e) + t));
        lemma_take_entry_v2168(e, t);
        assert(p.push(e) =~= es);
    }
}

proof fn lemma_take_entries_v1001(es: Seq<ScoreEntry>, remove: bool, t: Seq<u8>)
    requires
        forall|i: int| 0 <= i < es.len() ==> entry_ok(#[trigger] es[i]) && es[i].objective is Some
            && (es[i].identity is None) == remove,
    ensures
        take_entries_v1001(entries_v1001(es) + t, remove, es.len()) == Some((es, t)),
    decreases es.len(),
{
    if es.len() == 0 {
        assert(entries_v1001(es) + t =~= t);
        assert(es =~= Seq::<ScoreEntry>::empty());
    } else {
        let p = es.drop_last();
        let e = es.last();
        assert(entry_ok(es[es.len() - 1]) && es[es.len() - 1].objective is Some);
        assert forall|i: int| 0 <= i < p.len() implies entry_ok(#[trigger] p[i]) && p[i].objective is Some
            && (p[i].identity is None) == remove by {
            assert(p[i] == es[i]);
        }
        lemma_take_entries_v1001(p, remove, entry_v1001(e) + t);
        assert(entries_v1001(es) + t =~= entries_v1001(p) + (entry_v1001(e) + t));
        lemma_take_entry_v1001(e, t);
        assert(p.push(e) =~= es);
    }
}

/// The number of changes is the number of entries with a holder.
proof fn lemma_changes(es: Seq<ScoreEntry>)
    ensures
        changes(es) <= es.len(),
        (forall|i: int| 0 <= i < es.len() ==> (#[trigger] es[i]).identity is Some) ==> changes(es) == es.len(),
        (forall|i: int| 0 <= i < es.len() ==> (#[trigger] es[i]).identity is None) ==> changes(es) == 0,
        changes(es) == es.len() ==> forall|i: int| 0 <= i < es.len() ==> (#[trigger] es[i]).identity is Some,
        changes(es) == 0 ==> forall|i: int| 0 <= i < es.len() ==> (#[trigger] es[i]).identity is None,
    decreases es.len(),
{
    if es.len() > 0 {
        let p = es.drop_last();
        lemma_changes(p);
        assert forall|i: int| 0 <= i < p.len() implies p[i] == es[i] by {}
    }
}

/// What protocol 2168's SetScore writer writes, its reader gives back,
/// where every change names its objective and every removal's score is
/// zero.
pub proof fn law_score_v2168_round_trip(es: Seq<ScoreEntry>)
    requires
        es.len() <= u32::MAX,
        forall|i: int| 0 <= i < es.len() ==> entry_portable(#[trigger] es[i]),
    ensures
        decode_score_v2168(encode_score_v2168(es)) == Some(es),
{
    let e = Seq::<u8>::empty();
    lemma_take_entries_v2168(es, e);
    assert(encode_score_v2168(es) =~= ser_u32v(es.len() as u32) + (entries_v2168(es) + e));
    crate::codec::lemma_take_u32v(es.len() as u32, entries_v2168(es) + e);
}

/// What protocol 1001's SetScore writer writes, where it can, its reader
/// gives back.
pub proof fn law_score_v1001_round_trip(es: Seq<ScoreEntry>)
    requires
        es.len() <= u32::MAX,
        forall|i: int| 0 <= i < es.len() ==> entry_ok(#[trigger] es[i]),
        encode_score_v1001(es) is Some,
    ensures
        decode_score_v1001(encode_score_v1001(es).unwrap()) == Some(es),
{
    let e = Seq::<u8>::empty();
    lemma_changes(es);
    let remove = changes(es) == 0 && es.len() > 0;
    let action = if remove { ACTION_REMOVE } else { ACTION_CHANGE };
    assert forall|i: int| 0 <= i < es.len() implies entry_ok(#[trigger] es[i]) && es[i].objective is Some
        && (es[i].identity is None) == remove by {
        if es[i].objective is None {
            assert(exists|j: int| 0 <= j < es.len() && (#[trigger] es[j]).objective is None);
        }
    }
    lemma_take_entries_v1001(es, remove, e);
    let x = encode_score_v1001(es).unwrap();
    assert(x =~= ser_u8(action) + (ser_u32v(es.len() as u32) + (entries_v1001(es) + e)));
    crate::codec::lemma_take_u8(action, ser_u32v(es.len() as u32) + (entries_v1001(es) + e));
    crate::codec::lemma_take_u32v(es.len() as u32, entries_v1001(es) + e);
    assert((action == ACTION_REMOVE) == remove);
}

/// A SetScore taken from protocol 1001 to 2168 and back, or from 2168 to
/// 1001 and back, is unchanged, where its entries all change scores or all
/// remove them (with zero scores), and each names its objective.
pub proof fn law_set_score_round_trip(es: Seq<ScoreEntry>)
    requires
        es.len() <= u32::MAX,
        forall|i: int| 0 <= i < es.len() ==> entry_portable(#[trigger] es[i]),
        encode_score_v1001(es) is Some,
    ensures
        spec_score_body(encode_score_v1001(es).unwrap(), true) == Some(Some(encode_score_v2168(es))),
        spec_score_body(encode_score_v2168(es), false) == Some(Some(encode_score_v1001(es).unwrap())),
{
    law_score_v1001_round_trip(es);
    law_score_v2168_round_trip(es);
}

/// Identities both protocols carry alike: protocol 1001's reader gives a
/// player id exactly with an update.
pub open spec fn identities_fit_update(update: bool, es: Seq<IdentityRecord>) -> bool {
    forall|i: int| 0 <= i < es.len() ==> (#[trigger] es[i]).player_id is Some == update
}

#[verifier::rlimit(60)]
#[verifier::spinoff_prover]
proof fn lemma_take_identities(es: Seq<IdentityRecord>, update: bool, t: Seq<u8>)
    requires
        identities_fit_update(update, es),
    ensures
        take_identities_v1001(identities(es, false) + t, update, es.len()) == Some((es, t)),
        take_identities_v2168(identities(es, true) + t, es.len()) == Some((es, t)),
    decreases es.len(),
{
    if es.len() == 0 {
        assert(identities(es, false) + t =~= t);
        assert(identities(es, true) + t =~= t);
        assert(es =~= Seq::<IdentityRecord>::empty());
    } else {
        let p = es.drop_last();
        let e = es.last();
        assert(es[es.len() - 1].player_id is Some == update);
        assert forall|i: int| 0 <= i < p.len() implies (#[trigger] p[i]).player_id is Some == update by {
            assert(p[i] == es[i]);
        }
        lemma_take_identities(p, update, identity_v1001(e) + t);
        lemma_take_identities(p, update, identity_v2168(e) + t);
        assert(identities(es, false) + t =~= identities(p, false) + (identity_v1001(e) + t));
        assert(identities(es, true) + t =~= identities(p, true) + (identity_v2168(e) + t));
        match e.player_id {
            Some(pid) => {
                assert(identity_v1001(e) + t =~= ser_i64v(e.scoreboard_id) + (ser_i64v(pid) + t));
                crate::codec::lemma_take_i64v(e.scoreboard_id, ser_i64v(pid) + t);
                crate::codec::lemma_take_i64v(pid, t);
                assert(identity_v2168(e) + t =~= ser_i64v(e.scoreboard_id) + (ser_u8(1u8) + (ser_i64v(pid) + t)));
                crate::codec::lemma_take_i64v(e.scoreboard_id, ser_u8(1u8) + (ser_i64v(pid) + t));
                crate::codec::lemma_take_u8(1u8, ser_i64v(pid) + t);
            },
            None => {
                assert(identity_v1001(e) + t =~= ser_i64v(e.scoreboard_id) + t);
                crate::codec::lemma_take_i64v(e.scoreboard_id, t);
                assert(identity_v2168(e) + t =~= ser_i64v(e.scoreboard_id) + (ser_u8(0u8) + t));
                crate::codec::lemma_take_i64v(e.scoreboard_id, ser_u8(0u8) + t);
                crate::codec::lemma_take_u8(0u8, t);
            },
        }
        assert(p.push(e) =~= es);
    }
}

/// A SetScoreboardIdentity taken from protocol 1001 to 2168 and back, or
/// from 2168 to 1001 and back, is unchanged, where every identity has a
/// player id exactly when the packet updates.
pub proof fn law_set_scoreboard_identity_round_trip(update: bool, es: Seq<IdentityRecord>)
    requires
        es.len() <= u32::MAX,
        identities_fit_update(update, es),
    ensures
        encode_identity(update, es, false) is Some,
        spec_identity_body(encode_identity(update, es, false).unwrap(), true) == Some(encode_identity(update, es, true)),
        spec_identity_body(encode_identity(update, es, true).unwrap(), false) == Some(encode_identity(update, es, false)),
{
    let e = Seq::<u8>::empty();
    let action = if update { ACTION_CHANGE } else { ACTION_REMOVE };
    lemma_take_identities(es, update, e);
    if update {
        assert(!exists|i: int| 0 <= i < es.len() && (#[trigger] es[i]).player_id is None);
    } else {
        assert(!exists|i: int| 0 <= i < es.len() && (#[trigger] es[i]).player_id is Some);
    }
    let x = encode_identity(update, es, false).unwrap();
    let y = encode_identity(update, es, true).unwrap();
    assert(x =~= ser_u8(action) + (ser_u32v(es.len() as u32) + (identities(es, false) + e)));
    assert(y =~= ser_u8(action) + (ser_u32v(es.len() as u32) + (identities(es, true) + e)));
    crate::codec::lemma_take_u8(action, ser_u32v(es.len() as u32) + (identities(es, false) + e));
    crate::codec::lemma_take_u8(action, ser_u32v(es.len() as u32) + (identities(es, true) + e));
    crate::codec::lemma_take_u32v(es.len() as u32, identities(es, false) + e);
    crate::codec::lemma_take_u32v(es.len() as u32, identities(es, true) + e);
}

} // verus!
