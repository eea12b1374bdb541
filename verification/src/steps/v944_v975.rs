//! Protocol 944 and protocol 975: several packets gained a trailing
//! optional field (written as absent toward 975, removed toward 944), two
//! sounds were inserted at 599, and movement prediction gained three floats.
use vstd::prelude::*;
use crate::codec::{
    field_len, lemma_bool_round_trip, lemma_field_prefix, lemma_u32v_round_trip, parse_bool,
    parse_u32v, parse_u8, ser_bool, ser_u32v, ser_u8, zeros, DecodeError, Field,
};
use crate::direction::Direction;
use crate::handler::Handler;
use crate::mapping::IdShift;
use crate::packet_ids;
use crate::rewriter::SoundRewriter;
use crate::translator::Translator;
use crate::wrapper::{
    copied, dropped, fields_len, finished, lemma_pass_fields_replay, lemma_pass_replay, list_len, pass,
    pass_fields, put, skip, start, PacketWrapper, WireState,
};

verus! {

/// The sounds inserted in protocol 975.
pub open spec fn sound() -> IdShift {
    IdShift { insert_at: 599, count: 2 }
}

/// The trailing optional field of protocol 975: written as absent toward
/// 975 (`to_v975`); toward 944 its flag is read and, when set, its `payload`
/// bytes are dropped.
pub open spec fn spec_trailing_optional(st: WireState, to_v975: bool, payload: Field) -> Option<WireState> {
    if to_v975 {
        Some(put(st, ser_bool(false)))
    } else {
        match parse_bool(st.rest) {
            Some((present, n)) => if present {
                skip(dropped(st, n), payload)
            } else {
                Some(dropped(st, n))
            },
            None => None,
        }
    }
}

fn trailing_optional(w: &mut PacketWrapper, to_v975: bool, payload: Field) -> (r: Result<(), DecodeError>)
    requires
        old(w).wf(),
    ensures
        final(w).wf(),
        match spec_trailing_optional(old(w)@, to_v975, payload) {
            Some(st) => r is Ok && final(w)@ == st,
            None => r is Err,
        },
{
    if to_v975 {
        w.write_bool(false);
    } else if w.read_bool()? {
        w.skip(payload)?;
    }
    Ok(())
}

/// PlaySound: the sound name, the position, volume and pitch are kept; the
/// trailing optional (an 8-byte value) follows.
pub open spec fn play_sound_fields() -> Seq<Field> {
    seq![Field::Str, Field::VarInt, Field::VarInt, Field::VarInt, Field::Fixed(4), Field::Fixed(4)]
}

pub open spec fn spec_play_sound(st: WireState, to_v975: bool) -> Option<WireState> {
    match pass_fields(st, play_sound_fields()) {
        Some(s) => spec_trailing_optional(s, to_v975, Field::Fixed(8)),
        None => None,
    }
}

pub fn play_sound(w: &mut PacketWrapper, to_v975: bool) -> (r: Result<(), DecodeError>)
    requires
        old(w).wf(),
    ensures
        final(w).wf(),
        match spec_play_sound(old(w)@, to_v975) {
            Some(st) => r is Ok && final(w)@ == st,
            None => r is Err,
        },
{
    let fs = vec![Field::Str, Field::VarInt, Field::VarInt, Field::VarInt, Field::Fixed(4), Field::Fixed(4)];
    assert(fs@.skip(0) =~= play_sound_fields());
    w.passthrough_fields(fs.as_slice(), 0)?;
    trailing_optional(w, to_v975, Field::Fixed(8))
}

/// ActorEvent: the actor id, event and data are kept; the trailing optional
/// (a position) follows.
pub open spec fn actor_event_fields() -> Seq<Field> {
    seq![Field::UVarInt64, Field::Byte, Field::VarInt]
}

pub open spec fn spec_actor_event(st: WireState, to_v975: bool) -> Option<WireState> {
    match pass_fields(st, actor_event_fields()) {
        Some(s) => spec_trailing_optional(s, to_v975, Field::Fixed(12)),
        None => None,
    }
}

pub fn actor_event(w: &mut PacketWrapper, to_v975: bool) -> (r: Result<(), DecodeError>)
    requires
        old(w).wf(),
    ensures
        final(w).wf(),
        match spec_actor_event(old(w)@, to_v975) {
            Some(st) => r is Ok && final(w)@ == st,
            None => r is Err,
        },
{
    let fs = vec![Field::UVarInt64, Field::Byte, Field::VarInt];
    assert(fs@.skip(0) =~= actor_event_fields());
    w.passthrough_fields(fs.as_slice(), 0)?;
    trailing_optional(w, to_v975, Field::Fixed(12))
}

/// LevelSoundEvent: the sound id moves across the inserted sounds; the
/// position, extra data, actor type, two flags and the actor id are kept;
/// the trailing optional (a position) follows.
pub open spec fn level_sound_event_fields() -> Seq<Field> {
    seq![Field::Fixed(12), Field::VarInt, Field::Str, Field::Byte, Field::Byte, Field::Fixed(8)]
}

pub open spec fn spec_level_sound_event(st: WireState, to_v975: bool) -> Option<WireState> {
    match parse_u32v(st.rest) {
        Some((event, n)) => {
            let mapped = if to_v975 { sound().spec_up(event) } else { sound().spec_down(event) };
            match pass_fields(put(dropped(st, n), ser_u32v(mapped)), level_sound_event_fields()) {
                Some(s) => spec_trailing_optional(s, to_v975, Field::Fixed(12)),
                None => None,
            }
        },
        None => None,
    }
}

pub fn level_sound_event(w: &mut PacketWrapper, to_v975: bool) -> (r: Result<(), DecodeError>)
    requires
        old(w).wf(),
    ensures
        final(w).wf(),
        match spec_level_sound_event(old(w)@, to_v975) {
            Some(st) => r is Ok && final(w)@ == st,
            None => r is Err,
        },
{
    let event = w.read_u32v()?;
    let shift = IdShift::inserted(2, 599);
    let mapped = if to_v975 { shift.up(event) } else { shift.down(event) };
    w.write_u32v(mapped);
    let fs = vec![Field::Fixed(12), Field::VarInt, Field::Str, Field::Byte, Field::Byte, Field::Fixed(8)];
    assert(fs@.skip(0) =~= level_sound_event_fields());
    w.passthrough_fields(fs.as_slice(), 0)?;
    trailing_optional(w, to_v975, Field::Fixed(12))
}

/// PartyChanged: when a party is present, its id is kept and the party
/// gains (toward 975) or loses (toward 944) a flag.
pub open spec fn spec_party_changed(st: WireState, to_v975: bool) -> Option<WireState> {
    match parse_bool(st.rest) {
        Some((present, n)) => {
            let s1 = pass(st, Field::Byte).unwrap();
            if present {
                match pass(s1, Field::Str) {
                    Some(s2) => if to_v975 {
                        Some(put(s2, ser_bool(false)))
                    } else {
                        skip(s2, Field::Byte)
                    },
                    None => None,
                }
            } else {
                Some(s1)
            }
        },
        None => None,
    }
}

pub fn party_changed(w: &mut PacketWrapper, to_v975: bool) -> (r: Result<(), DecodeError>)
    requires
        old(w).wf(),
    ensures
        final(w).wf(),
        match spec_party_changed(old(w)@, to_v975) {
            Some(st) => r is Ok && final(w)@ == st,
            None => r is Err,
        },
{
    if w.pass_bool()? {
        w.passthrough(Field::Str)?;
        if to_v975 {
            w.write_bool(false);
        } else {
            w.skip(Field::Byte)?;
        }
    }
    Ok(())
}

/// UpdateClientOptions: the optional graphics mode is kept; the trailing
/// optional (one byte) follows.
pub open spec fn spec_update_client_options(st: WireState, to_v975: bool) -> Option<WireState> {
    match parse_bool(st.rest) {
        Some((present, n)) => {
            let s1 = pass(st, Field::Byte).unwrap();
            let s2 = if present { pass(s1, Field::Byte) } else { Some(s1) };
            match s2 {
                Some(s) => spec_trailing_optional(s, to_v975, Field::Byte),
                None => None,
            }
        },
        None => None,
    }
}

pub fn update_client_options(w: &mut PacketWrapper, to_v975: bool) -> (r: Result<(), DecodeError>)
    requires
        old(w).wf(),
    ensures
        final(w).wf(),
        match spec_update_client_options(old(w)@, to_v975) {
            Some(st) => r is Ok && final(w)@ == st,
            None => r is Err,
        },
{
    if w.pass_bool()? {
        w.passthrough(Field::Byte)?;
    }
    trailing_optional(w, to_v975, Field::Byte)
}

/// ClientMovementPredictionSync: the flag bitset and nine floats are kept;
/// three floats are appended as zero toward 975 and removed toward 944; the
/// actor id and a flag follow.
pub open spec fn spec_client_movement_prediction_sync(st: WireState, to_v975: bool) -> Option<WireState> {
    match pass_fields(st, seq![Field::Bitset, Field::Fixed(36)]) {
        Some(s1) => {
            let s2 = if to_v975 { Some(put(s1, zeros(12))) } else { skip(s1, Field::Fixed(12)) };
            match s2 {
                Some(s) => pass_fields(s, seq![Field::VarInt64, Field::Byte]),
                None => None,
            }
        },
        None => None,
    }
}

pub fn client_movement_prediction_sync(w: &mut PacketWrapper, to_v975: bool) -> (r: Result<(), DecodeError>)
    requires
        old(w).wf(),
    ensures
        final(w).wf(),
        match spec_client_movement_prediction_sync(old(w)@, to_v975) {
            Some(st) => r is Ok && final(w)@ == st,
            None => r is Err,
        },
{
    let head = vec![Field::Bitset, Field::Fixed(36)];
    assert(head@.skip(0) =~= seq![Field::Bitset, Field::Fixed(36)]);
    w.passthrough_fields(head.as_slice(), 0)?;
    if to_v975 {
        w.write_zeros(12);
    } else {
        w.skip(Field::Fixed(12))?;
    }
    let tail = vec![Field::VarInt64, Field::Byte];
    assert(tail@.skip(0) =~= seq![Field::VarInt64, Field::Byte]);
    w.passthrough_fields(tail.as_slice(), 0)
}

// ---------------------------------------------------------------------------
// PlayerEnchantOptions and LocatorBar: lists whose items change shape.

/// `n` items, each rewritten by `f`, one after the other.
pub open spec fn each_item(st: WireState, n: nat, f: spec_fn(WireState) -> Option<WireState>) -> Option<WireState>
    decreases n,
{
    if n == 0 {
        Some(st)
    } else {
        match f(st) {
            Some(s) => each_item(s, (n - 1) as nat, f),
            None => None,
        }
    }
}

/// A list whose items are rewritten by `f`: the count is copied, then the
/// items.
pub open spec fn spec_each(st: WireState, f: spec_fn(WireState) -> Option<WireState>) -> Option<WireState> {
    match parse_u32v(st.rest) {
        Some((n, m)) => each_item(copied(st, m), n as nat, f),
        None => None,
    }
}

/// Two-byte records.
pub open spec fn byte_pairs() -> Seq<Field> {
    seq![Field::Byte, Field::Byte]
}

/// The length of what follows an enchant option's cost: a four-byte value,
/// three lists of byte pairs, a string and a variable-length integer.
pub open spec fn option_tail_len(s: Seq<u8>) -> Option<nat> {
    match fields_len(seq![Field::Fixed(4)], s) {
        Some(a) => match list_len(byte_pairs(), s.skip(a as int)) {
            Some(b) => match list_len(byte_pairs(), s.skip((a + b) as int)) {
                Some(c) => match list_len(byte_pairs(), s.skip((a + b + c) as int)) {
                    Some(d) => match fields_len(seq![Field::Str, Field::UVarInt], s.skip((a + b + c + d) as int)) {
                        Some(e) => Some(a + b + c + d + e),
                        None => None,
                    },
                    None => None,
                },
                None => None,
            },
            None => None,
        },
        None => None,
    }
}

/// The cost of an enchant option as protocol 975 writes it: a byte, 255
/// for larger costs.
pub open spec fn cost_byte(c: u32) -> u8 {
    if c > 255 { 255 } else { c as u8 }
}

/// One enchant option: toward 975 its variable-length cost becomes a byte,
/// toward 944 its byte cost becomes a variable-length integer; the rest is
/// copied.
#[verifier::opaque]
pub open spec fn spec_enchant_option(st: WireState, to_v975: bool) -> Option<WireState> {
    let s1 = if to_v975 {
        match parse_u32v(st.rest) {
            Some((c, n)) => Some(put(dropped(st, n), ser_u8(cost_byte(c)))),
            None => None,
        }
    } else {
        match parse_u8(st.rest) {
            Some((c, n)) => Some(put(dropped(st, n), ser_u32v(c as u32))),
            None => None,
        }
    };
    match s1 {
        Some(s) => match option_tail_len(s.rest) {
            Some(m) => Some(copied(s, m)),
            None => None,
        },
        None => None,
    }
}

pub open spec fn enchant_step(to_v975: bool) -> spec_fn(WireState) -> Option<WireState> {
    |st: WireState| spec_enchant_option(st, to_v975)
}

/// PlayerEnchantOptions: every option's cost changes width.
pub open spec fn spec_player_enchant_options(st: WireState, to_v975: bool) -> Option<WireState> {
    spec_each(st, enchant_step(to_v975))
}

proof fn lemma_copied_twice(st: WireState, a: nat, b: nat)
    requires
        a + b <= st.rest.len(),
    ensures
        copied(copied(st, a), b) == copied(st, a + b),
{
    assert(st.rest.skip(a as int).skip(b as int) =~= st.rest.skip((a + b) as int));
    assert(st.out + st.rest.take(a as int) + st.rest.skip(a as int).take(b as int) =~= st.out + st.rest.take((a + b) as int));
}

proof fn lemma_tail_bounds(s: Seq<u8>)
    requires
        option_tail_len(s) is Some,
    ensures
        option_tail_len(s).unwrap() <= s.len(),
{
    let a = fields_len(seq![Field::Fixed(4)], s).unwrap();
    crate::wrapper::lemma_fields_prefix(seq![Field::Fixed(4)], s, Seq::empty());
    let b = list_len(byte_pairs(), s.skip(a as int)).unwrap();
    crate::wrapper::lemma_list_prefix(byte_pairs(), s.skip(a as int), Seq::empty());
    let c = list_len(byte_pairs(), s.skip((a + b) as int)).unwrap();
    crate::wrapper::lemma_list_prefix(byte_pairs(), s.skip((a + b) as int), Seq::empty());
    let d = list_len(byte_pairs(), s.skip((a + b + c) as int)).unwrap();
    crate::wrapper::lemma_list_prefix(byte_pairs(), s.skip((a + b + c) as int), Seq::empty());
    crate::wrapper::lemma_fields_prefix(seq![Field::Str, Field::UVarInt], s.skip((a + b + c + d) as int), Seq::empty());
}

/// Copies what follows an enchant option's cost.
fn option_tail(w: &mut PacketWrapper) -> (r: Result<(), DecodeError>)
    requires
        old(w).wf(),
    ensures
        final(w).wf(),
        match option_tail_len(old(w)@.rest) {
            Some(m) => r is Ok && final(w)@ == copied(old(w)@, m),
            None => r is Err,
        },
{
    let ghost s0 = w@;
    let ghost x = s0.rest;
    let f4 = vec![Field::Fixed(4)];
    assert(f4@.skip(0) =~= seq![Field::Fixed(4)]);
    w.passthrough_fields(f4.as_slice(), 0)?;
    let ghost a = fields_len(seq![Field::Fixed(4)], x).unwrap();
    proof { crate::wrapper::lemma_fields_prefix(seq![Field::Fixed(4)], x, Seq::empty()); }
    assert(w@ == copied(s0, a));
    let pairs = vec![Field::Byte, Field::Byte];
    assert(pairs@ =~= byte_pairs());
    w.passthrough_list(pairs.as_slice())?;
    let ghost b = list_len(byte_pairs(), x.skip(a as int)).unwrap();
    proof {
        crate::wrapper::lemma_list_prefix(byte_pairs(), x.skip(a as int), Seq::empty());
        lemma_copied_twice(s0, a, b);
        assert(x.skip(a as int).skip(b as int) =~= x.skip((a + b) as int));
    }
    w.passthrough_list(pairs.as_slice())?;
    let ghost c = list_len(byte_pairs(), x.skip((a + b) as int)).unwrap();
    proof {
        crate::wrapper::lemma_list_prefix(byte_pairs(), x.skip((a + b) as int), Seq::empty());
        lemma_copied_twice(s0, a + b, c);
        assert(x.skip((a + b) as int).skip(c as int) =~= x.skip((a + b + c) as int));
    }
    w.passthrough_list(pairs.as_slice())?;
    let ghost d = list_len(byte_pairs(), x.skip((a + b + c) as int)).unwrap();
    proof {
        crate::wrapper::lemma_list_prefix(byte_pairs(), x.skip((a + b + c) as int), Seq::empty());
        lemma_copied_twice(s0, a + b + c, d);
        assert(x.skip((a + b + c) as int).skip(d as int) =~= x.skip((a + b + c + d) as int));
    }
    let tail = vec![Field::Str, Field::UVarInt];
    assert(tail@.skip(0) =~= seq![Field::Str, Field::UVarInt]);
    w.passthrough_fields(tail.as_slice(), 0)?;
    let ghost e = fields_len(seq![Field::Str, Field::UVarInt], x.skip((a + b + c + d) as int)).unwrap();
    proof {
        crate::wrapper::lemma_fields_prefix(seq![Field::Str, Field::UVarInt], x.skip((a + b + c + d) as int), Seq::empty());
        lemma_copied_twice(s0, a + b + c + d, e);
    }
    Ok(())
}

fn enchant_option(w: &mut PacketWrapper, to_v975: bool) -> (r: Result<(), DecodeError>)
    requires
        old(w).wf(),
    ensures
        final(w).wf(),
        match spec_enchant_option(old(w)@, to_v975) {
            Some(st) => r is Ok && final(w)@ == st,
            None => r is Err,
        },
{
    reveal(spec_enchant_option);
    if to_v975 {
        let c = w.read_u32v()?;
        w.write_u8(if c > 255 { 255 } else { c as u8 });
    } else {
        let c = w.read_u8()?;
        w.write_u32v(c as u32);
    }
    option_tail(w)
}

/// Rewrites PlayerEnchantOptions.
pub fn player_enchant_options(w: &mut PacketWrapper, to_v975: bool) -> (r: Result<(), DecodeError>)
    requires
        old(w).wf(),
    ensures
        final(w).wf(),
        match spec_player_enchant_options(old(w)@, to_v975) {
            Some(st) => r is Ok && final(w)@ == st,
            None => r is Err,
        },
{
    let n = w.pass_u32v()?;
    let ghost st1 = w@;
    assert(spec_player_enchant_options(old(w)@, to_v975) == each_item(st1, n as nat, enchant_step(to_v975)));
    let mut i: u32 = 0;
    while i < n
        invariant
            w.wf(),
            i <= n,
            spec_player_enchant_options(old(w)@, to_v975) == each_item(st1, n as nat, enchant_step(to_v975)),
            each_item(st1, n as nat, enchant_step(to_v975)) == each_item(w@, (n - i) as nat, enchant_step(to_v975)),
        decreases n - i,
    {
        let ghost before = w@;
        match enchant_option(w, to_v975) {
            Ok(()) => {
                assert((enchant_step(to_v975))(before) == Some(w@));
            },
            Err(e) => {
                assert((enchant_step(to_v975))(before) is None);
                return Err(e);
            },
        }
        i = i + 1;
    }
    Ok(())
}

/// The length of an optional group of fields: its flag, and the fields
/// `fs` when it is set.
pub open spec fn opt_len(s: Seq<u8>, fs: Seq<Field>) -> Option<nat> {
    match parse_bool(s) {
        Some((present, n)) => if present {
            match fields_len(fs, s.skip(n as int)) {
                Some(k) => Some(n + k),
                None => None,
            }
        } else {
            Some(n)
        },
        None => None,
    }
}

proof fn lemma_opt_len_prefix(s: Seq<u8>, fs: Seq<Field>, t: Seq<u8>)
    requires
        opt_len(s, fs) is Some,
    ensures
        opt_len(s, fs).unwrap() <= s.len(),
        opt_len(s.take(opt_len(s, fs).unwrap() as int) + t, fs) == opt_len(s, fs),
{
    let k = opt_len(s, fs).unwrap();
    assert(s.len() >= 1 && k >= 1);
    if s[0] != 0 {
        crate::wrapper::lemma_fields_prefix(fs, s.skip(1), t);
    }
    assert(k <= s.len());
    let y = s.take(k as int) + t;
    assert(s.take(k as int)[0] == s[0]);
    assert(y[0] == s[0]);
    if s[0] != 0 {
        assert(y.skip(1) =~= s.skip(1).take(k - 1) + t);
    }
}

/// Copies an optional group of fields.
fn pass_opt_fields(w: &mut PacketWrapper, fs: &[Field]) -> (r: Result<(), DecodeError>)
    requires
        old(w).wf(),
    ensures
        final(w).wf(),
        match opt_len(old(w)@.rest, fs@) {
            Some(k) => r is Ok && final(w)@ == copied(old(w)@, k),
            None => r is Err,
        },
{
    let ghost s0 = w@;
    assert(fs@.skip(0) =~= fs@);
    if w.pass_bool()? {
        w.passthrough_fields(fs, 0)?;
        proof {
            let k = fields_len(fs@, s0.rest.skip(1)).unwrap();
            crate::wrapper::lemma_fields_prefix(fs@, s0.rest.skip(1), Seq::empty());
            lemma_copied_twice(s0, 1, k);
        }
    }
    Ok(())
}

/// The length of a waypoint's head: its id and colour, an optional flag,
/// and an optional position and dimension.
#[verifier::opaque]
pub open spec fn waypoint_front_len(s: Seq<u8>) -> Option<nat> {
    match fields_len(seq![Field::Fixed(16), Field::Fixed(4)], s) {
        Some(a) => match opt_len(s.skip(a as int), seq![Field::Byte]) {
            Some(b) => match opt_len(s.skip((a + b) as int), seq![Field::Fixed(12), Field::VarInt]) {
                Some(c) => Some(a + b + c),
                None => None,
            },
            None => None,
        },
        None => None,
    }
}

/// The length of a waypoint's tail: an optional four-byte value, an
/// optional flag, an optional actor id and a variable-length integer.
#[verifier::opaque]
pub open spec fn waypoint_back_len(s: Seq<u8>) -> Option<nat> {
    match opt_len(s, seq![Field::Fixed(4)]) {
        Some(d) => match opt_len(s.skip(d as int), seq![Field::Byte]) {
            Some(e) => match opt_len(s.skip((d + e) as int), seq![Field::VarInt64]) {
                Some(f) => match fields_len(seq![Field::UVarInt], s.skip((d + e + f) as int)) {
                    Some(g) => Some(d + e + f + g),
                    None => None,
                },
                None => None,
            },
            None => None,
        },
        None => None,
    }
}

/// The part of a locator waypoint that differs: toward 975 the optional
/// four-byte value of protocol 944 is removed and two absent optionals are
/// written; toward 944 the optional string and the optional two floats of
/// protocol 975 are removed and one absent optional is written.
pub open spec fn locator_middle(st: WireState, to_v975: bool) -> Option<WireState> {
    if to_v975 {
        match spec_trailing_optional(st, false, Field::Fixed(4)) {
            Some(s) => Some(put(s, ser_bool(false) + ser_bool(false))),
            None => None,
        }
    } else {
        match spec_trailing_optional(st, false, Field::Str) {
            Some(s) => match spec_trailing_optional(s, false, Field::Fixed(8)) {
                Some(s2) => Some(put(s2, ser_bool(false))),
                None => None,
            },
            None => None,
        }
    }
}

/// One locator waypoint: its head is copied, then the part that differs,
/// then its tail is copied.
#[verifier::opaque]
pub open spec fn spec_locator_item(st: WireState, to_v975: bool) -> Option<WireState> {
    match waypoint_front_len(st.rest) {
        Some(a) => match locator_middle(copied(st, a), to_v975) {
            Some(s2) => match waypoint_back_len(s2.rest) {
                Some(b) => Some(copied(s2, b)),
                None => None,
            },
            None => None,
        },
        None => None,
    }
}

pub open spec fn locator_step(to_v975: bool) -> spec_fn(WireState) -> Option<WireState> {
    |st: WireState| spec_locator_item(st, to_v975)
}

/// LocatorBar: every waypoint is rewritten.
pub open spec fn spec_locator_bar(st: WireState, to_v975: bool) -> Option<WireState> {
    spec_each(st, locator_step(to_v975))
}

fn waypoint_front(w: &mut PacketWrapper) -> (r: Result<(), DecodeError>)
    requires
        old(w).wf(),
    ensures
        final(w).wf(),
        match waypoint_front_len(old(w)@.rest) {
            Some(a) => r is Ok && final(w)@ == copied(old(w)@, a),
            None => r is Err,
        },
{
    reveal(waypoint_front_len);
    let ghost s0 = w@;
    let ghost x = s0.rest;
    let head = vec![Field::Fixed(16), Field::Fixed(4)];
    assert(head@.skip(0) =~= seq![Field::Fixed(16), Field::Fixed(4)]);
    w.passthrough_fields(head.as_slice(), 0)?;
    let ghost a = fields_len(seq![Field::Fixed(16), Field::Fixed(4)], x).unwrap();
    proof { crate::wrapper::lemma_fields_prefix(seq![Field::Fixed(16), Field::Fixed(4)], x, Seq::empty()); }
    let flag = vec![Field::Byte];
    assert(flag@ =~= seq![Field::Byte]);
    pass_opt_fields(w, flag.as_slice())?;
    let ghost b = opt_len(x.skip(a as int), seq![Field::Byte]).unwrap();
    proof {
        lemma_opt_len_prefix(x.skip(a as int), seq![Field::Byte], Seq::empty());
        lemma_copied_twice(s0, a, b);
        assert(x.skip(a as int).skip(b as int) =~= x.skip((a + b) as int));
    }
    let place = vec![Field::Fixed(12), Field::VarInt];
    assert(place@ =~= seq![Field::Fixed(12), Field::VarInt]);
    pass_opt_fields(w, place.as_slice())?;
    let ghost c = opt_len(x.skip((a + b) as int), seq![Field::Fixed(12), Field::VarInt]).unwrap();
    proof {
        lemma_opt_len_prefix(x.skip((a + b) as int), seq![Field::Fixed(12), Field::VarInt], Seq::empty());
        lemma_copied_twice(s0, a + b, c);
    }
    Ok(())
}

fn waypoint_back(w: &mut PacketWrapper) -> (r: Result<(), DecodeError>)
    requires
        old(w).wf(),
    ensures
        final(w).wf(),
        match waypoint_back_len(old(w)@.rest) {
            Some(b) => r is Ok && final(w)@ == copied(old(w)@, b),
            None => r is Err,
        },
{
    reveal(waypoint_back_len);
    let ghost s0 = w@;
    let ghost x = s0.rest;
    let four = vec![Field::Fixed(4)];
    assert(four@ =~= seq![Field::Fixed(4)]);
    pass_opt_fields(w, four.as_slice())?;
    let ghost d = opt_len(x, seq![Field::Fixed(4)]).unwrap();
    proof { lemma_opt_len_prefix(x, seq![Field::Fixed(4)], Seq::empty()); }
    let flag = vec![Field::Byte];
    assert(flag@ =~= seq![Field::Byte]);
    pass_opt_fields(w, flag.as_slice())?;
    let ghost e = opt_len(x.skip(d as int), seq![Field::Byte]).unwrap();
    proof {
        lemma_opt_len_prefix(x.skip(d as int), seq![Field::Byte], Seq::empty());
        lemma_copied_twice(s0, d, e);
        assert(x.skip(d as int).skip(e as int) =~= x.skip((d + e) as int));
    }
    let id = vec![Field::VarInt64];
    assert(id@ =~= seq![Field::VarInt64]);
    pass_opt_fields(w, id.as_slice())?;
    let ghost f = opt_len(x.skip((d + e) as int), seq![Field::VarInt64]).unwrap();
    proof {
        lemma_opt_len_prefix(x.skip((d + e) as int), seq![Field::VarInt64], Seq::empty());
        lemma_copied_twice(s0, d + e, f);
        assert(x.skip((d + e) as int).skip(f as int) =~= x.skip((d + e + f) as int));
    }
    let last = vec![Field::UVarInt];
    assert(last@.skip(0) =~= seq![Field::UVarInt]);
    w.passthrough_fields(last.as_slice(), 0)?;
    let ghost g = fields_len(seq![Field::UVarInt], x.skip((d + e + f) as int)).unwrap();
    proof {
        crate::wrapper::lemma_fields_prefix(seq![Field::UVarInt], x.skip((d + e + f) as int), Seq::empty());
        lemma_copied_twice(s0, d + e + f, g);
    }
    Ok(())
}

fn locator_item(w: &mut PacketWrapper, to_v975: bool) -> (r: Result<(), DecodeError>)
    requires
        old(w).wf(),
    ensures
        final(w).wf(),
        match spec_locator_item(old(w)@, to_v975) {
            Some(st) => r is Ok && final(w)@ == st,
            None => r is Err,
        },
{
    reveal(spec_locator_item);
    waypoint_front(w)?;
    let ghost s1 = w@;
    if to_v975 {
        trailing_optional(w, false, Field::Fixed(4))?;
        w.write_bool(false);
        w.write_bool(false);
        assert(w@.out =~= locator_middle(s1, to_v975).unwrap().out);
    } else {
        trailing_optional(w, false, Field::Str)?;
        trailing_optional(w, false, Field::Fixed(8))?;
        w.write_bool(false);
    }
    waypoint_back(w)
}

/// Rewrites LocatorBar.
pub fn locator_bar(w: &mut PacketWrapper, to_v975: bool) -> (r: Result<(), DecodeError>)
    requires
        old(w).wf(),
    ensures
        final(w).wf(),
        match spec_locator_bar(old(w)@, to_v975) {
            Some(st) => r is Ok && final(w)@ == st,
            None => r is Err,
        },
{
    let n = w.pass_u32v()?;
    let ghost st1 = w@;
    assert(spec_locator_bar(old(w)@, to_v975) == each_item(st1, n as nat, locator_step(to_v975)));
    let mut i: u32 = 0;
    while i < n
        invariant
            w.wf(),
            i <= n,
            spec_locator_bar(old(w)@, to_v975) == each_item(st1, n as nat, locator_step(to_v975)),
            each_item(st1, n as nat, locator_step(to_v975)) == each_item(w@, (n - i) as nat, locator_step(to_v975)),
        decreases n - i,
    {
        let ghost before = w@;
        match locator_item(w, to_v975) {
            Ok(()) => {
                assert((locator_step(to_v975))(before) == Some(w@));
            },
            Err(e) => {
                assert((locator_step(to_v975))(before) is None);
                return Err(e);
            },
        }
        i = i + 1;
    }
    Ok(())
}

// ---------------------------------------------------------------------------
// Laws: what a step toward 975 adds, the step toward 944 removes.

/// Copying the fields `fs` and writing an absent trailing optional, then
/// copying them again and removing the optional, gives back the input.
pub proof fn lemma_trailing_round_trip(fs: Seq<Field>, payload: Field, x: Seq<u8>)
    requires
        fields_len(fs, x) is Some,
    ensures
        ({
            let a = spec_trailing_optional(pass_fields(start(x), fs).unwrap(), true, payload).unwrap();
            &&& pass_fields(start(finished(a)), fs) matches Some(s)
            &&& spec_trailing_optional(s, false, payload) matches Some(b)
            &&& finished(b) == x
        }),
{
    let n = fields_len(fs, x).unwrap();
    let a = spec_trailing_optional(pass_fields(start(x), fs).unwrap(), true, payload).unwrap();
    let t = ser_bool(false) + x.skip(n as int);
    lemma_pass_fields_replay(fs, x, t, Seq::empty(), false);
    assert(finished(a) =~= x.take(n as int) + t);
    lemma_bool_round_trip(false, x.skip(n as int));
    let s = pass_fields(start(finished(a)), fs).unwrap();
    let b = spec_trailing_optional(s, false, payload).unwrap();
    assert(b.rest =~= x.skip(n as int));
    assert(finished(b) =~= x);
}

/// An ActorEvent taken to 975 and back is unchanged.
pub proof fn law_actor_event_round_trip(x: Seq<u8>)
    ensures
        spec_actor_event(start(x), true) matches Some(a) ==> spec_actor_event(start(finished(a)), false)
            matches Some(b) && finished(b) == x,
{
    if spec_actor_event(start(x), true) is Some {
        lemma_trailing_round_trip(actor_event_fields(), Field::Fixed(12), x);
    }
}

/// A PlaySound taken to 975 and back is unchanged.
pub proof fn law_play_sound_round_trip(x: Seq<u8>)
    ensures
        spec_play_sound(start(x), true) matches Some(a) ==> spec_play_sound(start(finished(a)), false)
            matches Some(b) && finished(b) == x,
{
    if spec_play_sound(start(x), true) is Some {
        lemma_trailing_round_trip(play_sound_fields(), Field::Fixed(8), x);
    }
}

/// A LevelSoundEvent whose sound id is written in its shortest form, taken
/// to 975 and back, is unchanged, as long as moving the id up stays within
/// the id range.
#[verifier::spinoff_prover]
pub proof fn law_level_sound_event_round_trip(event: u32, t: Seq<u8>)
    requires
        event < 599 || event + 2 <= u32::MAX,
    ensures
        ({
            let x = ser_u32v(event) + t;
            spec_level_sound_event(start(x), true) matches Some(a) ==> spec_level_sound_event(
                start(finished(a)),
                false,
            ) matches Some(b) && finished(b) == x
        }),
{
    let x = ser_u32v(event) + t;
    if let Some(a) = spec_level_sound_event(start(x), true) {
        let fs = level_sound_event_fields();
        lemma_u32v_round_trip(event, t);
        let up = sound().spec_up(event);
        let m = ser_u32v(event).len();
        assert(x.skip(m as int) =~= t);
        let s0 = put(dropped(start(x), m), ser_u32v(up));
        let n = fields_len(fs, t).unwrap();
        let tail = ser_bool(false) + t.skip(n as int);
        assert(finished(a) =~= ser_u32v(up) + (t.take(n as int) + tail));
        lemma_u32v_round_trip(up, t.take(n as int) + tail);
        sound().lemma_down_up(event);
        let y = finished(a);
        let k = ser_u32v(up).len();
        assert(y.skip(k as int) =~= t.take(n as int) + tail);
        let s1 = put(dropped(start(y), k), ser_u32v(event));
        assert(Seq::<u8>::empty() + ser_u32v(event) =~= ser_u32v(event));
        lemma_pass_fields_replay(fs, t, tail, ser_u32v(event), false);
        lemma_bool_round_trip(false, t.skip(n as int));
        let b = spec_level_sound_event(start(y), false).unwrap();
        assert(b.rest =~= t.skip(n as int));
        assert(finished(b) =~= x);
    }
}

/// A PartyChanged taken to 975 and back is unchanged.
pub proof fn law_party_changed_round_trip(x: Seq<u8>)
    ensures
        spec_party_changed(start(x), true) matches Some(a) ==> spec_party_changed(start(finished(a)), false)
            matches Some(b) && finished(b) == x,
{
    if let Some(a) = spec_party_changed(start(x), true) {
        let present = x[0] != 0;
        if present {
            let x1 = x.skip(1);
            let m = field_len(Field::Str, x1).unwrap();
            lemma_field_prefix(Field::Str, x1, Seq::empty());
            let t2 = ser_bool(false) + x1.skip(m as int);
            let t1 = x1.take(m as int) + t2;
            assert(finished(a) =~= x.take(1) + t1);
            let y = finished(a);
            lemma_pass_replay(Field::Byte, x, t1, Seq::empty(), false);
            lemma_pass_replay(Field::Str, x1, t2, Seq::empty() + x.take(1), false);
            lemma_pass_replay(Field::Byte, ser_bool(false), x1.skip(m as int), Seq::empty() + x.take(1) + x1.take(m as int), false);
            assert(ser_bool(false).take(1) =~= ser_bool(false));
            assert(y[0] == x[0]);
            let b = spec_party_changed(start(y), false).unwrap();
            assert(finished(b) =~= x);
        } else {
            assert(finished(a) =~= x);
        }
    }
}

// ---------------------------------------------------------------------------
// The steps.

/// The actor data key of the heartbeat sound.
pub const HEARTBEAT_KEY: u32 = 126;

/// The handlers of a step between 944 and 975: `to_v975_clientbound` when
/// the client speaks 975.
pub open spec fn step_handlers(to_v975_clientbound: bool) -> (Map<u16, Handler>, Map<u16, Handler>) {
    let to_client = to_v975_clientbound;
    let to_server = !to_v975_clientbound;
    (
        map![
            packet_ids::PLAYER_ENCHANT_OPTIONS => Handler::PlayerEnchantOptions(to_client),
            packet_ids::PLAY_SOUND => Handler::PlaySound(to_client),
            packet_ids::ACTOR_EVENT => Handler::ActorEventTrailing(to_client),
            packet_ids::LEVEL_SOUND_EVENT => Handler::LevelSoundEventTrailing(to_client),
        ],
        map![
            packet_ids::LEVEL_SOUND_EVENT => Handler::LevelSoundEventTrailing(to_server),
            packet_ids::ACTOR_EVENT => Handler::ActorEventTrailing(to_server),
            packet_ids::UPDATE_CLIENT_OPTIONS => Handler::UpdateClientOptions(to_server),
            packet_ids::CLIENT_MOVEMENT_PREDICTION_SYNC => Handler::ClientMovementPredictionSync(to_server),
        ],
    )
}

fn make(name: &'static str, server: u32, client: u32, to_v975_clientbound: bool) -> (t: Translator)
    ensures
        t.wf(),
        t.name == name,
        t.server_protocol == server,
        t.client_protocol == client,
        t.handlers(Direction::Clientbound) == step_handlers(to_v975_clientbound).0,
        t.handlers(Direction::Serverbound) == step_handlers(to_v975_clientbound).1,
        t.cancels(Direction::Clientbound) == set![packet_ids::SERVER_SCRIPT_DEBUG_DRAWER],
        t.cancels(Direction::Serverbound) == set![packet_ids::SERVERBOUND_DIAGNOSTICS],
{
    let to_client = to_v975_clientbound;
    let to_server = !to_v975_clientbound;
    let debug_drawer = [packet_ids::SERVER_SCRIPT_DEBUG_DRAWER];
    let telemetry = [packet_ids::SERVERBOUND_DIAGNOSTICS];
    let step = Translator::new(name, server, client)
        .clientbound(packet_ids::PLAYER_ENCHANT_OPTIONS, Handler::PlayerEnchantOptions(to_client))
        .clientbound(packet_ids::PLAY_SOUND, Handler::PlaySound(to_client))
        .clientbound(packet_ids::ACTOR_EVENT, Handler::ActorEventTrailing(to_client))
        .clientbound(packet_ids::LEVEL_SOUND_EVENT, Handler::LevelSoundEventTrailing(to_client))
        .serverbound(packet_ids::LEVEL_SOUND_EVENT, Handler::LevelSoundEventTrailing(to_server))
        .serverbound(packet_ids::ACTOR_EVENT, Handler::ActorEventTrailing(to_server))
        .serverbound(packet_ids::UPDATE_CLIENT_OPTIONS, Handler::UpdateClientOptions(to_server))
        .serverbound(
            packet_ids::CLIENT_MOVEMENT_PREDICTION_SYNC,
            Handler::ClientMovementPredictionSync(to_server),
        )
        .cancel_all(Direction::Clientbound, &debug_drawer)
        .cancel_all(Direction::Serverbound, &telemetry);
    let client_is_newer = client > server;
    let step = SoundRewriter::new(IdShift::inserted(2, 599), client_is_newer, HEARTBEAT_KEY)
        .with_item_encoding_change()
        .without_level_sound_event()
        .register(step);
    assert(step.handlers(Direction::Clientbound) =~= step_handlers(to_v975_clientbound).0);
    assert(step.handlers(Direction::Serverbound) =~= step_handlers(to_v975_clientbound).1);
    proof {
        assert(debug_drawer@.to_set() =~= set![packet_ids::SERVER_SCRIPT_DEBUG_DRAWER]) by {
            assert(debug_drawer@[0] == packet_ids::SERVER_SCRIPT_DEBUG_DRAWER);
        }
        assert(telemetry@.to_set() =~= set![packet_ids::SERVERBOUND_DIAGNOSTICS]) by {
            assert(telemetry@[0] == packet_ids::SERVERBOUND_DIAGNOSTICS);
        }
    }
    assert(step.cancels(Direction::Clientbound) =~= set![packet_ids::SERVER_SCRIPT_DEBUG_DRAWER]);
    assert(step.cancels(Direction::Serverbound) =~= set![packet_ids::SERVERBOUND_DIAGNOSTICS]);
    step
}

/// Serves a protocol 975 client from a protocol 944 server.
pub fn downgrade() -> (t: Translator)
    ensures
        t.wf(),
        t.name@ == "v975->v944"@,
        t.server_protocol == 944,
        t.client_protocol == 975,
        t.handlers(Direction::Clientbound) == step_handlers(true).0,
        t.handlers(Direction::Serverbound) == step_handlers(true).1,
        t.cancels(Direction::Clientbound) == set![packet_ids::SERVER_SCRIPT_DEBUG_DRAWER],
        t.cancels(Direction::Serverbound) == set![packet_ids::SERVERBOUND_DIAGNOSTICS],
{
    make("v975->v944", 944, 975, true)
}

/// Serves a protocol 944 client from a protocol 975 server.
pub fn upgrade() -> (t: Translator)
    ensures
        t.wf(),
        t.name@ == "v944->v975"@,
        t.server_protocol == 975,
        t.client_protocol == 944,
        t.handlers(Direction::Clientbound) == step_handlers(false).0,
        t.handlers(Direction::Serverbound) == step_handlers(false).1,
        t.cancels(Direction::Clientbound) == set![packet_ids::SERVER_SCRIPT_DEBUG_DRAWER],
        t.cancels(Direction::Serverbound) == set![packet_ids::SERVERBOUND_DIAGNOSTICS],
{
    make("v944->v975", 975, 944, false)
}

// ---------------------------------------------------------------------------
// PlayerEnchantOptions taken to 944 and back.

#[verifier::spinoff_prover]
#[verifier::rlimit(40)]
proof fn lemma_tail_prefix(x: Seq<u8>, u: Seq<u8>)
    requires
        option_tail_len(x) is Some,
    ensures
        option_tail_len(x).unwrap() <= x.len(),
        option_tail_len(x.take(option_tail_len(x).unwrap() as int) + u) == option_tail_len(x),
{
    lemma_tail_bounds(x);
    let m = option_tail_len(x).unwrap();
    let y = x.take(m as int) + u;
    let f4 = seq![Field::Fixed(4)];
    let last = seq![Field::Str, Field::UVarInt];
    let a = fields_len(f4, x).unwrap();
    let x1 = x.skip(a as int);
    let b = list_len(byte_pairs(), x1).unwrap();
    let x2 = x.skip((a + b) as int);
    let c = list_len(byte_pairs(), x2).unwrap();
    let x3 = x.skip((a + b + c) as int);
    let d = list_len(byte_pairs(), x3).unwrap();
    let x4 = x.skip((a + b + c + d) as int);
    let e = fields_len(last, x4).unwrap();
    crate::wrapper::lemma_fields_prefix(f4, x, y.skip(a as int));
    crate::wrapper::lemma_list_prefix(byte_pairs(), x1, y.skip((a + b) as int));
    crate::wrapper::lemma_list_prefix(byte_pairs(), x2, y.skip((a + b + c) as int));
    crate::wrapper::lemma_list_prefix(byte_pairs(), x3, y.skip((a + b + c + d) as int));
    crate::wrapper::lemma_fields_prefix(last, x4, u);
    assert(x.take(a as int) + y.skip(a as int) =~= y);
    assert(x1.take(b as int) + y.skip((a + b) as int) =~= y.skip(a as int));
    assert(x2.take(c as int) + y.skip((a + b + c) as int) =~= y.skip((a + b) as int));
    assert(x3.take(d as int) + y.skip((a + b + c + d) as int) =~= y.skip((a + b + c) as int));
    assert(x4.take(e as int) + u =~= y.skip((a + b + c + d) as int));
}

/// One option taken toward 944 and back toward 975 comes back as it was.
proof fn lemma_option_down_up(x: Seq<u8>, o1: Seq<u8>, o2: Seq<u8>, c: bool, u: Seq<u8>)
    requires
        spec_enchant_option(WireState { rest: x, out: o1, cancelled: c }, false) is Some,
    ensures
        ({
            let m = option_tail_len(x.skip(1)).unwrap();
            let d = ser_u32v(x[0] as u32) + x.skip(1).take(m as int);
            &&& 1 + m <= x.len()
            &&& spec_enchant_option(WireState { rest: x, out: o1, cancelled: c }, false) == Some(
                WireState { rest: x.skip(1 + m as int), out: o1 + d, cancelled: c },
            )
            &&& spec_enchant_option(WireState { rest: d + u, out: o2, cancelled: c }, true) == Some(
                WireState { rest: u, out: o2 + x.take(1 + m as int), cancelled: c },
            )
        }),
{
    reveal(spec_enchant_option);
    let x1 = x.skip(1);
    let m = option_tail_len(x1).unwrap();
    lemma_tail_prefix(x1, u);
    let v = x[0] as u32;
    let t = x1.take(m as int) + u;
    let d = ser_u32v(v) + x1.take(m as int);
    assert(x1.skip(m as int) =~= x.skip(1 + m as int));
    assert(o1 + ser_u32v(v) + x1.take(m as int) =~= o1 + d);
    lemma_u32v_round_trip(v, t);
    assert(d + u =~= ser_u32v(v) + t);
    assert((d + u).skip(ser_u32v(v).len() as int) =~= t);
    assert(t.skip(m as int) =~= u);
    assert(t.take(m as int) =~= x1.take(m as int));
    assert(o2 + ser_u8(x[0]) + x1.take(m as int) =~= o2 + x.take(1 + m as int));
}

/// Items of PlayerEnchantOptions taken toward 944 and back toward 975 come
/// back as they were.
#[verifier::spinoff_prover]
#[verifier::rlimit(60)]
proof fn lemma_options_down_up(x: Seq<u8>, n: nat, o1: Seq<u8>, o2: Seq<u8>, c: bool, u: Seq<u8>)
    requires
        each_item(WireState { rest: x, out: o1, cancelled: c }, n, enchant_step(false)) is Some,
    ensures
        ({
            let s = each_item(WireState { rest: x, out: o1, cancelled: c }, n, enchant_step(false)).unwrap();
            let k = x.len() - s.rest.len();
            let d = s.out.skip(o1.len() as int);
            &&& 0 <= k <= x.len()
            &&& s.rest == x.skip(k)
            &&& s.out == o1 + d
            &&& s.cancelled == c
            &&& each_item(WireState { rest: d + u, out: o2, cancelled: c }, n, enchant_step(true)) == Some(
                WireState { rest: u, out: o2 + x.take(k), cancelled: c },
            )
        }),
    decreases n,
{
    let st = WireState { rest: x, out: o1, cancelled: c };
    let s = each_item(st, n, enchant_step(false)).unwrap();
    if n == 0 {
        assert(x.skip(0) =~= x);
        assert(o1 + s.out.skip(o1.len() as int) =~= o1);
        assert(s.out.skip(o1.len() as int) + u =~= u);
        assert(o2 + x.take(0) =~= o2);
    } else {
        assert((enchant_step(false))(st) == spec_enchant_option(st, false));
        lemma_option_down_up(x, o1, o2, c, Seq::empty());
        let m1 = 1 + option_tail_len(x.skip(1)).unwrap();
        let d1 = ser_u32v(x[0] as u32) + x.skip(1).take((m1 - 1) as int);
        let x2 = x.skip(m1 as int);
        let s1 = WireState { rest: x2, out: o1 + d1, cancelled: c };
        assert(each_item(st, n, enchant_step(false)) == each_item(s1, (n - 1) as nat, enchant_step(false)));
        lemma_options_down_up(x2, (n - 1) as nat, o1 + d1, o2 + x.take(m1 as int), c, u);
        let k2 = x2.len() - s.rest.len();
        let d2 = s.out.skip((o1 + d1).len() as int);
        let k = x.len() - s.rest.len();
        let d = s.out.skip(o1.len() as int);
        assert(d =~= d1 + d2);
        assert(x2.skip(k2) =~= x.skip(k));
        lemma_option_down_up(x, o1, o2, c, d2 + u);
        assert(d + u =~= d1 + (d2 + u));
        let up0 = WireState { rest: d + u, out: o2, cancelled: c };
        assert((enchant_step(true))(up0) == spec_enchant_option(up0, true));
        assert(o2 + x.take(m1 as int) + x2.take(k2) =~= o2 + x.take(k));
    }
}

/// PlayerEnchantOptions taken from 975 to 944 and back comes back byte for
/// byte: a byte cost widened to a variable-length integer narrows back to
/// the same byte.
pub proof fn law_player_enchant_options_round_trip(x: Seq<u8>)
    requires
        spec_player_enchant_options(start(x), false) is Some,
    ensures
        spec_player_enchant_options(start(x), false) matches Some(a)
            && spec_player_enchant_options(start(finished(a)), true) matches Some(b)
            && finished(b) == x,
{
    let (n, m0) = parse_u32v(x).unwrap();
    crate::codec::lemma_parse_uvarint_bounds(x, 5);
    let x1 = x.skip(m0 as int);
    let o = x.take(m0 as int);
    assert(copied(start(x), m0) == WireState { rest: x1, out: o, cancelled: false }) by {
        assert(Seq::<u8>::empty() + x.take(m0 as int) =~= o);
    }
    let a = spec_player_enchant_options(start(x), false).unwrap();
    lemma_options_down_up(x1, n as nat, o, o, false, a.rest);
    let k = x1.len() - a.rest.len();
    let d = a.out.skip(o.len() as int);
    let f = finished(a);
    assert(f =~= x.take(m0 as int) + (d + a.rest));
    crate::codec::lemma_parse_uvarint_prefix(x, 5, d + a.rest);
    assert(copied(start(f), m0) == WireState { rest: d + a.rest, out: o, cancelled: false }) by {
        assert(f.skip(m0 as int) =~= d + a.rest);
        assert(Seq::<u8>::empty() + f.take(m0 as int) =~= o);
    }
    let b = spec_player_enchant_options(start(f), true).unwrap();
    assert(finished(b) =~= x) by {
        assert(x.take(m0 as int) + x1.take(k) + x1.skip(k) =~= x);
    }
}

// ---------------------------------------------------------------------------
// LocatorBar written toward 975 is stable.

proof fn lemma_front_prefix(x: Seq<u8>, t: Seq<u8>)
    requires
        waypoint_front_len(x) is Some,
    ensures
        waypoint_front_len(x).unwrap() <= x.len(),
        waypoint_front_len(x.take(waypoint_front_len(x).unwrap() as int) + t) == waypoint_front_len(x),
{
    reveal(waypoint_front_len);
    let k = waypoint_front_len(x).unwrap();
    let head = seq![Field::Fixed(16), Field::Fixed(4)];
    let a = fields_len(head, x).unwrap();
    let x1 = x.skip(a as int);
    let b = opt_len(x1, seq![Field::Byte]).unwrap();
    let x2 = x.skip((a + b) as int);
    let c = opt_len(x2, seq![Field::Fixed(12), Field::VarInt]).unwrap();
    crate::wrapper::lemma_fields_prefix(head, x, Seq::empty());
    lemma_opt_len_prefix(x1, seq![Field::Byte], Seq::empty());
    lemma_opt_len_prefix(x2, seq![Field::Fixed(12), Field::VarInt], t);
    let y = x.take(k as int) + t;
    crate::wrapper::lemma_fields_prefix(head, x, y.skip(a as int));
    lemma_opt_len_prefix(x1, seq![Field::Byte], y.skip((a + b) as int));
    assert(x.take(a as int) + y.skip(a as int) =~= y);
    assert(x1.take(b as int) + y.skip((a + b) as int) =~= y.skip(a as int));
    assert(x2.take(c as int) + t =~= y.skip((a + b) as int));
}

#[verifier::spinoff_prover]
#[verifier::rlimit(60)]
proof fn lemma_back_prefix(x: Seq<u8>, t: Seq<u8>)
    requires
        waypoint_back_len(x) is Some,
    ensures
        waypoint_back_len(x).unwrap() <= x.len(),
        waypoint_back_len(x.take(waypoint_back_len(x).unwrap() as int) + t) == waypoint_back_len(x),
{
    reveal(waypoint_back_len);
    let k = waypoint_back_len(x).unwrap();
    let d = opt_len(x, seq![Field::Fixed(4)]).unwrap();
    let x1 = x.skip(d as int);
    let e = opt_len(x1, seq![Field::Byte]).unwrap();
    let x2 = x.skip((d + e) as int);
    let f = opt_len(x2, seq![Field::VarInt64]).unwrap();
    let x3 = x.skip((d + e + f) as int);
    let g = fields_len(seq![Field::UVarInt], x3).unwrap();
    lemma_opt_len_prefix(x, seq![Field::Fixed(4)], Seq::empty());
    lemma_opt_len_prefix(x1, seq![Field::Byte], Seq::empty());
    lemma_opt_len_prefix(x2, seq![Field::VarInt64], Seq::empty());
    crate::wrapper::lemma_fields_prefix(seq![Field::UVarInt], x3, t);
    let y = x.take(k as int) + t;
    lemma_opt_len_prefix(x, seq![Field::Fixed(4)], y.skip(d as int));
    lemma_opt_len_prefix(x1, seq![Field::Byte], y.skip((d + e) as int));
    lemma_opt_len_prefix(x2, seq![Field::VarInt64], y.skip((d + e + f) as int));
    assert(x.take(d as int) + y.skip(d as int) =~= y);
    assert(x1.take(e as int) + y.skip((d + e) as int) =~= y.skip(d as int));
    assert(x2.take(f as int) + y.skip((d + e + f) as int) =~= y.skip((d + e) as int));
    assert(x3.take(g as int) + t =~= y.skip((d + e + f) as int));
}

/// Two absent optional flags.
pub open spec fn two_absent() -> Seq<u8> {
    ser_bool(false) + ser_bool(false)
}

/// A waypoint rewritten toward 975: its head (the first `a` bytes), two
/// absent flags, and its tail (bytes `a + m` to `k`).
#[verifier::spinoff_prover]
#[verifier::rlimit(40)]
proof fn lemma_wp_up(x: Seq<u8>, o: Seq<u8>, c: bool) -> (r: (nat, nat, nat))
    requires
        spec_locator_item(WireState { rest: x, out: o, cancelled: c }, true) is Some,
    ensures
        ({
            let (a, m, k) = r;
            &&& a + m <= k <= x.len()
            &&& forall|t: Seq<u8>| #[trigger] waypoint_front_len(x.take(a as int) + t) == Some(a)
            &&& forall|t: Seq<u8>| #[trigger] waypoint_back_len(x.subrange((a + m) as int, k as int) + t) == Some((k - a - m) as nat)
            &&& spec_locator_item(WireState { rest: x, out: o, cancelled: c }, true) == Some(WireState {
                rest: x.skip(k as int),
                out: o + x.take(a as int) + two_absent() + x.subrange((a + m) as int, k as int),
                cancelled: c,
            })
        }),
{
    reveal(spec_locator_item);
    let a = waypoint_front_len(x).unwrap();
    lemma_front_prefix(x, Seq::empty());
    let x1 = x.skip(a as int);
    let m: nat = if x1[0] != 0 { 5 } else { 1 };
    let s1 = copied(WireState { rest: x, out: o, cancelled: c }, a);
    let mid = locator_middle(s1, true).unwrap();
    assert(mid.rest =~= x.skip((a + m) as int));
    assert(mid.out =~= o + x.take(a as int) + two_absent());
    let x2 = x.skip((a + m) as int);
    let b = waypoint_back_len(x2).unwrap();
    lemma_back_prefix(x2, Seq::empty());
    let k = a + m + b;
    assert(x2.take(b as int) =~= x.subrange((a + m) as int, k as int));
    assert(x2.skip(b as int) =~= x.skip(k as int));
    assert forall|t: Seq<u8>| #[trigger] waypoint_front_len(x.take(a as int) + t) == Some(a) by {
        lemma_front_prefix(x, t);
    }
    assert forall|t: Seq<u8>| #[trigger] waypoint_back_len(x.subrange((a + m) as int, k as int) + t) == Some(b) by {
        lemma_back_prefix(x2, t);
    }
    assert(o + x.take(a as int) + two_absent() + x2.take(b as int) =~= o + x.take(a as int) + two_absent() + x.subrange((a + m) as int, k as int));
    (a, m, k)
}

/// A waypoint of that form taken toward 944: one absent flag in place of
/// the two.
#[verifier::spinoff_prover]
#[verifier::rlimit(40)]
proof fn lemma_wp_down(h: Seq<u8>, bb: Seq<u8>, u: Seq<u8>, o: Seq<u8>, c: bool)
    requires
        forall|t: Seq<u8>| #[trigger] waypoint_front_len(h + t) == Some(h.len()),
        forall|t: Seq<u8>| #[trigger] waypoint_back_len(bb + t) == Some(bb.len()),
    ensures
        spec_locator_item(WireState { rest: h + two_absent() + bb + u, out: o, cancelled: c }, false)
            == Some(WireState { rest: u, out: o + h + ser_bool(false) + bb, cancelled: c }),
{
    reveal(spec_locator_item);
    let y = h + two_absent() + bb + u;
    let t = two_absent() + bb + u;
    assert(y =~= h + t);
    assert(waypoint_front_len(h + t) == Some(h.len()));
    assert(y.skip(h.len() as int) =~= t);
    assert(y.take(h.len() as int) =~= h);
    assert(t[0] == 0u8);
    assert(t.skip(1) =~= ser_bool(false) + bb + u);
    assert((ser_bool(false) + bb + u)[0] == 0u8);
    assert((ser_bool(false) + bb + u).skip(1) =~= bb + u);
    assert(waypoint_back_len(bb + u) == Some(bb.len()));
    assert((bb + u).skip(bb.len() as int) =~= u);
    assert((bb + u).take(bb.len() as int) =~= bb);
}

/// A waypoint with one absent flag taken toward 975: two absent flags.
#[verifier::spinoff_prover]
#[verifier::rlimit(40)]
proof fn lemma_wp_up_again(h: Seq<u8>, bb: Seq<u8>, u: Seq<u8>, o: Seq<u8>, c: bool)
    requires
        forall|t: Seq<u8>| #[trigger] waypoint_front_len(h + t) == Some(h.len()),
        forall|t: Seq<u8>| #[trigger] waypoint_back_len(bb + t) == Some(bb.len()),
    ensures
        spec_locator_item(WireState { rest: h + ser_bool(false) + bb + u, out: o, cancelled: c }, true)
            == Some(WireState { rest: u, out: o + h + two_absent() + bb, cancelled: c }),
{
    reveal(spec_locator_item);
    let y = h + ser_bool(false) + bb + u;
    let t = ser_bool(false) + bb + u;
    assert(y =~= h + t);
    assert(waypoint_front_len(h + t) == Some(h.len()));
    assert(y.skip(h.len() as int) =~= t);
    assert(y.take(h.len() as int) =~= h);
    assert(t[0] == 0u8);
    assert(t.skip(1) =~= bb + u);
    assert(waypoint_back_len(bb + u) == Some(bb.len()));
    assert((bb + u).skip(bb.len() as int) =~= u);
    assert((bb + u).take(bb.len() as int) =~= bb);
    assert(o + h + two_absent() + bb =~= o + h + ser_bool(false) + ser_bool(false) + bb);
}

/// Waypoints written toward 975, taken to 944 and toward 975 again, come
/// back as they were written.
#[verifier::spinoff_prover]
#[verifier::rlimit(60)]
proof fn lemma_waypoints_stable(x: Seq<u8>, n: nat, o1: Seq<u8>, o2: Seq<u8>, o3: Seq<u8>, c: bool, u: Seq<u8>)
    requires
        each_item(WireState { rest: x, out: o1, cancelled: c }, n, locator_step(true)) is Some,
    ensures
        ({
            let s = each_item(WireState { rest: x, out: o1, cancelled: c }, n, locator_step(true)).unwrap();
            let d = s.out.skip(o1.len() as int);
            let r = each_item(WireState { rest: d + u, out: o2, cancelled: c }, n, locator_step(false));
            &&& s.out == o1 + d
            &&& s.rest.len() <= x.len()
            &&& s.rest == x.skip(x.len() - s.rest.len())
            &&& s.cancelled == c
            &&& r matches Some(r) && r.rest == u && r.cancelled == c && r.out == o2 + r.out.skip(o2.len() as int)
                && each_item(WireState { rest: r.out.skip(o2.len() as int) + u, out: o3, cancelled: c }, n, locator_step(true))
                == Some(WireState { rest: u, out: o3 + d, cancelled: c })
        }),
    decreases n,
{
    let st = WireState { rest: x, out: o1, cancelled: c };
    if n == 0 {
        assert(o1 + st.out.skip(o1.len() as int) =~= o1);
        assert(st.out.skip(o1.len() as int) + u =~= u);
        assert(x.skip(0) =~= x);
        assert(o2 + o2.skip(o2.len() as int) =~= o2);
        assert(o2.skip(o2.len() as int) + u =~= u);
        assert(o3 + st.out.skip(o1.len() as int) =~= o3);
    } else {
        assert((locator_step(true))(st) == spec_locator_item(st, true));
        let (a, m, k) = lemma_wp_up(x, o1, c);
        let h = x.take(a as int);
        let bb = x.subrange((a + m) as int, k as int);
        let d1 = h + two_absent() + bb;
        let e1 = h + ser_bool(false) + bb;
        let x2 = x.skip(k as int);
        let s1 = WireState { rest: x2, out: o1 + d1, cancelled: c };
        assert(o1 + x.take(a as int) + two_absent() + bb =~= o1 + d1);
        assert(each_item(st, n, locator_step(true)) == each_item(s1, (n - 1) as nat, locator_step(true)));
        lemma_waypoints_stable(x2, (n - 1) as nat, o1 + d1, o2 + e1, o3 + d1, c, u);
        let s = each_item(s1, (n - 1) as nat, locator_step(true)).unwrap();
        let d2 = s.out.skip((o1 + d1).len() as int);
        let d = s.out.skip(o1.len() as int);
        assert(d =~= d1 + d2);
        assert(x2.skip(x2.len() - s.rest.len()) =~= x.skip(x.len() - s.rest.len()));
        assert(h.len() == a);
        assert(bb.len() == k - a - m);
        lemma_wp_down(h, bb, d2 + u, o2, c);
        assert(d + u =~= h + two_absent() + bb + (d2 + u));
        let down0 = WireState { rest: d + u, out: o2, cancelled: c };
        assert((locator_step(false))(down0) == spec_locator_item(down0, false));
        assert(o2 + h + ser_bool(false) + bb =~= o2 + e1);
        let r = each_item(WireState { rest: d2 + u, out: o2 + e1, cancelled: c }, (n - 1) as nat, locator_step(false)).unwrap();
        let e2 = r.out.skip((o2 + e1).len() as int);
        let e = r.out.skip(o2.len() as int);
        assert(e =~= e1 + e2);
        lemma_wp_up_again(h, bb, e2 + u, o3, c);
        assert(e + u =~= h + ser_bool(false) + bb + (e2 + u));
        let up0 = WireState { rest: e + u, out: o3, cancelled: c };
        assert((locator_step(true))(up0) == spec_locator_item(up0, true));
        assert(o3 + h + two_absent() + bb =~= o3 + d1);
        assert(o3 + d1 + d2 =~= o3 + d);
    }
}

/// LocatorBar as it is written toward 975 survives a trip to 944 and back
/// unchanged: the two optionals it writes as absent are read back as absent.
pub proof fn law_locator_bar_stable(x: Seq<u8>)
    requires
        spec_locator_bar(start(x), true) is Some,
    ensures
        spec_locator_bar(start(x), true) matches Some(a)
            && spec_locator_bar(start(finished(a)), false) matches Some(b)
            && spec_locator_bar(start(finished(b)), true) matches Some(c)
            && finished(c) == finished(a),
{
    let (n, m0) = parse_u32v(x).unwrap();
    crate::codec::lemma_parse_uvarint_bounds(x, 5);
    let x1 = x.skip(m0 as int);
    let o = x.take(m0 as int);
    assert(copied(start(x), m0) == WireState { rest: x1, out: o, cancelled: false }) by {
        assert(Seq::<u8>::empty() + x.take(m0 as int) =~= o);
    }
    let a = spec_locator_bar(start(x), true).unwrap();
    lemma_waypoints_stable(x1, n as nat, o, o, o, false, a.rest);
    let d = a.out.skip(o.len() as int);
    let y = finished(a);
    assert(y =~= x.take(m0 as int) + (d + a.rest));
    crate::codec::lemma_parse_uvarint_prefix(x, 5, d + a.rest);
    assert(copied(start(y), m0) == WireState { rest: d + a.rest, out: o, cancelled: false }) by {
        assert(y.skip(m0 as int) =~= d + a.rest);
        assert(Seq::<u8>::empty() + y.take(m0 as int) =~= o);
    }
    let b = spec_locator_bar(start(y), false).unwrap();
    let e = b.out.skip(o.len() as int);
    let z = finished(b);
    assert(z =~= x.take(m0 as int) + (e + a.rest));
    crate::codec::lemma_parse_uvarint_prefix(x, 5, e + a.rest);
    assert(copied(start(z), m0) == WireState { rest: e + a.rest, out: o, cancelled: false }) by {
        assert(z.skip(m0 as int) =~= e + a.rest);
        assert(Seq::<u8>::empty() + z.take(m0 as int) =~= o);
    }
    let c = spec_locator_bar(start(z), true).unwrap();
    assert(finished(c) =~= y);
}

} // verus!
