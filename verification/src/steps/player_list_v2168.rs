//! PlayerList between protocols 1001 and 2168. Protocol 1001 gives the
//! list one action byte and writes a skin's arm size, colours and persona
//! piece types and pack ids as text, with the trusted flags of all skins
//! after the list; protocol 2168 gives each entry a variant, writes those
//! fields as numbers and raw ids, and keeps each trusted flag in its skin.
//! A list that mixes additions and removals cannot go to protocol 1001.
use vstd::prelude::*;
use crate::codec::{
    from_le32, le32, le32_bytes, ser_bool, ser_i64v, ser_str, ser_u32v, ser_u8, take_fixed, take_i64v, take_str,
    take_u32v, take_u8, two32, u32_from_le, zeros, ser_uvarint, DecodeError,
};
use crate::steps::set_score_v2168::{eq_ignore_case, lower_byte, same_ignoring_case};
use crate::steps::v1001_v2168::{read_flag, take_flag};
use crate::wrapper::{put, PacketWrapper, WireState};
use crate::connection::texts;

verus! {

/// "persona_"
pub open spec fn persona_prefix() -> Seq<u8> {
    seq![112u8, 101, 114, 115, 111, 110, 97, 95]
}

fn persona_prefix_bytes() -> (v: Vec<u8>)
    ensures
        v@ == persona_prefix(),
{
    let v = vec![112u8, 101, 114, 115, 111, 110, 97, 95];
    assert(v@ =~= persona_prefix());
    v
}

/// "hands"
pub open spec fn hands() -> Seq<u8> {
    seq![104u8, 97, 110, 100, 115]
}

/// "unsupported"
pub open spec fn unsupported() -> Seq<u8> {
    seq![117u8, 110, 115, 117, 112, 112, 111, 114, 116, 101, 100]
}

/// The part of persona piece type `i` (from 0) after "persona_": skeleton,
/// body, skin, bottom, feet, dress, top, high pants, hand, outerwear,
/// facial hair, mouth, eyes, hair, hood, back, face accessory, head, legs,
/// left leg, right leg, arms, left arm, right arm, capes, classic skin,
/// emote, unsupported.
pub open spec fn piece_suffix(i: int) -> Seq<u8> {
    if i == 0 {
        seq![115u8, 107, 101, 108, 101, 116, 111, 110]
    } else if i == 1 {
        seq![98u8, 111, 100, 121]
    } else if i == 2 {
        seq![115u8, 107, 105, 110]
    } else if i == 3 {
        seq![98u8, 111, 116, 116, 111, 109]
    } else if i == 4 {
        seq![102u8, 101, 101, 116]
    } else if i == 5 {
        seq![100u8, 114, 101, 115, 115]
    } else if i == 6 {
        seq![116u8, 111, 112]
    } else if i == 7 {
        seq![104u8, 105, 103, 104, 95, 112, 97, 110, 116, 115]
    } else if i == 8 {
        seq![104u8, 97, 110, 100]
    } else if i == 9 {
        seq![111u8, 117, 116, 101, 114, 119, 101, 97, 114]
    } else if i == 10 {
        seq![102u8, 97, 99, 105, 97, 108, 95, 104, 97, 105, 114]
    } else if i == 11 {
        seq![109u8, 111, 117, 116, 104]
    } else if i == 12 {
        seq![101u8, 121, 101, 115]
    } else if i == 13 {
        seq![104u8, 97, 105, 114]
    } else if i == 14 {
        seq![104u8, 111, 111, 100]
    } else if i == 15 {
        seq![98u8, 97, 99, 107]
    } else if i == 16 {
        seq![102u8, 97, 99, 101, 95, 97, 99, 99, 101, 115, 115, 111, 114, 121]
    } else if i == 17 {
        seq![104u8, 101, 97, 100]
    } else if i == 18 {
        seq![108u8, 101, 103, 115]
    } else if i == 19 {
        seq![108u8, 101, 102, 116, 95, 108, 101, 103]
    } else if i == 20 {
        seq![114u8, 105, 103, 104, 116, 95, 108, 101, 103]
    } else if i == 21 {
        seq![97u8, 114, 109, 115]
    } else if i == 22 {
        seq![108u8, 101, 102, 116, 95, 97, 114, 109]
    } else if i == 23 {
        seq![114u8, 105, 103, 104, 116, 95, 97, 114, 109]
    } else if i == 24 {
        seq![99u8, 97, 112, 101, 115]
    } else if i == 25 {
        seq![99u8, 108, 97, 115, 115, 105, 99, 95, 115, 107, 105, 110]
    } else if i == 26 {
        seq![101u8, 109, 111, 116, 101]
    } else {
        seq![117u8, 110, 115, 117, 112, 112, 111, 114, 116, 101, 100]
    }
}

fn piece_suffix_bytes(i: usize) -> (v: Vec<u8>)
    requires
        i < 28,
    ensures
        v@ == piece_suffix(i as int),
{
    let v = 
    if i == 0 {
        vec![115u8, 107, 101, 108, 101, 116, 111, 110]
    } else if i == 1 {
        vec![98u8, 111, 100, 121]
    } else if i == 2 {
        vec![115u8, 107, 105, 110]
    } else if i == 3 {
        vec![98u8, 111, 116, 116, 111, 109]
    } else if i == 4 {
        vec![102u8, 101, 101, 116]
    } else if i == 5 {
        vec![100u8, 114, 101, 115, 115]
    } else if i == 6 {
        vec![116u8, 111, 112]
    } else if i == 7 {
        vec![104u8, 105, 103, 104, 95, 112, 97, 110, 116, 115]
    } else if i == 8 {
        vec![104u8, 97, 110, 100]
    } else if i == 9 {
        vec![111u8, 117, 116, 101, 114, 119, 101, 97, 114]
    } else if i == 10 {
        vec![102u8, 97, 99, 105, 97, 108, 95, 104, 97, 105, 114]
    } else if i == 11 {
        vec![109u8, 111, 117, 116, 104]
    } else if i == 12 {
        vec![101u8, 121, 101, 115]
    } else if i == 13 {
        vec![104u8, 97, 105, 114]
    } else if i == 14 {
        vec![104u8, 111, 111, 100]
    } else if i == 15 {
        vec![98u8, 97, 99, 107]
    } else if i == 16 {
        vec![102u8, 97, 99, 101, 95, 97, 99, 99, 101, 115, 115, 111, 114, 121]
    } else if i == 17 {
        vec![104u8, 101, 97, 100]
    } else if i == 18 {
        vec![108u8, 101, 103, 115]
    } else if i == 19 {
        vec![108u8, 101, 102, 116, 95, 108, 101, 103]
    } else if i == 20 {
        vec![114u8, 105, 103, 104, 116, 95, 108, 101, 103]
    } else if i == 21 {
        vec![97u8, 114, 109, 115]
    } else if i == 22 {
        vec![108u8, 101, 102, 116, 95, 97, 114, 109]
    } else if i == 23 {
        vec![114u8, 105, 103, 104, 116, 95, 97, 114, 109]
    } else if i == 24 {
        vec![99u8, 97, 112, 101, 115]
    } else if i == 25 {
        vec![99u8, 108, 97, 115, 115, 105, 99, 95, 115, 107, 105, 110]
    } else if i == 26 {
        vec![101u8, 109, 111, 116, 101]
    } else {
        vec![117u8, 110, 115, 117, 112, 112, 111, 114, 116, 101, 100]
    };
    assert(v@ =~= piece_suffix(i as int));
    v
}

/// The name of persona piece type `i` (from 0).
pub open spec fn piece_name(i: int) -> Seq<u8> {
    persona_prefix() + piece_suffix(i)
}

/// The position, from 1, of `name` among the piece type names from `i` on;
/// 0 when it is none of them.
pub open spec fn piece_index_from(name: Seq<u8>, i: nat) -> u32
    decreases 28 - i,
{
    if i >= 28 {
        0
    } else if name == piece_name(i as int) {
        (i + 1) as u32
    } else {
        piece_index_from(name, i + 1)
    }
}

/// A persona piece type name as protocol 2168 numbers it: its position
/// from 1 ("persona_hands" read as "persona_hand"), 0 when unknown.
pub open spec fn spec_piece_type_to_v2168(name: Seq<u8>) -> u32 {
    let n = if name == persona_prefix() + hands() { piece_name(8) } else { name };
    piece_index_from(n, 0)
}

/// A persona piece type number as protocol 1001 names it; the empty name
/// when it is none of the types.
pub open spec fn spec_piece_type_to_v1001(v: u32) -> Seq<u8> {
    if 1 <= v <= 28 { piece_name(v - 1) } else { Seq::empty() }
}

pub(crate) fn bytes_eq(a: &[u8], b: &[u8]) -> (r: bool)
    ensures
        r == (a@ == b@),
{
    if a.len() != b.len() {
        return false;
    }
    let mut i: usize = 0;
    while i < a.len()
        invariant
            a@.len() == b@.len(),
            i <= a@.len(),
            forall|k: int| 0 <= k < i ==> a@[k] == b@[k],
        decreases a@.len() - i,
    {
        if a[i] != b[i] {
            return false;
        }
        i = i + 1;
    }
    assert(a@ =~= b@);
    true
}

fn concat(a: &[u8], b: &[u8]) -> (v: Vec<u8>)
    ensures
        v@ == a@ + b@,
{
    let mut v: Vec<u8> = Vec::new();
    let mut i: usize = 0;
    while i < a.len()
        invariant
            i <= a@.len(),
            v@ == a@.take(i as int),
        decreases a@.len() - i,
    {
        v.push(a[i]);
        i = i + 1;
        assert(v@ =~= a@.take(i as int));
    }
    let mut j: usize = 0;
    while j < b.len()
        invariant
            j <= b@.len(),
            v@ == a@ + b@.take(j as int),
        decreases b@.len() - j,
    {
        v.push(b[j]);
        j = j + 1;
        assert(v@ =~= a@ + b@.take(j as int));
    }
    assert(a@.take(a@.len() as int) =~= a@);
    assert(b@.take(b@.len() as int) =~= b@);
    v
}

fn piece_name_bytes(i: usize) -> (v: Vec<u8>)
    requires
        i < 28,
    ensures
        v@ == piece_name(i as int),
{
    let p = persona_prefix_bytes();
    let s = piece_suffix_bytes(i);
    concat(p.as_slice(), s.as_slice())
}

pub fn piece_type_to_v2168(name: &[u8]) -> (v: u32)
    ensures
        v == spec_piece_type_to_v2168(name@),
{
    let p = persona_prefix_bytes();
    let h = vec![104u8, 97, 110, 100, 115];
    assert(h@ =~= hands());
    let hands_name = concat(p.as_slice(), h.as_slice());
    let n = if bytes_eq(name, hands_name.as_slice()) { piece_name_bytes(8) } else { concat(name, &[]) };
    assert(name@ + Seq::<u8>::empty() =~= name@);
    let mut i: usize = 0;
    while i < 28
        invariant
            i <= 28,
            spec_piece_type_to_v2168(name@) == piece_index_from(n@, i as nat),
        decreases 28 - i,
    {
        let candidate = piece_name_bytes(i);
        if bytes_eq(n.as_slice(), candidate.as_slice()) {
            return (i + 1) as u32;
        }
        i = i + 1;
    }
    0
}

pub fn piece_type_to_v1001(v: u32) -> (name: Vec<u8>)
    ensures
        name@ == spec_piece_type_to_v1001(v),
{
    if 1 <= v && v <= 28 {
        piece_name_bytes((v - 1) as usize)
    } else {
        Vec::new()
    }
}

/// A tint piece type as protocol 2168 names it: without "persona_", and
/// the hand as "hands".
pub open spec fn spec_tint_type_to_v2168(name: Seq<u8>) -> Seq<u8> {
    if name == piece_name(8) || name == persona_prefix() + hands() {
        hands()
    } else if name.len() >= 8 && name.take(8) == persona_prefix() {
        name.skip(8)
    } else {
        name
    }
}

/// A tint piece type as protocol 1001 names it.
pub open spec fn spec_tint_type_to_v1001(wire: Seq<u8>) -> Seq<u8> {
    if wire == hands() {
        piece_name(8)
    } else if wire == unsupported() {
        wire
    } else {
        persona_prefix() + wire
    }
}

pub fn tint_type_to_v2168(name: &[u8]) -> (v: Vec<u8>)
    ensures
        v@ == spec_tint_type_to_v2168(name@),
{
    let p = persona_prefix_bytes();
    let h = vec![104u8, 97, 110, 100, 115];
    assert(h@ =~= hands());
    let hand = piece_name_bytes(8);
    let hands_name = concat(p.as_slice(), h.as_slice());
    if bytes_eq(name, hand.as_slice()) || bytes_eq(name, hands_name.as_slice()) {
        return h;
    }
    if name.len() >= 8 && bytes_eq(&name[0..8], p.as_slice()) {
        let mut v: Vec<u8> = Vec::new();
        let mut i: usize = 8;
        while i < name.len()
            invariant
                8 <= i <= name@.len(),
                v@ == name@.subrange(8, i as int),
            decreases name@.len() - i,
        {
            v.push(name[i]);
            i = i + 1;
            assert(v@ =~= name@.subrange(8, i as int));
        }
        assert(name@.take(8) =~= name@.subrange(0, 8));
        assert(v@ =~= name@.skip(8));
        return v;
    }
    proof {
        if name@.len() >= 8 {
            assert(name@.take(8) =~= name@.subrange(0, 8));
        }
    }
    concat(name, &[])
}

pub fn tint_type_to_v1001(wire: &[u8]) -> (v: Vec<u8>)
    ensures
        v@ == spec_tint_type_to_v1001(wire@),
{
    let h = vec![104u8, 97, 110, 100, 115];
    assert(h@ =~= hands());
    let u = vec![117u8, 110, 115, 117, 112, 112, 111, 114, 116, 101, 100];
    assert(u@ =~= unsupported());
    if bytes_eq(wire, h.as_slice()) {
        piece_name_bytes(8)
    } else if bytes_eq(wire, u.as_slice()) {
        u
    } else {
        let p = persona_prefix_bytes();
        concat(p.as_slice(), wire)
    }
}

/// The protocol-1001 list action that adds players.
pub const ACTION_ADD: u8 = 0;
/// The protocol-1001 list action that removes players.
pub const ACTION_REMOVE: u8 = 1;
/// The protocol-2168 entry variant that adds a player.
pub const VARIANT_ADD: u32 = 1;
/// The protocol-2168 entry variant that removes a player.
pub const VARIANT_REMOVE: u32 = 0;

pub const ARM_SIZE_SLIM: u8 = 0;
pub const ARM_SIZE_WIDE: u8 = 1;

/// "slim"
pub open spec fn slim() -> Seq<u8> {
    seq![115u8, 108, 105, 109]
}

/// "wide"
pub open spec fn wide() -> Seq<u8> {
    seq![119u8, 105, 100, 101]
}

/// An arm size name as protocol 2168 numbers it: slim when the name is
/// "slim" in any case, else wide.
pub open spec fn spec_arm_size_to_v2168(name: Seq<u8>) -> u8 {
    if eq_ignore_case(name, slim()) { ARM_SIZE_SLIM } else { ARM_SIZE_WIDE }
}

pub open spec fn spec_arm_size_to_v1001(size: u8) -> Seq<u8> {
    if size == ARM_SIZE_SLIM { slim() } else { wide() }
}

pub fn arm_size_to_v2168(name: &Vec<u8>) -> (v: u8)
    ensures
        v == spec_arm_size_to_v2168(name@),
{
    let s = vec![115u8, 108, 105, 109];
    assert(s@ =~= slim());
    if same_ignoring_case(name, &s) { ARM_SIZE_SLIM } else { ARM_SIZE_WIDE }
}

pub fn arm_size_to_v1001(size: u8) -> (v: Vec<u8>)
    ensures
        v@ == spec_arm_size_to_v1001(size),
{
    let v = if size == ARM_SIZE_SLIM { vec![115u8, 108, 105, 109] } else { vec![119u8, 105, 100, 101] };
    assert(v@ =~= spec_arm_size_to_v1001(size));
    v
}

/// The value of an ASCII hex digit, either case.
pub open spec fn hex_digit(b: u8) -> Option<nat> {
    if 48 <= b <= 57 {
        Some((b - 48) as nat)
    } else if 97 <= b <= 102 {
        Some((b - 87) as nat)
    } else if 65 <= b <= 70 {
        Some((b - 55) as nat)
    } else {
        None
    }
}

/// The value of a run of hex digits, most significant first.
pub open spec fn hex_value(s: Seq<u8>) -> Option<nat>
    decreases s.len(),
{
    if s.len() == 0 {
        Some(0)
    } else {
        match (hex_value(s.drop_last()), hex_digit(s.last())) {
            (Some(v), Some(d)) => Some(v * 16 + d),
            _ => None,
        }
    }
}

/// 16 to the power `k`.
pub open spec fn pow16(k: nat) -> nat
    decreases k,
{
    if k == 0 { 1 } else { 16 * pow16((k - 1) as nat) }
}

proof fn lemma_pow16_bound(k: nat)
    requires
        k <= 8,
    ensures
        pow16(k) <= 0x1_0000_0000,
        k < 8 ==> pow16(k) <= 0x1000_0000,
{
    assert(pow16(0) == 1);
    assert(pow16(1) == 16);
    assert(pow16(2) == 0x100);
    assert(pow16(3) == 0x1000);
    assert(pow16(4) == 0x1_0000);
    assert(pow16(5) == 0x10_0000);
    assert(pow16(6) == 0x100_0000);
    assert(pow16(7) == 0x1000_0000);
    assert(pow16(8) == 0x1_0000_0000);
}

/// A colour as protocol 2168 packs it, from its protocol-1001 text: an
/// optional "#", then six hex digits (opaque) or eight (alpha first), as
/// `u32::from_str_radix` reads them (a leading "+" among the counted
/// characters); 0 for any other text. The packed form has alpha in the
/// low byte, then red, green, blue.
pub open spec fn spec_parse_hex_colour(text: Seq<u8>) -> u32 {
    let hex = if text.len() > 0 && text[0] == 35 { text.drop_first() } else { text };
    let digits = if hex.len() > 0 && hex[0] == 43 { hex.drop_first() } else { hex };
    if hex.len() != 6 && hex.len() != 8 || digits.len() == 0 {
        0
    } else {
        match hex_value(digits) {
            None => 0,
            Some(v) => {
                let (a, rgb) = if hex.len() == 6 { (255nat, v) } else { (v / 16777216, v % 16777216) };
                (a + (rgb / 65536 % 256) * 256 + (rgb / 256 % 256) * 65536 + (rgb % 256) * 16777216) as u32
            },
        }
    }
}

pub fn parse_hex_colour(text: &[u8]) -> (c: u32)
    ensures
        c == spec_parse_hex_colour(text@),
{
    let start: usize = if text.len() > 0 && text[0] == 35 { 1 } else { 0 };
    let hex_len = text.len() - start;
    let ghost hex = if text@.len() > 0 && text@[0] == 35 { text@.drop_first() } else { text@ };
    assert(hex =~= text@.skip(start as int));
    let first: usize = if hex_len > 0 && text[start] == 43 { start + 1 } else { start };
    let ghost digits = if hex.len() > 0 && hex[0] == 43 { hex.drop_first() } else { hex };
    assert(digits =~= text@.skip(first as int));
    if hex_len != 6 && hex_len != 8 || first == text.len() {
        return 0;
    }
    let mut v: u64 = 0;
    let mut i: usize = first;
    while i < text.len()
        invariant
            first <= i <= text@.len(),
            text@.len() - first <= 8,
            digits =~= text@.skip(first as int),
            hex == (if text@.len() > 0 && text@[0] == 35 { text@.drop_first() } else { text@ }),
            digits == (if hex.len() > 0 && hex[0] == 43 { hex.drop_first() } else { hex }),
            hex.len() == 6 || hex.len() == 8,
            digits.len() > 0,
            hex_value(text@.subrange(first as int, i as int)) == Some(v as nat),
            v < pow16((i - first) as nat),
        decreases text@.len() - i,
    {
        let b = text[i];
        let d: u64 = if 48 <= b && b <= 57 {
            (b - 48) as u64
        } else if 97 <= b && b <= 102 {
            (b - 87) as u64
        } else if 65 <= b && b <= 70 {
            (b - 55) as u64
        } else {
            proof {
                assert(text@.subrange(first as int, i + 1).last() == b);
                assert(text@.subrange(first as int, i + 1).drop_last() =~= text@.subrange(first as int, i as int));
                lemma_hex_none_grows(text@, first as int, i as int + 1);
                assert(text@.subrange(first as int, text@.len() as int) =~= digits);
            }
            return 0;
        };
        proof {
            lemma_pow16_bound((i - first) as nat);
            assert(text@.subrange(first as int, i + 1).drop_last() =~= text@.subrange(first as int, i as int));
        }
        v = v * 16 + d;
        i = i + 1;
    }
    assert(text@.subrange(first as int, text@.len() as int) =~= digits);
    proof {
        lemma_pow16_bound((text@.len() - first) as nat);
    }
    let (a, rgb) = if hex_len == 6 { (255u64, v) } else { (v / 16777216, v % 16777216) };
    (a + (rgb / 65536 % 256) * 256 + (rgb / 256 % 256) * 65536 + (rgb % 256) * 16777216) as u32
}

/// Once a digit is not hex, no longer run that holds it has a value.
proof fn lemma_hex_none_grows(s: Seq<u8>, first: int, end: int)
    requires
        0 <= first < end <= s.len(),
        hex_value(s.subrange(first, end)) is None,
    ensures
        hex_value(s.subrange(first, s.len() as int)) is None,
    decreases s.len() - end,
{
    if end < s.len() {
        assert(s.subrange(first, end + 1).drop_last() =~= s.subrange(first, end));
        lemma_hex_none_grows(s, first, end + 1);
    }
}

/// The lower-case hex digit of `d` (below 16).
pub open spec fn hex_char(d: nat) -> u8 {
    if d < 10 { (48 + d) as u8 } else { (87 + d) as u8 }
}

/// A byte as two lower-case hex digits.
pub open spec fn hex2(x: nat) -> Seq<u8> {
    seq![hex_char(x / 16 % 16), hex_char(x % 16)]
}

fn push_hex2(v: &mut Vec<u8>, x: u32)
    requires
        x < 256,
    ensures
        final(v)@ == old(v)@ + hex2(x as nat),
{
    let hi = x / 16;
    let lo = x % 16;
    v.push(if hi < 10 { (48 + hi) as u8 } else { (87 + hi) as u8 });
    v.push(if lo < 10 { (48 + lo) as u8 } else { (87 + lo) as u8 });
    assert(final(v)@ =~= old(v)@ + hex2(x as nat));
}

/// A packed colour as protocol 1001 writes a skin colour: "#" and the red,
/// green and blue bytes in hex.
pub open spec fn spec_format_rgb_colour(packed: u32) -> Seq<u8> {
    seq![35u8] + hex2((packed / 256 % 256) as nat) + hex2((packed / 65536 % 256) as nat)
        + hex2((packed / 16777216 % 256) as nat)
}

/// A packed colour as protocol 1001 writes a tint colour: "#0" for zero,
/// else "#" and the alpha, red, green and blue bytes in hex.
pub open spec fn spec_format_argb_colour(packed: u32) -> Seq<u8> {
    if packed == 0 {
        seq![35u8, 48]
    } else {
        seq![35u8] + hex2((packed % 256) as nat) + hex2((packed / 256 % 256) as nat)
            + hex2((packed / 65536 % 256) as nat) + hex2((packed / 16777216 % 256) as nat)
    }
}

pub fn format_rgb_colour(packed: u32) -> (v: Vec<u8>)
    ensures
        v@ == spec_format_rgb_colour(packed),
{
    let mut v = vec![35u8];
    push_hex2(&mut v, packed / 256 % 256);
    push_hex2(&mut v, packed / 65536 % 256);
    push_hex2(&mut v, packed / 16777216 % 256);
    v
}

pub fn format_argb_colour(packed: u32) -> (v: Vec<u8>)
    ensures
        v@ == spec_format_argb_colour(packed),
{
    if packed == 0 {
        let v = vec![35u8, 48];
        assert(v@ =~= seq![35u8, 48]);
        return v;
    }
    let mut v = vec![35u8];
    push_hex2(&mut v, packed % 256);
    push_hex2(&mut v, packed / 256 % 256);
    push_hex2(&mut v, packed / 65536 % 256);
    push_hex2(&mut v, packed / 16777216 % 256);
    v
}

/// `s` without its dashes.
pub open spec fn strip_dashes(s: Seq<u8>) -> Seq<u8>
    decreases s.len(),
{
    if s.len() == 0 {
        Seq::empty()
    } else {
        strip_dashes(s.drop_last()) + if s.last() == 45 { Seq::empty() } else { seq![s.last()] }
    }
}

/// The hex digit at `i` of `d`.
pub open spec fn nibble(d: Seq<u8>, i: int) -> nat {
    match hex_digit(d[i]) {
        Some(x) => x,
        None => 0,
    }
}

/// A UUID's text as protocol 2168 writes the id: the sixteen bytes of the
/// two little-endian halves its 32 hex digits (dashes anywhere) spell, or
/// sixteen zeros when the text is not such a UUID.
pub open spec fn spec_parse_uuid(text: Seq<u8>) -> Seq<u8> {
    let d = strip_dashes(text);
    if d.len() == 32 && (forall|i: int| 0 <= i < 32 ==> (#[trigger] hex_digit(d[i])) is Some) {
        Seq::new(16, |k: int| if k < 8 {
            (nibble(d, 14 - 2 * k) * 16 + nibble(d, 15 - 2 * k)) as u8
        } else {
            (nibble(d, 30 - 2 * (k - 8)) * 16 + nibble(d, 31 - 2 * (k - 8))) as u8
        })
    } else {
        zeros(16)
    }
}

pub fn parse_uuid(text: &[u8]) -> (id: Vec<u8>)
    ensures
        id@ == spec_parse_uuid(text@),
{
    let mut d: Vec<u8> = Vec::new();
    let mut i: usize = 0;
    while i < text.len()
        invariant
            i <= text@.len(),
            d@ == strip_dashes(text@.take(i as int)),
            forall|j: int| 0 <= j < d@.len() ==> (#[trigger] hex_digit(d@[j])) is Some,
        decreases text@.len() - i,
    {
        let b = text[i];
        proof {
            assert(text@.take(i + 1).drop_last() =~= text@.take(i as int));
            assert(text@.take(i + 1).last() == b);
        }
        if b != 45 {
            let hexy = (48 <= b && b <= 57) || (97 <= b && b <= 102) || (65 <= b && b <= 70);
            if !hexy || d.len() >= 32 {
                proof { lemma_dashes_spoil(text@, i as int); }
                return vec![0u8, 0, 0, 0, 0, 0, 0, 0, 0, 0, 0, 0, 0, 0, 0, 0];
            }
            d.push(b);
        }
        i = i + 1;
    }
    assert(text@.take(text@.len() as int) =~= text@);
    if d.len() != 32 {
        let z = vec![0u8, 0, 0, 0, 0, 0, 0, 0, 0, 0, 0, 0, 0, 0, 0, 0];
        assert(z@ =~= zeros(16));
        return z;
    }
    let mut id: Vec<u8> = Vec::new();
    let mut k: usize = 0;
    while k < 16
        invariant
            k <= 16,
            d@.len() == 32,
            forall|j: int| 0 <= j < 32 ==> (#[trigger] hex_digit(d@[j])) is Some,
            id@.len() == k,
            forall|j: int| 0 <= j < k ==> id@[j] == spec_parse_uuid(text@)[j],
            d@ == strip_dashes(text@),
        decreases 16 - k,
    {
        let (hi_at, lo_at) = if k < 8 { (14 - 2 * k, 15 - 2 * k) } else { (30 - 2 * (k - 8), 31 - 2 * (k - 8)) };
        let hi = nibble_of(d[hi_at]);
        let lo = nibble_of(d[lo_at]);
        id.push(hi * 16 + lo);
        k = k + 1;
    }
    assert(id@ =~= spec_parse_uuid(text@));
    id
}

fn nibble_of(b: u8) -> (n: u8)
    requires
        hex_digit(b) is Some,
    ensures
        n as nat == hex_digit(b).unwrap(),
        n < 16,
{
    if 48 <= b && b <= 57 {
        b - 48
    } else if 97 <= b && b <= 102 {
        b - 87
    } else {
        b - 55
    }
}

/// Text that holds a character other than a dash or a hex digit, or more
/// than 32 hex digits, is no UUID.
proof fn lemma_dashes_spoil(text: Seq<u8>, i: int)
    requires
        0 <= i < text.len(),
        text[i] != 45,
        hex_digit(text[i]) is None || strip_dashes(text.take(i)).len() >= 32,
    ensures
        spec_parse_uuid(text) == zeros(16),
{
    lemma_strip_dashes_extend(text, i);
    assert(spec_parse_uuid(text) =~= zeros(16)) by {
        let d = strip_dashes(text);
        let p = strip_dashes(text.take(i));
        if hex_digit(text[i]) is None {
            if d.len() == 32 {
                assert(d[p.len() as int] == text[i]);
                assert(hex_digit(d[p.len() as int]) is None);
            }
        }
    }
}

/// The text's dash-free digits start with those before `i`, then the
/// character at `i`.
proof fn lemma_strip_dashes_extend(text: Seq<u8>, i: int)
    requires
        0 <= i < text.len(),
        text[i] != 45,
    ensures
        strip_dashes(text).len() >= strip_dashes(text.take(i)).len() + 1,
        strip_dashes(text)[strip_dashes(text.take(i)).len() as int] == text[i],
    decreases text.len(),
{
    if i == text.len() - 1 {
        assert(text.drop_last() =~= text.take(i));
    } else {
        lemma_strip_dashes_extend(text.drop_last(), i);
        assert(text.drop_last().take(i) =~= text.take(i));
    }
}

/// The 32 hex digits of a UUID's two halves, most significant first.
pub open spec fn uuid_hex(b: Seq<u8>) -> Seq<u8> {
    Seq::new(32, |j: int| {
        let byte = if j < 16 { b[7 - j / 2] } else { b[15 - (j - 16) / 2] };
        if j % 2 == 0 { hex_char((byte / 16) as nat) } else { hex_char((byte % 16) as nat) }
    })
}

/// A UUID's bytes as protocol 1001 writes the id: the empty text for the
/// zero id, else the 32 hex digits in groups of 8, 4, 4, 4 and 12.
pub open spec fn spec_format_uuid(b: Seq<u8>) -> Seq<u8> {
    if b == zeros(16) {
        Seq::empty()
    } else {
        let h = uuid_hex(b);
        h.subrange(0, 8) + seq![45u8] + h.subrange(8, 12) + seq![45u8] + h.subrange(12, 16) + seq![45u8]
            + h.subrange(16, 20) + seq![45u8] + h.subrange(20, 32)
    }
}

/// The number of dashes written before hex digit `k` of a UUID.
pub open spec fn dashes_before(k: int) -> int {
    if k > 20 { 4 } else if k > 16 { 3 } else if k > 12 { 2 } else if k > 8 { 1 } else { 0 }
}

pub fn format_uuid(b: &[u8]) -> (text: Vec<u8>)
    requires
        b@.len() == 16,
    ensures
        text@ == spec_format_uuid(b@),
{
    let mut zero = true;
    let mut i: usize = 0;
    while i < 16
        invariant
            i <= 16,
            b@.len() == 16,
            zero == forall|k: int| 0 <= k < i ==> b@[k] == 0,
        decreases 16 - i,
    {
        if b[i] != 0 {
            zero = false;
        }
        i = i + 1;
    }
    if zero {
        assert(b@ =~= zeros(16));
        return Vec::new();
    }
    assert(b@ != zeros(16)) by {
        let k = choose|k: int| 0 <= k < 16 && b@[k] != 0;
        assert(zeros(16)[k] == 0);
    }
    let mut h: Vec<u8> = Vec::new();
    let mut j: usize = 0;
    while j < 32
        invariant
            j <= 32,
            b@.len() == 16,
            h@ == uuid_hex(b@).take(j as int),
        decreases 32 - j,
    {
        let byte = if j < 16 { b[7 - j / 2] } else { b[15 - (j - 16) / 2] };
        let d = if j % 2 == 0 { byte / 16 } else { byte % 16 };
        h.push(if d < 10 { 48 + d } else { 87 + d });
        j = j + 1;
        assert(h@ =~= uuid_hex(b@).take(j as int));
    }
    assert(h@ =~= uuid_hex(b@));
    let mut text: Vec<u8> = Vec::new();
    let mut k: usize = 0;
    while k < 32
        invariant
            k <= 32,
            h@ == uuid_hex(b@),
            text@ == spec_format_uuid(b@).take(k + dashes_before(k as int)),
            b@ != zeros(16),
        decreases 32 - k,
    {
        if k == 8 || k == 12 || k == 16 || k == 20 {
            text.push(45);
        }
        text.push(h[k]);
        k = k + 1;
        assert(text@ =~= spec_format_uuid(b@).take(k + dashes_before(k as int)));
    }
    assert(text@ =~= spec_format_uuid(b@));
    text
}

/// A skin animation: its image width, height and image (`fields`), its
/// type, its frame count (the four bytes of a float) and its expression
/// type.
pub struct AnimationV {
    pub fields: Seq<Seq<u8>>,
    pub animation_type: u32,
    pub frame_count: Seq<u8>,
    pub expression_type: u32,
}

/// A persona piece, with its type as protocol 2168 numbers it and its pack
/// id as sixteen bytes.
pub struct PieceV {
    pub piece_id: Seq<u8>,
    pub piece_type: u32,
    pub pack_id: Seq<u8>,
    pub default: bool,
    pub product_id: Seq<u8>,
}

/// A tint: its piece type as protocol 1001 names it, and four packed
/// colours.
pub struct TintV {
    pub piece_type: Seq<u8>,
    pub colours: (u32, u32, u32, u32),
}

/// A skin as both protocols describe it: its id, PlayFab id, resource
/// patch, image width, height and data (`head`); its animations; its cape
/// width, height and data, geometry, geometry engine version, animation
/// data, cape id and full id (`middle`); its arm size and packed colour;
/// its persona pieces and tints; its premium, persona, cape-on-classic,
/// primary-user and override-appearance flags; whether it is trusted; and
/// its profile hash.
pub struct SkinV {
    pub head: Seq<Seq<u8>>,
    pub animations: Seq<AnimationV>,
    pub middle: Seq<Seq<u8>>,
    pub arm_size: u8,
    pub skin_colour: u32,
    pub persona_pieces: Seq<PieceV>,
    pub tint_colours: Seq<TintV>,
    pub flags: Seq<bool>,
    pub trusted: bool,
    pub profile_hash: Seq<u8>,
}

/// An added player: its actor id; its user name, XUID, platform chat id
/// and build platform (`names`); its skin; its teacher, host and
/// sub-client flags; and its colour.
pub struct AddedV {
    pub entity_unique_id: i64,
    pub names: Seq<Seq<u8>>,
    pub skin: SkinV,
    pub roles: Seq<bool>,
    pub player_colour: u32,
}

/// A list entry: the player's id and, for an addition, the player.
pub struct EntryV {
    pub uuid: Seq<u8>,
    pub added: Option<AddedV>,
}

/// Fields of two kinds, one after the other: a length-prefixed string
/// where `kinds` says true, four raw bytes where it says false.
pub open spec fn take_parts(s: Seq<u8>, kinds: Seq<bool>) -> Option<(Seq<Seq<u8>>, Seq<u8>)>
    decreases kinds.len(),
{
    if kinds.len() == 0 {
        Some((Seq::empty(), s))
    } else {
        match take_parts(s, kinds.drop_last()) {
            Some((v, r)) => match if kinds.last() { take_str(r) } else { take_fixed(4, r) } {
                Some((x, r2)) => Some((v.push(x), r2)),
                None => None,
            },
            None => None,
        }
    }
}

/// One field: a length-prefixed string, or its raw bytes.
pub open spec fn ser_part(x: Seq<u8>, is_str: bool) -> Seq<u8> {
    if is_str { ser_str(x) } else { x }
}

/// The fields `v` one after the other, field `i` written as a string where
/// `kinds` says true at `i`, as raw bytes otherwise.
pub open spec fn ser_parts(v: Seq<Seq<u8>>, kinds: Seq<bool>) -> Seq<u8>
    decreases v.len(),
{
    if v.len() == 0 {
        Seq::empty()
    } else {
        let i = v.len() - 1;
        ser_parts(v.drop_last(), kinds) + ser_part(v.last(), i < kinds.len() && kinds[i])
    }
}

/// The kinds of a skin's head: id, PlayFab id, resource patch, width,
/// height, image.
pub open spec fn skin_head_kinds() -> Seq<bool> {
    seq![true, true, true, false, false, true]
}

/// The kinds of a skin's middle: cape width, height and image, geometry,
/// engine version, animation data, cape id, full id.
pub open spec fn skin_middle_kinds() -> Seq<bool> {
    seq![false, false, true, true, true, true, true, true]
}

/// The kinds of an animation's head: width, height, image.
pub open spec fn animation_kinds() -> Seq<bool> {
    seq![false, false, true]
}

/// The kinds of an added player's names: user name, XUID, platform chat
/// id, build platform.
pub open spec fn names_kinds() -> Seq<bool> {
    seq![true, true, true, false]
}

/// The big-endian bytes of a 32-bit value.
pub open spec fn be32(v: u32) -> Seq<u8> {
    seq![(v / 16777216) as u8, ((v / 65536) % 256) as u8, ((v / 256) % 256) as u8, (v % 256) as u8]
}

pub open spec fn from_be32(b: Seq<u8>) -> u32 {
    (b[3] + b[2] * 256 + b[1] * 65536 + b[0] * 16777216) as u32
}

pub open spec fn take_u32le(s: Seq<u8>) -> Option<(u32, Seq<u8>)> {
    match take_fixed(4, s) {
        Some((b, r)) => Some((from_le32(b), r)),
        None => None,
    }
}

pub open spec fn take_u32be(s: Seq<u8>) -> Option<(u32, Seq<u8>)> {
    match take_fixed(4, s) {
        Some((b, r)) => Some((from_be32(b), r)),
        None => None,
    }
}

/// A count of four little-endian bytes that is no larger than what is
/// left to read.
pub open spec fn take_u32_count(s: Seq<u8>) -> Option<(u32, Seq<u8>)> {
    match take_u32le(s) {
        Some((c, r)) => if c > r.len() { None } else { Some((c, r)) },
        None => None,
    }
}

pub open spec fn take_bool(s: Seq<u8>) -> Option<(bool, Seq<u8>)> {
    take_flag(s)
}

/// `n` booleans.
pub open spec fn take_bools(s: Seq<u8>, n: nat) -> Option<(Seq<bool>, Seq<u8>)>
    decreases n,
{
    if n == 0 {
        Some((Seq::empty(), s))
    } else {
        match take_bools(s, (n - 1) as nat) {
            Some((v, r)) => match take_bool(r) {
                Some((b, r2)) => Some((v.push(b), r2)),
                None => None,
            },
            None => None,
        }
    }
}

pub open spec fn ser_bools(v: Seq<bool>) -> Seq<u8>
    decreases v.len(),
{
    if v.len() == 0 { Seq::empty() } else { ser_bools(v.drop_last()) + ser_bool(v.last()) }
}

/// The text "true" or "false".
pub open spec fn bool_text(b: bool) -> Seq<u8> {
    if b { seq![116u8, 114, 117, 101] } else { seq![102u8, 97, 108, 115, 101] }
}

/// `n` items, each read by `f`, one after the other.
pub open spec fn take_many<T>(s: Seq<u8>, n: nat, f: spec_fn(Seq<u8>) -> Option<(T, Seq<u8>)>) -> Option<(Seq<T>, Seq<u8>)>
    decreases n,
{
    if n == 0 {
        Some((Seq::empty(), s))
    } else {
        match take_many(s, (n - 1) as nat, f) {
            Some((v, r)) => match f(r) {
                Some((x, r2)) => Some((v.push(x), r2)),
                None => None,
            },
            None => None,
        }
    }
}

/// The items of `v`, each written by `f`, one after the other.
pub open spec fn ser_many<T>(v: Seq<T>, f: spec_fn(T) -> Seq<u8>) -> Seq<u8>
    decreases v.len(),
{
    if v.len() == 0 { Seq::empty() } else { ser_many(v.drop_last(), f) + f(v.last()) }
}

/// Once an item cannot be read, no longer run of items can.
proof fn lemma_many_stuck<T>(s: Seq<u8>, i: nat, n: nat, f: spec_fn(Seq<u8>) -> Option<(T, Seq<u8>)>)
    requires
        i <= n,
        take_many(s, i, f) is None,
    ensures
        take_many(s, n, f) is None,
    decreases n - i,
{
    if i < n {
        lemma_many_stuck(s, i + 1, n, f);
    }
}

/// A count: a variable-length integer in protocol 2168, four little-endian
/// bytes no larger than what is left in protocol 1001.
pub open spec fn take_count(s: Seq<u8>, v2168: bool) -> Option<(u32, Seq<u8>)> {
    if v2168 { take_u32v(s) } else { take_u32_count(s) }
}

pub open spec fn ser_count(n: nat, v2168: bool) -> Seq<u8> {
    if v2168 { ser_uvarint(n) } else { le32(n as u32) }
}

/// A number: a variable-length integer in protocol 2168, four little-endian
/// bytes in protocol 1001.
pub open spec fn take_num(s: Seq<u8>, v2168: bool) -> Option<(u32, Seq<u8>)> {
    if v2168 { take_u32v(s) } else { take_u32le(s) }
}

pub open spec fn ser_num(v: u32, v2168: bool) -> Seq<u8> {
    if v2168 { ser_u32v(v) } else { le32(v) }
}

pub open spec fn take_anim(s: Seq<u8>, v2168: bool) -> Option<(AnimationV, Seq<u8>)> {
    match take_parts(s, animation_kinds()) {
        Some((fields, r1)) => match take_num(r1, v2168) {
            Some((t, r2)) => match take_fixed(4, r2) {
                Some((fc, r3)) => match take_num(r3, v2168) {
                    Some((e, r4)) => Some((AnimationV { fields, animation_type: t, frame_count: fc, expression_type: e }, r4)),
                    None => None,
                },
                None => None,
            },
            None => None,
        },
        None => None,
    }
}

#[verifier::opaque]
pub open spec fn ser_anim(a: AnimationV, v2168: bool) -> Seq<u8> {
    ser_parts(a.fields, animation_kinds()) + ser_num(a.animation_type, v2168) + a.frame_count + ser_num(a.expression_type, v2168)
}

pub open spec fn anim_reader(v2168: bool) -> spec_fn(Seq<u8>) -> Option<(AnimationV, Seq<u8>)> {
    |s: Seq<u8>| take_anim(s, v2168)
}

pub open spec fn anim_writer(v2168: bool) -> spec_fn(AnimationV) -> Seq<u8> {
    |a: AnimationV| ser_anim(a, v2168)
}

/// A persona piece. Protocol 1001 names the type and writes the pack id as
/// text; protocol 2168 numbers the type (four little-endian bytes) and
/// writes the sixteen bytes of the id.
pub open spec fn take_piece(s: Seq<u8>, v2168: bool) -> Option<(PieceV, Seq<u8>)> {
    match take_str(s) {
        Some((piece_id, r1)) => match (if v2168 {
            match take_u32le(r1) {
                Some((t, r)) => match take_fixed(16, r) {
                    Some((pack, r2)) => Some(((t, pack), r2)),
                    None => None,
                },
                None => None,
            }
        } else {
            match take_str(r1) {
                Some((name, r)) => match take_str(r) {
                    Some((text, r2)) => Some(((spec_piece_type_to_v2168(name), spec_parse_uuid(text)), r2)),
                    None => None,
                },
                None => None,
            }
        }) {
            Some(((piece_type, pack_id), r3)) => match take_bool(r3) {
                Some((default, r4)) => match take_str(r4) {
                    Some((product_id, r5)) => Some((PieceV { piece_id, piece_type, pack_id, default, product_id }, r5)),
                    None => None,
                },
                None => None,
            },
            None => None,
        },
        None => None,
    }
}

/// A pack id as protocol 1001 writes it; an id that is not sixteen bytes
/// is written as the empty text.
pub open spec fn pack_text(b: Seq<u8>) -> Seq<u8> {
    if b.len() == 16 { spec_format_uuid(b) } else { Seq::empty() }
}

#[verifier::opaque]
pub open spec fn ser_piece(p: PieceV, v2168: bool) -> Seq<u8> {
    ser_str(p.piece_id) + (if v2168 {
        le32(p.piece_type) + p.pack_id
    } else {
        ser_str(spec_piece_type_to_v1001(p.piece_type)) + ser_str(pack_text(p.pack_id))
    }) + ser_bool(p.default) + ser_str(p.product_id)
}

pub open spec fn piece_reader(v2168: bool) -> spec_fn(Seq<u8>) -> Option<(PieceV, Seq<u8>)> {
    |s: Seq<u8>| take_piece(s, v2168)
}

pub open spec fn piece_writer(v2168: bool) -> spec_fn(PieceV) -> Seq<u8> {
    |p: PieceV| ser_piece(p, v2168)
}

pub open spec fn str_reader() -> spec_fn(Seq<u8>) -> Option<(Seq<u8>, Seq<u8>)> {
    |s: Seq<u8>| take_str(s)
}

/// The colour of text `i` of `texts`, or zero where there is none.
pub open spec fn colour_at(texts: Seq<Seq<u8>>, i: int) -> u32 {
    if i < texts.len() { spec_parse_hex_colour(texts[i]) } else { 0 }
}

/// A tint. Protocol 1001 writes the piece type as it names it and a count
/// of colour texts, of which the first four count; protocol 2168 writes the
/// type without its "persona_" prefix and four big-endian colours.
pub open spec fn take_tint(s: Seq<u8>, v2168: bool) -> Option<(TintV, Seq<u8>)> {
    match take_str(s) {
        Some((name, r1)) => if v2168 {
            match take_u32be(r1) {
                Some((c0, r2)) => match take_u32be(r2) {
                    Some((c1, r3)) => match take_u32be(r3) {
                        Some((c2, r4)) => match take_u32be(r4) {
                            Some((c3, r5)) => Some((TintV { piece_type: spec_tint_type_to_v1001(name), colours: (c0, c1, c2, c3) }, r5)),
                            None => None,
                        },
                        None => None,
                    },
                    None => None,
                },
                None => None,
            }
        } else {
            match take_u32_count(r1) {
                Some((n, r2)) => match take_many(r2, n as nat, str_reader()) {
                    Some((texts, r3)) => Some((TintV {
                        piece_type: name,
                        colours: (colour_at(texts, 0), colour_at(texts, 1), colour_at(texts, 2), colour_at(texts, 3)),
                    }, r3)),
                    None => None,
                },
                None => None,
            }
        },
        None => None,
    }
}

#[verifier::opaque]
pub open spec fn ser_tint(t: TintV, v2168: bool) -> Seq<u8> {
    let (c0, c1, c2, c3) = t.colours;
    if v2168 {
        ser_str(spec_tint_type_to_v2168(t.piece_type)) + be32(c0) + be32(c1) + be32(c2) + be32(c3)
    } else {
        ser_str(t.piece_type) + le32(4) + ser_str(spec_format_argb_colour(c0)) + ser_str(spec_format_argb_colour(c1))
            + ser_str(spec_format_argb_colour(c2)) + ser_str(spec_format_argb_colour(c3))
    }
}

pub open spec fn tint_reader(v2168: bool) -> spec_fn(Seq<u8>) -> Option<(TintV, Seq<u8>)> {
    |s: Seq<u8>| take_tint(s, v2168)
}

pub open spec fn tint_writer(v2168: bool) -> spec_fn(TintV) -> Seq<u8> {
    |t: TintV| ser_tint(t, v2168)
}

/// A skin's arm size and colour: protocol 1001 names the arm size and
/// writes the colour as "#rrggbb" text, protocol 2168 writes a byte and four
/// big-endian bytes.
pub open spec fn take_look(s: Seq<u8>, v2168: bool) -> Option<((u8, u32), Seq<u8>)> {
    if v2168 {
        match take_u8(s) {
            Some((arm, r1)) => match take_u32be(r1) {
                Some((colour, r2)) => Some(((arm, colour), r2)),
                None => None,
            },
            None => None,
        }
    } else {
        match take_str(s) {
            Some((arm, r1)) => match take_str(r1) {
                Some((colour, r2)) => Some(((spec_arm_size_to_v2168(arm), spec_parse_hex_colour(colour)), r2)),
                None => None,
            },
            None => None,
        }
    }
}

pub open spec fn ser_look(arm: u8, colour: u32, v2168: bool) -> Seq<u8> {
    if v2168 {
        ser_u8(arm) + be32(colour)
    } else {
        ser_str(spec_arm_size_to_v1001(arm)) + ser_str(spec_format_rgb_colour(colour))
    }
}

/// "true"
pub open spec fn true_text() -> Seq<u8> {
    seq![116u8, 114, 117, 101]
}

/// What follows a skin's flags: nothing in protocol 1001 (the skin is not
/// trusted and has no profile hash there), the trusted flag as text ("true"
/// in any case) and the profile hash in protocol 2168.
pub open spec fn take_tail(s: Seq<u8>, v2168: bool) -> Option<((bool, Seq<u8>), Seq<u8>)> {
    if v2168 {
        match take_str(s) {
            Some((text, r1)) => match take_str(r1) {
                Some((hash, r2)) => Some(((eq_ignore_case(text, true_text()), hash), r2)),
                None => None,
            },
            None => None,
        }
    } else {
        Some(((false, Seq::empty()), s))
    }
}

pub open spec fn ser_tail(trusted: bool, hash: Seq<u8>, v2168: bool) -> Seq<u8> {
    if v2168 { ser_str(bool_text(trusted)) + ser_str(hash) } else { Seq::empty() }
}

/// The first half of a skin: the head, the animations, the middle, the arm
/// size and the colour.
pub open spec fn take_skin_front(s: Seq<u8>, v2168: bool) -> Option<(SkinV, Seq<u8>)> {
    match take_parts(s, skin_head_kinds()) {
        Some((head, r1)) => match take_count(r1, v2168) {
            Some((na, r2)) => match take_many(r2, na as nat, anim_reader(v2168)) {
                Some((animations, r3)) => match take_parts(r3, skin_middle_kinds()) {
                    Some((middle, r4)) => match take_look(r4, v2168) {
                        Some(((arm_size, skin_colour), r5)) => Some((SkinV {
                            head,
                            animations,
                            middle,
                            arm_size,
                            skin_colour,
                            persona_pieces: Seq::empty(),
                            tint_colours: Seq::empty(),
                            flags: Seq::empty(),
                            trusted: false,
                            profile_hash: Seq::empty(),
                        }, r5)),
                        None => None,
                    },
                    None => None,
                },
                None => None,
            },
            None => None,
        },
        None => None,
    }
}

/// The second half of a skin, after `front`: the persona pieces, the tints,
/// the five flags and the tail.
pub open spec fn take_skin_back(front: SkinV, s: Seq<u8>, v2168: bool) -> Option<(SkinV, Seq<u8>)> {
    match take_count(s, v2168) {
        Some((np, r1)) => match take_many(r1, np as nat, piece_reader(v2168)) {
            Some((persona_pieces, r2)) => match take_count(r2, v2168) {
                Some((nt, r3)) => match take_many(r3, nt as nat, tint_reader(v2168)) {
                    Some((tint_colours, r4)) => match take_bools(r4, 5) {
                        Some((flags, r5)) => match take_tail(r5, v2168) {
                            Some(((trusted, profile_hash), r6)) => Some((SkinV {
                                persona_pieces,
                                tint_colours,
                                flags,
                                trusted,
                                profile_hash,
                                ..front
                            }, r6)),
                            None => None,
                        },
                        None => None,
                    },
                    None => None,
                },
                None => None,
            },
            None => None,
        },
        None => None,
    }
}

#[verifier::opaque]
pub open spec fn take_skin(s: Seq<u8>, v2168: bool) -> Option<(SkinV, Seq<u8>)> {
    match take_skin_front(s, v2168) {
        Some((front, r)) => take_skin_back(front, r, v2168),
        None => None,
    }
}

#[verifier::opaque]
pub open spec fn ser_skin_front(k: SkinV, v2168: bool) -> Seq<u8> {
    ser_parts(k.head, skin_head_kinds()) + ser_count(k.animations.len(), v2168)
        + ser_many(k.animations, anim_writer(v2168)) + ser_parts(k.middle, skin_middle_kinds())
        + ser_look(k.arm_size, k.skin_colour, v2168)
}

#[verifier::opaque]
pub open spec fn ser_skin_back(k: SkinV, v2168: bool) -> Seq<u8> {
    ser_count(k.persona_pieces.len(), v2168) + ser_many(k.persona_pieces, piece_writer(v2168))
        + ser_count(k.tint_colours.len(), v2168) + ser_many(k.tint_colours, tint_writer(v2168))
        + ser_bools(k.flags) + ser_tail(k.trusted, k.profile_hash, v2168)
}

#[verifier::opaque]
pub open spec fn ser_skin(k: SkinV, v2168: bool) -> Seq<u8> {
    ser_skin_front(k, v2168) + ser_skin_back(k, v2168)
}

/// An added player after its id: the actor id, the names, the skin, the
/// three role flags and the colour (four little-endian bytes in protocol
/// 1001, big-endian in protocol 2168).
pub open spec fn take_added(s: Seq<u8>, v2168: bool) -> Option<(AddedV, Seq<u8>)> {
    match take_i64v(s) {
        Some((entity_unique_id, r1)) => match take_parts(r1, names_kinds()) {
            Some((names, r2)) => match take_skin(r2, v2168) {
                Some((skin, r3)) => match take_bools(r3, 3) {
                    Some((roles, r4)) => match (if v2168 { take_u32be(r4) } else { take_u32le(r4) }) {
                        Some((player_colour, r5)) => Some((AddedV { entity_unique_id, names, skin, roles, player_colour }, r5)),
                        None => None,
                    },
                    None => None,
                },
                None => None,
            },
            None => None,
        },
        None => None,
    }
}

#[verifier::opaque]
pub open spec fn ser_added(a: AddedV, v2168: bool) -> Seq<u8> {
    ser_i64v(a.entity_unique_id) + ser_parts(a.names, names_kinds()) + ser_skin(a.skin, v2168) + ser_bools(a.roles)
        + (if v2168 { be32(a.player_colour) } else { le32(a.player_colour) })
}

/// A protocol-2168 entry: its variant (0 removes, 1 adds), a byte, the
/// player's id and, for an addition, the player.
pub open spec fn take_entry_v2168(s: Seq<u8>) -> Option<(EntryV, Seq<u8>)> {
    match take_u32v(s) {
        Some((variant, r1)) => match take_u8(r1) {
            Some((_, r2)) => match take_fixed(16, r2) {
                Some((uuid, r3)) => if variant == VARIANT_REMOVE {
                    Some((EntryV { uuid, added: None }, r3))
                } else if variant == VARIANT_ADD {
                    match take_added(r3, true) {
                        Some((a, r4)) => Some((EntryV { uuid, added: Some(a) }, r4)),
                        None => None,
                    }
                } else {
                    None
                },
                None => None,
            },
            None => None,
        },
        None => None,
    }
}

pub open spec fn ser_entry_v2168(e: EntryV) -> Seq<u8> {
    match e.added {
        None => ser_u32v(VARIANT_REMOVE) + ser_u8(ACTION_REMOVE) + e.uuid,
        Some(a) => ser_u32v(VARIANT_ADD) + ser_u8(ACTION_ADD) + e.uuid + ser_added(a, true),
    }
}

pub open spec fn entry_reader_v2168() -> spec_fn(Seq<u8>) -> Option<(EntryV, Seq<u8>)> {
    |s: Seq<u8>| take_entry_v2168(s)
}

pub open spec fn entry_writer_v2168() -> spec_fn(EntryV) -> Seq<u8> {
    |e: EntryV| ser_entry_v2168(e)
}

/// A protocol-1001 removal: the player's id.
pub open spec fn take_removed(s: Seq<u8>) -> Option<(EntryV, Seq<u8>)> {
    match take_fixed(16, s) {
        Some((uuid, r)) => Some((EntryV { uuid, added: None }, r)),
        None => None,
    }
}

/// A protocol-1001 addition: the player's id and the player.
pub open spec fn take_added_v1001(s: Seq<u8>) -> Option<(EntryV, Seq<u8>)> {
    match take_fixed(16, s) {
        Some((uuid, r1)) => match take_added(r1, false) {
            Some((a, r2)) => Some((EntryV { uuid, added: Some(a) }, r2)),
            None => None,
        },
        None => None,
    }
}

pub open spec fn removed_reader() -> spec_fn(Seq<u8>) -> Option<(EntryV, Seq<u8>)> {
    |s: Seq<u8>| take_removed(s)
}

pub open spec fn added_reader_v1001() -> spec_fn(Seq<u8>) -> Option<(EntryV, Seq<u8>)> {
    |s: Seq<u8>| take_added_v1001(s)
}

/// The entry with its skin's trusted flag set to `b`.
pub open spec fn set_trusted(e: EntryV, b: bool) -> EntryV {
    match e.added {
        Some(a) => EntryV { added: Some(AddedV { skin: SkinV { trusted: b, ..a.skin }, ..a }), ..e },
        None => e,
    }
}

pub open spec fn with_trusted(es: Seq<EntryV>, bs: Seq<bool>) -> Seq<EntryV> {
    Seq::new(es.len(), |j: int| set_trusted(es[j], bs[j]))
}

/// A protocol-1001 list: its action byte (0 adds, 1 removes), the count,
/// the entries, and for additions the trusted flag of each skin after the
/// list. Nothing may follow.
pub open spec fn decode_list_v1001(s: Seq<u8>) -> Option<Seq<EntryV>> {
    match take_u8(s) {
        Some((action, r1)) => match take_u32v(r1) {
            Some((n, r2)) => if action == ACTION_REMOVE {
                match take_many(r2, n as nat, removed_reader()) {
                    Some((es, r3)) => if r3.len() == 0 { Some(es) } else { None },
                    None => None,
                }
            } else if action == ACTION_ADD {
                match take_many(r2, n as nat, added_reader_v1001()) {
                    Some((es, r3)) => match take_bools(r3, n as nat) {
                        Some((bs, r4)) => if r4.len() == 0 { Some(with_trusted(es, bs)) } else { None },
                        None => None,
                    },
                    None => None,
                }
            } else {
                None
            },
            None => None,
        },
        None => None,
    }
}

/// A protocol-2168 list: the count and the entries. Nothing may follow.
pub open spec fn decode_list_v2168(s: Seq<u8>) -> Option<Seq<EntryV>> {
    match take_u32v(s) {
        Some((n, r1)) => match take_many(r1, n as nat, entry_reader_v2168()) {
            Some((es, r2)) => if r2.len() == 0 { Some(es) } else { None },
            None => None,
        },
        None => None,
    }
}

pub open spec fn encode_list_v2168(es: Seq<EntryV>) -> Seq<u8> {
    ser_uvarint(es.len()) + ser_many(es, entry_writer_v2168())
}

/// The number of additions in `es`.
pub open spec fn adds(es: Seq<EntryV>) -> nat
    decreases es.len(),
{
    if es.len() == 0 { 0 } else { adds(es.drop_last()) + if es.last().added is Some { 1nat } else { 0nat } }
}

pub open spec fn uuid_writer() -> spec_fn(EntryV) -> Seq<u8> {
    |e: EntryV| e.uuid
}

pub open spec fn added_writer_v1001() -> spec_fn(EntryV) -> Seq<u8> {
    |e: EntryV| e.uuid + match e.added {
        Some(a) => ser_added(a, false),
        None => Seq::empty(),
    }
}

/// Whether entry `e` adds a trusted skin.
pub open spec fn trusted_of(e: EntryV) -> bool {
    e.added is Some && e.added.unwrap().skin.trusted
}

pub open spec fn trusted_flags(es: Seq<EntryV>) -> Seq<bool> {
    Seq::new(es.len(), |j: int| trusted_of(es[j]))
}

/// A list the protocol-1001 way: none when it mixes additions and removals;
/// the removal action and the ids when it removes; else the addition
/// action, the entries and the trusted flags (an empty list counts as
/// additions).
pub open spec fn encode_list_v1001(es: Seq<EntryV>) -> Option<Seq<u8>> {
    let n = adds(es);
    if n != 0 && n != es.len() {
        None
    } else if n == 0 && es.len() != 0 {
        Some(ser_u8(ACTION_REMOVE) + ser_uvarint(es.len()) + ser_many(es, uuid_writer()))
    } else {
        Some(ser_u8(ACTION_ADD) + ser_uvarint(es.len()) + ser_many(es, added_writer_v1001())
            + ser_bools(trusted_flags(es)))
    }
}

/// What a PlayerList body becomes: none when it cannot be read, the inner
/// none when protocol 1001 cannot express it, else the rewritten body.
pub open spec fn spec_list_body(body: Seq<u8>, to_v2168: bool) -> Option<Option<Seq<u8>>> {
    if to_v2168 {
        match decode_list_v1001(body) {
            Some(es) => Some(Some(encode_list_v2168(es))),
            None => None,
        }
    } else {
        match decode_list_v2168(body) {
            Some(es) => Some(encode_list_v1001(es)),
            None => None,
        }
    }
}

/// PlayerList toward either protocol; a body that cannot be read or cannot
/// be expressed the protocol-1001 way is dropped.
pub open spec fn spec_player_list(st: WireState, to_v2168: bool) -> WireState {
    match spec_list_body(st.rest, to_v2168) {
        Some(Some(b)) => WireState { rest: Seq::empty(), out: st.out + b, ..st },
        _ => WireState { rest: Seq::empty(), cancelled: true, ..st },
    }
}

/// Byte strings by their views.
pub open spec fn parts_view(v: Seq<Vec<u8>>) -> Seq<Seq<u8>> {
    v.map_values(|x: Vec<u8>| x@)
}

/// A skin animation.
pub struct Animation {
    pub fields: Vec<Vec<u8>>,
    pub animation_type: u32,
    pub frame_count: Vec<u8>,
    pub expression_type: u32,
}

impl Animation {
    pub open spec fn view(&self) -> AnimationV {
        AnimationV {
            fields: parts_view(self.fields@),
            animation_type: self.animation_type,
            frame_count: self.frame_count@,
            expression_type: self.expression_type,
        }
    }
}

/// A persona piece.
pub struct PersonaPiece {
    pub piece_id: Vec<u8>,
    pub piece_type: u32,
    pub pack_id: Vec<u8>,
    pub default: bool,
    pub product_id: Vec<u8>,
}

impl PersonaPiece {
    pub open spec fn view(&self) -> PieceV {
        PieceV {
            piece_id: self.piece_id@,
            piece_type: self.piece_type,
            pack_id: self.pack_id@,
            default: self.default,
            product_id: self.product_id@,
        }
    }
}

/// A tint: a piece type and four packed colours.
pub struct TintColour {
    pub piece_type: Vec<u8>,
    pub colours: (u32, u32, u32, u32),
}

impl TintColour {
    pub open spec fn view(&self) -> TintV {
        TintV { piece_type: self.piece_type@, colours: self.colours }
    }
}

/// A skin.
pub struct Skin {
    pub head: Vec<Vec<u8>>,
    pub animations: Vec<Animation>,
    pub middle: Vec<Vec<u8>>,
    pub arm_size: u8,
    pub skin_colour: u32,
    pub persona_pieces: Vec<PersonaPiece>,
    pub tint_colours: Vec<TintColour>,
    pub flags: Vec<bool>,
    pub trusted: bool,
    pub profile_hash: Vec<u8>,
}

pub open spec fn anims_view(v: Seq<Animation>) -> Seq<AnimationV> {
    v.map_values(|a: Animation| a.view())
}

pub open spec fn pieces_view(v: Seq<PersonaPiece>) -> Seq<PieceV> {
    v.map_values(|p: PersonaPiece| p.view())
}

pub open spec fn tints_view(v: Seq<TintColour>) -> Seq<TintV> {
    v.map_values(|t: TintColour| t.view())
}

impl Skin {
    pub open spec fn view(&self) -> SkinV {
        SkinV {
            head: parts_view(self.head@),
            animations: anims_view(self.animations@),
            middle: parts_view(self.middle@),
            arm_size: self.arm_size,
            skin_colour: self.skin_colour,
            persona_pieces: pieces_view(self.persona_pieces@),
            tint_colours: tints_view(self.tint_colours@),
            flags: self.flags@,
            trusted: self.trusted,
            profile_hash: self.profile_hash@,
        }
    }
}

/// An added player.
pub struct Added {
    pub entity_unique_id: i64,
    pub names: Vec<Vec<u8>>,
    pub skin: Skin,
    pub roles: Vec<bool>,
    pub player_colour: u32,
}

impl Added {
    pub open spec fn view(&self) -> AddedV {
        AddedV {
            entity_unique_id: self.entity_unique_id,
            names: parts_view(self.names@),
            skin: self.skin.view(),
            roles: self.roles@,
            player_colour: self.player_colour,
        }
    }
}

/// A list entry: the player's sixteen-byte id and, for an addition, the
/// player.
pub struct Entry {
    pub uuid: Vec<u8>,
    pub added: Option<Added>,
}

impl Entry {
    pub open spec fn view(&self) -> EntryV {
        EntryV {
            uuid: self.uuid@,
            added: match self.added {
                Some(a) => Some(a.view()),
                None => None,
            },
        }
    }
}

pub open spec fn entries_view(v: Seq<Entry>) -> Seq<EntryV> {
    v.map_values(|e: Entry| e.view())
}

fn read_u32le(r: &mut PacketWrapper) -> (res: Result<u32, DecodeError>)
    requires
        old(r).wf(),
    ensures
        final(r).wf(),
        match take_u32le(old(r)@.rest) {
            Some((v, rest)) => res == Ok::<u32, DecodeError>(v) && final(r)@ == (WireState { rest, ..old(r)@ }),
            None => res is Err,
        },
{
    let b = r.read_fixed(4)?;
    Ok(u32_from_le(b.as_slice()))
}

fn read_u32be(r: &mut PacketWrapper) -> (res: Result<u32, DecodeError>)
    requires
        old(r).wf(),
    ensures
        final(r).wf(),
        match take_u32be(old(r)@.rest) {
            Some((v, rest)) => res == Ok::<u32, DecodeError>(v) && final(r)@ == (WireState { rest, ..old(r)@ }),
            None => res is Err,
        },
{
    let b = r.read_fixed(4)?;
    Ok(b[3] as u32 + (b[2] as u32) * 256 + (b[1] as u32) * 65536 + (b[0] as u32) * 16777216)
}

fn read_count(r: &mut PacketWrapper, v2168: bool) -> (res: Result<u32, DecodeError>)
    requires
        old(r).wf(),
    ensures
        final(r).wf(),
        match take_count(old(r)@.rest, v2168) {
            Some((v, rest)) => res == Ok::<u32, DecodeError>(v) && final(r)@ == (WireState { rest, ..old(r)@ }),
            None => res is Err,
        },
{
    if v2168 {
        r.read_u32v()
    } else {
        let n = read_u32le(r)?;
        if n as usize > r.remaining_len() {
            return Err(DecodeError);
        }
        Ok(n)
    }
}

fn read_num(r: &mut PacketWrapper, v2168: bool) -> (res: Result<u32, DecodeError>)
    requires
        old(r).wf(),
    ensures
        final(r).wf(),
        match take_num(old(r)@.rest, v2168) {
            Some((v, rest)) => res == Ok::<u32, DecodeError>(v) && final(r)@ == (WireState { rest, ..old(r)@ }),
            None => res is Err,
        },
{
    if v2168 { r.read_u32v() } else { read_u32le(r) }
}

proof fn lemma_parts_stuck(s: Seq<u8>, kinds: Seq<bool>, i: int)
    requires
        0 <= i <= kinds.len(),
        take_parts(s, kinds.take(i)) is None,
    ensures
        take_parts(s, kinds) is None,
    decreases kinds.len() - i,
{
    if i < kinds.len() {
        assert(kinds.take(i + 1).drop_last() =~= kinds.take(i));
        lemma_parts_stuck(s, kinds, i + 1);
    } else {
        assert(kinds.take(i) =~= kinds);
    }
}

fn read_parts(r: &mut PacketWrapper, kinds: &Vec<bool>) -> (res: Result<Vec<Vec<u8>>, DecodeError>)
    requires
        old(r).wf(),
    ensures
        final(r).wf(),
        match take_parts(old(r)@.rest, kinds@) {
            Some((v, rest)) => res matches Ok(x) && parts_view(x@) == v && final(r)@ == (WireState { rest, ..old(r)@ }),
            None => res is Err,
        },
{
    let ghost s0 = old(r)@.rest;
    let mut v: Vec<Vec<u8>> = Vec::new();
    let mut k: usize = 0;
    assert(kinds@.take(0) =~= Seq::<bool>::empty());
    while k < kinds.len()
        invariant
            r.wf(),
            k <= kinds@.len(),
            s0 == old(r)@.rest,
            r@.out == old(r)@.out,
            r@.cancelled == old(r)@.cancelled,
            take_parts(s0, kinds@.take(k as int)) == Some((parts_view(v@), r@.rest)),
        decreases kinds@.len() - k,
    {
        assert(kinds@.take(k + 1).drop_last() =~= kinds@.take(k as int));
        let x = if kinds[k] { r.read_str() } else { r.read_fixed(4) };
        match x {
            Ok(b) => {
                let ghost before = v@;
                v.push(b);
                assert(parts_view(v@) =~= parts_view(before).push(b@));
            },
            Err(e) => {
                proof { lemma_parts_stuck(s0, kinds@, k + 1); }
                return Err(e);
            },
        }
        k = k + 1;
    }
    assert(kinds@.take(kinds@.len() as int) =~= kinds@);
    Ok(v)
}

proof fn lemma_bools_stuck(s: Seq<u8>, i: nat, n: nat)
    requires
        i <= n,
        take_bools(s, i) is None,
    ensures
        take_bools(s, n) is None,
    decreases n - i,
{
    if i < n {
        lemma_bools_stuck(s, i + 1, n);
    }
}

fn read_bools(r: &mut PacketWrapper, n: usize) -> (res: Result<Vec<bool>, DecodeError>)
    requires
        old(r).wf(),
    ensures
        final(r).wf(),
        match take_bools(old(r)@.rest, n as nat) {
            Some((v, rest)) => res matches Ok(x) && x@ == v && final(r)@ == (WireState { rest, ..old(r)@ }),
            None => res is Err,
        },
{
    let ghost s0 = old(r)@.rest;
    let mut v: Vec<bool> = Vec::new();
    let mut k: usize = 0;
    while k < n
        invariant
            r.wf(),
            k <= n,
            s0 == old(r)@.rest,
            r@.out == old(r)@.out,
            r@.cancelled == old(r)@.cancelled,
            take_bools(s0, k as nat) == Some((v@, r@.rest)),
        decreases n - k,
    {
        match read_flag(r) {
            Ok(b) => {
                v.push(b);
            },
            Err(e) => {
                proof { lemma_bools_stuck(s0, (k + 1) as nat, n as nat); }
                return Err(e);
            },
        }
        k = k + 1;
    }
    Ok(v)
}

fn animation_kinds_vec() -> (v: Vec<bool>)
    ensures
        v@ == animation_kinds(),
{
    let v = vec![false, false, true];
    assert(v@ =~= animation_kinds());
    v
}

fn skin_head_kinds_vec() -> (v: Vec<bool>)
    ensures
        v@ == skin_head_kinds(),
{
    let v = vec![true, true, true, false, false, true];
    assert(v@ =~= skin_head_kinds());
    v
}

fn skin_middle_kinds_vec() -> (v: Vec<bool>)
    ensures
        v@ == skin_middle_kinds(),
{
    let v = vec![false, false, true, true, true, true, true, true];
    assert(v@ =~= skin_middle_kinds());
    v
}

fn names_kinds_vec() -> (v: Vec<bool>)
    ensures
        v@ == names_kinds(),
{
    let v = vec![true, true, true, false];
    assert(v@ =~= names_kinds());
    v
}

fn read_anim(r: &mut PacketWrapper, v2168: bool) -> (res: Result<Animation, DecodeError>)
    requires
        old(r).wf(),
    ensures
        final(r).wf(),
        match take_anim(old(r)@.rest, v2168) {
            Some((a, rest)) => res matches Ok(x) && x.view() == a && final(r)@ == (WireState { rest, ..old(r)@ }),
            None => res is Err,
        },
{
    let kinds = animation_kinds_vec();
    let fields = read_parts(r, &kinds)?;
    let animation_type = read_num(r, v2168)?;
    let frame_count = r.read_fixed(4)?;
    let expression_type = read_num(r, v2168)?;
    Ok(Animation { fields, animation_type, frame_count, expression_type })
}

fn read_anims(r: &mut PacketWrapper, n: u32, v2168: bool) -> (res: Result<Vec<Animation>, DecodeError>)
    requires
        old(r).wf(),
    ensures
        final(r).wf(),
        match take_many(old(r)@.rest, n as nat, anim_reader(v2168)) {
            Some((v, rest)) => res matches Ok(x) && anims_view(x@) == v && final(r)@ == (WireState { rest, ..old(r)@ }),
            None => res is Err,
        },
{
    let ghost s0 = old(r)@.rest;
    let mut v: Vec<Animation> = Vec::new();
    let mut k: u32 = 0;
    while k < n
        invariant
            r.wf(),
            k <= n,
            s0 == old(r)@.rest,
            r@.out == old(r)@.out,
            r@.cancelled == old(r)@.cancelled,
            take_many(s0, k as nat, anim_reader(v2168)) == Some((anims_view(v@), r@.rest)),
        decreases n - k,
    {
        match read_anim(r, v2168) {
            Ok(a) => {
                let ghost before = v@;
                v.push(a);
                assert(anims_view(v@) =~= anims_view(before).push(a.view()));
            },
            Err(e) => {
                proof { lemma_many_stuck(s0, (k + 1) as nat, n as nat, anim_reader(v2168)); }
                return Err(e);
            },
        }
        k = k + 1;
    }
    Ok(v)
}

#[verifier::spinoff_prover]
fn read_piece(r: &mut PacketWrapper, v2168: bool) -> (res: Result<PersonaPiece, DecodeError>)
    requires
        old(r).wf(),
    ensures
        final(r).wf(),
        match take_piece(old(r)@.rest, v2168) {
            Some((p, rest)) => res matches Ok(x) && x.view() == p && final(r)@ == (WireState { rest, ..old(r)@ }),
            None => res is Err,
        },
{
    let piece_id = r.read_str()?;
    let (piece_type, pack_id) = if v2168 {
        let t = read_u32le(r)?;
        let p = r.read_fixed(16)?;
        (t, p)
    } else {
        let name = r.read_str()?;
        let text = r.read_str()?;
        (piece_type_to_v2168(name.as_slice()), parse_uuid(text.as_slice()))
    };
    let default = read_flag(r)?;
    let product_id = r.read_str()?;
    Ok(PersonaPiece { piece_id, piece_type, pack_id, default, product_id })
}

fn read_pieces(r: &mut PacketWrapper, n: u32, v2168: bool) -> (res: Result<Vec<PersonaPiece>, DecodeError>)
    requires
        old(r).wf(),
    ensures
        final(r).wf(),
        match take_many(old(r)@.rest, n as nat, piece_reader(v2168)) {
            Some((v, rest)) => res matches Ok(x) && pieces_view(x@) == v && final(r)@ == (WireState { rest, ..old(r)@ }),
            None => res is Err,
        },
{
    let ghost s0 = old(r)@.rest;
    let mut v: Vec<PersonaPiece> = Vec::new();
    let mut k: u32 = 0;
    while k < n
        invariant
            r.wf(),
            k <= n,
            s0 == old(r)@.rest,
            r@.out == old(r)@.out,
            r@.cancelled == old(r)@.cancelled,
            take_many(s0, k as nat, piece_reader(v2168)) == Some((pieces_view(v@), r@.rest)),
        decreases n - k,
    {
        match read_piece(r, v2168) {
            Ok(p) => {
                let ghost before = v@;
                v.push(p);
                assert(pieces_view(v@) =~= pieces_view(before).push(p.view()));
            },
            Err(e) => {
                proof { lemma_many_stuck(s0, (k + 1) as nat, n as nat, piece_reader(v2168)); }
                return Err(e);
            },
        }
        k = k + 1;
    }
    Ok(v)
}

/// Reads `n` colour texts and keeps the colours of the first four.
fn read_colour_texts(r: &mut PacketWrapper, n: u32) -> (res: Result<(u32, u32, u32, u32), DecodeError>)
    requires
        old(r).wf(),
    ensures
        final(r).wf(),
        match take_many(old(r)@.rest, n as nat, str_reader()) {
            Some((texts, rest)) => res == Ok::<(u32, u32, u32, u32), DecodeError>(
                (colour_at(texts, 0), colour_at(texts, 1), colour_at(texts, 2), colour_at(texts, 3)),
            ) && final(r)@ == (WireState { rest, ..old(r)@ }),
            None => res is Err,
        },
{
    let ghost s0 = old(r)@.rest;
    let ghost mut texts: Seq<Seq<u8>> = Seq::empty();
    let mut c0: u32 = 0;
    let mut c1: u32 = 0;
    let mut c2: u32 = 0;
    let mut c3: u32 = 0;
    let mut k: u32 = 0;
    while k < n
        invariant
            r.wf(),
            k <= n,
            texts.len() == k,
            s0 == old(r)@.rest,
            r@.out == old(r)@.out,
            r@.cancelled == old(r)@.cancelled,
            take_many(s0, k as nat, str_reader()) == Some((texts, r@.rest)),
            c0 == colour_at(texts, 0),
            c1 == colour_at(texts, 1),
            c2 == colour_at(texts, 2),
            c3 == colour_at(texts, 3),
        decreases n - k,
    {
        match r.read_str() {
            Ok(t) => {
                let c = parse_hex_colour(t.as_slice());
                if k == 0 {
                    c0 = c;
                } else if k == 1 {
                    c1 = c;
                } else if k == 2 {
                    c2 = c;
                } else if k == 3 {
                    c3 = c;
                }
                proof {
                    let before = texts;
                    texts = texts.push(t@);
                    assert(forall|i: int| 0 <= i < before.len() ==> texts[i] == before[i]);
                }
            },
            Err(e) => {
                proof { lemma_many_stuck(s0, (k + 1) as nat, n as nat, str_reader()); }
                return Err(e);
            },
        }
        k = k + 1;
    }
    Ok((c0, c1, c2, c3))
}

#[verifier::spinoff_prover]
fn read_tint(r: &mut PacketWrapper, v2168: bool) -> (res: Result<TintColour, DecodeError>)
    requires
        old(r).wf(),
    ensures
        final(r).wf(),
        match take_tint(old(r)@.rest, v2168) {
            Some((t, rest)) => res matches Ok(x) && x.view() == t && final(r)@ == (WireState { rest, ..old(r)@ }),
            None => res is Err,
        },
{
    let name = r.read_str()?;
    if v2168 {
        let c0 = read_u32be(r)?;
        let c1 = read_u32be(r)?;
        let c2 = read_u32be(r)?;
        let c3 = read_u32be(r)?;
        Ok(TintColour { piece_type: tint_type_to_v1001(name.as_slice()), colours: (c0, c1, c2, c3) })
    } else {
        let n = read_count(r, false)?;
        let colours = read_colour_texts(r, n)?;
        Ok(TintColour { piece_type: name, colours })
    }
}

fn read_tints(r: &mut PacketWrapper, n: u32, v2168: bool) -> (res: Result<Vec<TintColour>, DecodeError>)
    requires
        old(r).wf(),
    ensures
        final(r).wf(),
        match take_many(old(r)@.rest, n as nat, tint_reader(v2168)) {
            Some((v, rest)) => res matches Ok(x) && tints_view(x@) == v && final(r)@ == (WireState { rest, ..old(r)@ }),
            None => res is Err,
        },
{
    let ghost s0 = old(r)@.rest;
    let mut v: Vec<TintColour> = Vec::new();
    let mut k: u32 = 0;
    while k < n
        invariant
            r.wf(),
            k <= n,
            s0 == old(r)@.rest,
            r@.out == old(r)@.out,
            r@.cancelled == old(r)@.cancelled,
            take_many(s0, k as nat, tint_reader(v2168)) == Some((tints_view(v@), r@.rest)),
        decreases n - k,
    {
        match read_tint(r, v2168) {
            Ok(t) => {
                let ghost before = v@;
                v.push(t);
                assert(tints_view(v@) =~= tints_view(before).push(t.view()));
            },
            Err(e) => {
                proof { lemma_many_stuck(s0, (k + 1) as nat, n as nat, tint_reader(v2168)); }
                return Err(e);
            },
        }
        k = k + 1;
    }
    Ok(v)
}

fn read_look(r: &mut PacketWrapper, v2168: bool) -> (res: Result<(u8, u32), DecodeError>)
    requires
        old(r).wf(),
    ensures
        final(r).wf(),
        match take_look(old(r)@.rest, v2168) {
            Some((l, rest)) => res == Ok::<(u8, u32), DecodeError>(l) && final(r)@ == (WireState { rest, ..old(r)@ }),
            None => res is Err,
        },
{
    if v2168 {
        let arm = r.read_u8()?;
        let colour = read_u32be(r)?;
        Ok((arm, colour))
    } else {
        let arm = r.read_str()?;
        let colour = r.read_str()?;
        Ok((arm_size_to_v2168(&arm), parse_hex_colour(colour.as_slice())))
    }
}

fn read_tail(r: &mut PacketWrapper, v2168: bool) -> (res: Result<(bool, Vec<u8>), DecodeError>)
    requires
        old(r).wf(),
    ensures
        final(r).wf(),
        match take_tail(old(r)@.rest, v2168) {
            Some(((trusted, hash), rest)) => res matches Ok(x) && x.0 == trusted && x.1@ == hash
                && final(r)@ == (WireState { rest, ..old(r)@ }),
            None => res is Err,
        },
{
    if v2168 {
        let text = r.read_str()?;
        let hash = r.read_str()?;
        let t = vec![116u8, 114, 117, 101];
        assert(t@ =~= true_text());
        Ok((same_ignoring_case(&text, &t), hash))
    } else {
        Ok((false, Vec::new()))
    }
}

#[verifier::spinoff_prover]
fn read_skin_front(r: &mut PacketWrapper, v2168: bool) -> (res: Result<Skin, DecodeError>)
    requires
        old(r).wf(),
    ensures
        final(r).wf(),
        match take_skin_front(old(r)@.rest, v2168) {
            Some((k, rest)) => res matches Ok(x) && x.view() == k && final(r)@ == (WireState { rest, ..old(r)@ }),
            None => res is Err,
        },
{
    let hk = skin_head_kinds_vec();
    let head = read_parts(r, &hk)?;
    let na = read_count(r, v2168)?;
    let animations = read_anims(r, na, v2168)?;
    let mk = skin_middle_kinds_vec();
    let middle = read_parts(r, &mk)?;
    let (arm_size, skin_colour) = read_look(r, v2168)?;
    let k = Skin {
        head,
        animations,
        middle,
        arm_size,
        skin_colour,
        persona_pieces: Vec::new(),
        tint_colours: Vec::new(),
        flags: Vec::new(),
        trusted: false,
        profile_hash: Vec::new(),
    };
    assert(pieces_view(k.persona_pieces@) =~= Seq::<PieceV>::empty());
    assert(tints_view(k.tint_colours@) =~= Seq::<TintV>::empty());
    assert(k.flags@ =~= Seq::<bool>::empty());
    assert(k.profile_hash@ =~= Seq::<u8>::empty());
    Ok(k)
}

#[verifier::spinoff_prover]
fn read_skin_back(r: &mut PacketWrapper, front: Skin, v2168: bool) -> (res: Result<Skin, DecodeError>)
    requires
        old(r).wf(),
    ensures
        final(r).wf(),
        match take_skin_back(front.view(), old(r)@.rest, v2168) {
            Some((k, rest)) => res matches Ok(x) && x.view() == k && final(r)@ == (WireState { rest, ..old(r)@ }),
            None => res is Err,
        },
{
    let np = read_count(r, v2168)?;
    let persona_pieces = read_pieces(r, np, v2168)?;
    let nt = read_count(r, v2168)?;
    let tint_colours = read_tints(r, nt, v2168)?;
    let flags = read_bools(r, 5)?;
    let (trusted, profile_hash) = read_tail(r, v2168)?;
    Ok(Skin { persona_pieces, tint_colours, flags, trusted, profile_hash, ..front })
}

fn read_skin(r: &mut PacketWrapper, v2168: bool) -> (res: Result<Skin, DecodeError>)
    requires
        old(r).wf(),
    ensures
        final(r).wf(),
        match take_skin(old(r)@.rest, v2168) {
            Some((k, rest)) => res matches Ok(x) && x.view() == k && final(r)@ == (WireState { rest, ..old(r)@ }),
            None => res is Err,
        },
{
    reveal(take_skin);
    let front = read_skin_front(r, v2168)?;
    read_skin_back(r, front, v2168)
}

#[verifier::spinoff_prover]
fn read_added(r: &mut PacketWrapper, v2168: bool) -> (res: Result<Added, DecodeError>)
    requires
        old(r).wf(),
    ensures
        final(r).wf(),
        match take_added(old(r)@.rest, v2168) {
            Some((a, rest)) => res matches Ok(x) && x.view() == a && final(r)@ == (WireState { rest, ..old(r)@ }),
            None => res is Err,
        },
{
    let entity_unique_id = r.read_i64v()?;
    let nk = names_kinds_vec();
    let names = read_parts(r, &nk)?;
    let skin = read_skin(r, v2168)?;
    let roles = read_bools(r, 3)?;
    let player_colour = if v2168 { read_u32be(r)? } else { read_u32le(r)? };
    Ok(Added { entity_unique_id, names, skin, roles, player_colour })
}

fn read_entry_v2168(r: &mut PacketWrapper) -> (res: Result<Entry, DecodeError>)
    requires
        old(r).wf(),
    ensures
        final(r).wf(),
        match take_entry_v2168(old(r)@.rest) {
            Some((e, rest)) => res matches Ok(x) && x.view() == e && final(r)@ == (WireState { rest, ..old(r)@ }),
            None => res is Err,
        },
{
    let variant = r.read_u32v()?;
    r.read_u8()?;
    let uuid = r.read_fixed(16)?;
    if variant == VARIANT_REMOVE {
        Ok(Entry { uuid, added: None })
    } else if variant == VARIANT_ADD {
        let a = read_added(r, true)?;
        Ok(Entry { uuid, added: Some(a) })
    } else {
        Err(DecodeError)
    }
}

fn read_removed(r: &mut PacketWrapper) -> (res: Result<Entry, DecodeError>)
    requires
        old(r).wf(),
    ensures
        final(r).wf(),
        match take_removed(old(r)@.rest) {
            Some((e, rest)) => res matches Ok(x) && x.view() == e && final(r)@ == (WireState { rest, ..old(r)@ }),
            None => res is Err,
        },
{
    let uuid = r.read_fixed(16)?;
    Ok(Entry { uuid, added: None })
}

fn read_added_v1001(r: &mut PacketWrapper) -> (res: Result<Entry, DecodeError>)
    requires
        old(r).wf(),
    ensures
        final(r).wf(),
        match take_added_v1001(old(r)@.rest) {
            Some((e, rest)) => res matches Ok(x) && x.view() == e && final(r)@ == (WireState { rest, ..old(r)@ }),
            None => res is Err,
        },
{
    let uuid = r.read_fixed(16)?;
    let a = read_added(r, false)?;
    Ok(Entry { uuid, added: Some(a) })
}

/// Which entries a list reads: protocol-2168 entries, protocol-1001
/// removals, or protocol-1001 additions.
pub open spec fn entry_reader(form: u8) -> spec_fn(Seq<u8>) -> Option<(EntryV, Seq<u8>)> {
    if form == 0 { entry_reader_v2168() } else if form == 1 { removed_reader() } else { added_reader_v1001() }
}

#[verifier::spinoff_prover]
fn read_entries(r: &mut PacketWrapper, n: u32, form: u8) -> (res: Result<Vec<Entry>, DecodeError>)
    requires
        old(r).wf(),
    ensures
        final(r).wf(),
        match take_many(old(r)@.rest, n as nat, entry_reader(form)) {
            Some((v, rest)) => res matches Ok(x) && entries_view(x@) == v && final(r)@ == (WireState { rest, ..old(r)@ }),
            None => res is Err,
        },
{
    let ghost s0 = old(r)@.rest;
    let mut v: Vec<Entry> = Vec::new();
    let mut k: u32 = 0;
    while k < n
        invariant
            r.wf(),
            k <= n,
            s0 == old(r)@.rest,
            r@.out == old(r)@.out,
            r@.cancelled == old(r)@.cancelled,
            take_many(s0, k as nat, entry_reader(form)) == Some((entries_view(v@), r@.rest)),
        decreases n - k,
    {
        let x = if form == 0 { read_entry_v2168(r) } else if form == 1 { read_removed(r) } else { read_added_v1001(r) };
        match x {
            Ok(e) => {
                let ghost before = v@;
                v.push(e);
                assert(entries_view(v@) =~= entries_view(before).push(e.view()));
            },
            Err(e) => {
                proof { lemma_many_stuck(s0, (k + 1) as nat, n as nat, entry_reader(form)); }
                return Err(e);
            },
        }
        k = k + 1;
    }
    Ok(v)
}

fn put_str(w: &mut PacketWrapper, b: &[u8])
    requires
        old(w).wf(),
    ensures
        final(w).wf(),
        final(w)@ == put(old(w)@, ser_str(b@)),
{
    let ghost o = old(w)@.out;
    w.write_u64v(b.len() as u64);
    w.write_bytes(b);
    assert(w@.out =~= o + ser_str(b@));
}

fn write_u32le(w: &mut PacketWrapper, v: u32)
    requires
        old(w).wf(),
    ensures
        final(w).wf(),
        final(w)@ == put(old(w)@, le32(v)),
{
    let b = le32_bytes(v);
    w.write_bytes(b.as_slice());
}

fn write_u32be(w: &mut PacketWrapper, v: u32)
    requires
        old(w).wf(),
    ensures
        final(w).wf(),
        final(w)@ == put(old(w)@, be32(v)),
{
    let b = vec![(v / 16777216) as u8, ((v / 65536) % 256) as u8, ((v / 256) % 256) as u8, (v % 256) as u8];
    assert(b@ =~= be32(v));
    w.write_bytes(b.as_slice());
}

fn write_count(w: &mut PacketWrapper, n: usize, v2168: bool)
    requires
        old(w).wf(),
    ensures
        final(w).wf(),
        final(w)@ == put(old(w)@, ser_count(n as nat, v2168)),
{
    if v2168 {
        w.write_u64v(n as u64);
    } else {
        write_u32le(w, n as u32);
    }
}

fn write_num(w: &mut PacketWrapper, v: u32, v2168: bool)
    requires
        old(w).wf(),
    ensures
        final(w).wf(),
        final(w)@ == put(old(w)@, ser_num(v, v2168)),
{
    if v2168 {
        w.write_u32v(v);
    } else {
        write_u32le(w, v);
    }
}

fn write_parts(w: &mut PacketWrapper, v: &Vec<Vec<u8>>, kinds: &Vec<bool>)
    requires
        old(w).wf(),
    ensures
        final(w).wf(),
        final(w)@ == put(old(w)@, ser_parts(parts_view(v@), kinds@)),
{
    let ghost o = old(w)@;
    let mut k: usize = 0;
    assert(parts_view(v@).take(0) =~= Seq::<Seq<u8>>::empty());
    while k < v.len()
        invariant
            w.wf(),
            k <= v@.len(),
            w@ == put(o, ser_parts(parts_view(v@).take(k as int), kinds@)),
        decreases v@.len() - k,
    {
        assert(parts_view(v@).take(k + 1).drop_last() =~= parts_view(v@).take(k as int));
        if k < kinds.len() && kinds[k] {
            put_str(w, v[k].as_slice());
        } else {
            w.write_bytes(v[k].as_slice());
        }
        k = k + 1;
        assert(w@.out =~= o.out + ser_parts(parts_view(v@).take(k as int), kinds@));
    }
    assert(parts_view(v@).take(v@.len() as int) =~= parts_view(v@));
}

fn write_bools(w: &mut PacketWrapper, v: &Vec<bool>)
    requires
        old(w).wf(),
    ensures
        final(w).wf(),
        final(w)@ == put(old(w)@, ser_bools(v@)),
{
    let ghost o = old(w)@;
    let mut k: usize = 0;
    assert(v@.take(0) =~= Seq::<bool>::empty());
    while k < v.len()
        invariant
            w.wf(),
            k <= v@.len(),
            w@ == put(o, ser_bools(v@.take(k as int))),
        decreases v@.len() - k,
    {
        assert(v@.take(k + 1).drop_last() =~= v@.take(k as int));
        w.write_bool(v[k]);
        k = k + 1;
        assert(w@.out =~= o.out + ser_bools(v@.take(k as int)));
    }
    assert(v@.take(v@.len() as int) =~= v@);
}

fn write_anim(w: &mut PacketWrapper, a: &Animation, v2168: bool)
    requires
        old(w).wf(),
    ensures
        final(w).wf(),
        final(w)@ == put(old(w)@, ser_anim(a.view(), v2168)),
{
    let ghost o = old(w)@.out;
    reveal(ser_anim);
    let kinds = animation_kinds_vec();
    write_parts(w, &a.fields, &kinds);
    write_num(w, a.animation_type, v2168);
    w.write_bytes(a.frame_count.as_slice());
    write_num(w, a.expression_type, v2168);
    assert(w@.out =~= o + ser_anim(a.view(), v2168));
}

fn write_anims(w: &mut PacketWrapper, v: &Vec<Animation>, v2168: bool)
    requires
        old(w).wf(),
    ensures
        final(w).wf(),
        final(w)@ == put(old(w)@, ser_many(anims_view(v@), anim_writer(v2168))),
{
    let ghost o = old(w)@;
    let mut k: usize = 0;
    assert(anims_view(v@).take(0) =~= Seq::<AnimationV>::empty());
    while k < v.len()
        invariant
            w.wf(),
            k <= v@.len(),
            w@ == put(o, ser_many(anims_view(v@).take(k as int), anim_writer(v2168))),
        decreases v@.len() - k,
    {
        assert(anims_view(v@).take(k + 1).drop_last() =~= anims_view(v@).take(k as int));
        write_anim(w, &v[k], v2168);
        k = k + 1;
        assert(w@.out =~= o.out + ser_many(anims_view(v@).take(k as int), anim_writer(v2168)));
    }
    assert(anims_view(v@).take(v@.len() as int) =~= anims_view(v@));
}

#[verifier::spinoff_prover]
fn write_piece(w: &mut PacketWrapper, p: &PersonaPiece, v2168: bool)
    requires
        old(w).wf(),
    ensures
        final(w).wf(),
        final(w)@ == put(old(w)@, ser_piece(p.view(), v2168)),
{
    let ghost o = old(w)@.out;
    reveal(ser_piece);
    put_str(w, p.piece_id.as_slice());
    if v2168 {
        write_u32le(w, p.piece_type);
        w.write_bytes(p.pack_id.as_slice());
    } else {
        let name = piece_type_to_v1001(p.piece_type);
        put_str(w, name.as_slice());
        let text = if p.pack_id.len() == 16 { format_uuid(p.pack_id.as_slice()) } else { Vec::new() };
        assert(text@ == pack_text(p.pack_id@));
        put_str(w, text.as_slice());
    }
    w.write_bool(p.default);
    put_str(w, p.product_id.as_slice());
    assert(w@.out =~= o + ser_piece(p.view(), v2168));
}

fn write_pieces(w: &mut PacketWrapper, v: &Vec<PersonaPiece>, v2168: bool)
    requires
        old(w).wf(),
    ensures
        final(w).wf(),
        final(w)@ == put(old(w)@, ser_many(pieces_view(v@), piece_writer(v2168))),
{
    let ghost o = old(w)@;
    let mut k: usize = 0;
    assert(pieces_view(v@).take(0) =~= Seq::<PieceV>::empty());
    while k < v.len()
        invariant
            w.wf(),
            k <= v@.len(),
            w@ == put(o, ser_many(pieces_view(v@).take(k as int), piece_writer(v2168))),
        decreases v@.len() - k,
    {
        assert(pieces_view(v@).take(k + 1).drop_last() =~= pieces_view(v@).take(k as int));
        write_piece(w, &v[k], v2168);
        k = k + 1;
        assert(w@.out =~= o.out + ser_many(pieces_view(v@).take(k as int), piece_writer(v2168)));
    }
    assert(pieces_view(v@).take(v@.len() as int) =~= pieces_view(v@));
}

#[verifier::spinoff_prover]
#[verifier::rlimit(30)]
fn write_tint(w: &mut PacketWrapper, t: &TintColour, v2168: bool)
    requires
        old(w).wf(),
    ensures
        final(w).wf(),
        final(w)@ == put(old(w)@, ser_tint(t.view(), v2168)),
{
    let ghost o = old(w)@.out;
    reveal(ser_tint);
    let (c0, c1, c2, c3) = t.colours;
    if v2168 {
        let wire = tint_type_to_v2168(t.piece_type.as_slice());
        put_str(w, wire.as_slice());
        write_u32be(w, c0);
        write_u32be(w, c1);
        write_u32be(w, c2);
        write_u32be(w, c3);
        assert(w@.out =~= o + ser_tint(t.view(), v2168));
    } else {
        put_str(w, t.piece_type.as_slice());
        write_u32le(w, 4);
        let x0 = format_argb_colour(c0);
        put_str(w, x0.as_slice());
        let x1 = format_argb_colour(c1);
        put_str(w, x1.as_slice());
        let x2 = format_argb_colour(c2);
        put_str(w, x2.as_slice());
        let x3 = format_argb_colour(c3);
        put_str(w, x3.as_slice());
    }
    assert(w@.out =~= o + ser_tint(t.view(), v2168));
}

fn write_tints(w: &mut PacketWrapper, v: &Vec<TintColour>, v2168: bool)
    requires
        old(w).wf(),
    ensures
        final(w).wf(),
        final(w)@ == put(old(w)@, ser_many(tints_view(v@), tint_writer(v2168))),
{
    let ghost o = old(w)@;
    let mut k: usize = 0;
    assert(tints_view(v@).take(0) =~= Seq::<TintV>::empty());
    while k < v.len()
        invariant
            w.wf(),
            k <= v@.len(),
            w@ == put(o, ser_many(tints_view(v@).take(k as int), tint_writer(v2168))),
        decreases v@.len() - k,
    {
        assert(tints_view(v@).take(k + 1).drop_last() =~= tints_view(v@).take(k as int));
        write_tint(w, &v[k], v2168);
        k = k + 1;
        assert(w@.out =~= o.out + ser_many(tints_view(v@).take(k as int), tint_writer(v2168)));
    }
    assert(tints_view(v@).take(v@.len() as int) =~= tints_view(v@));
}

#[verifier::spinoff_prover]
fn write_skin_front(w: &mut PacketWrapper, k: &Skin, v2168: bool)
    requires
        old(w).wf(),
    ensures
        final(w).wf(),
        final(w)@ == put(old(w)@, ser_skin_front(k.view(), v2168)),
{
    let ghost o = old(w)@.out;
    reveal(ser_skin_front);
    let hk = skin_head_kinds_vec();
    write_parts(w, &k.head, &hk);
    write_count(w, k.animations.len(), v2168);
    write_anims(w, &k.animations, v2168);
    let mk = skin_middle_kinds_vec();
    write_parts(w, &k.middle, &mk);
    if v2168 {
        w.write_u8(k.arm_size);
        write_u32be(w, k.skin_colour);
    } else {
        let arm = arm_size_to_v1001(k.arm_size);
        put_str(w, arm.as_slice());
        let colour = format_rgb_colour(k.skin_colour);
        put_str(w, colour.as_slice());
    }
    assert(w@.out =~= o + ser_skin_front(k.view(), v2168));
}

#[verifier::spinoff_prover]
#[verifier::rlimit(40)]
fn write_skin_back(w: &mut PacketWrapper, k: &Skin, v2168: bool)
    requires
        old(w).wf(),
    ensures
        final(w).wf(),
        final(w)@ == put(old(w)@, ser_skin_back(k.view(), v2168)),
{
    let ghost o = old(w)@.out;
    reveal(ser_skin_back);
    write_count(w, k.persona_pieces.len(), v2168);
    write_pieces(w, &k.persona_pieces, v2168);
    write_count(w, k.tint_colours.len(), v2168);
    write_tints(w, &k.tint_colours, v2168);
    write_bools(w, &k.flags);
    if v2168 {
        let text = if k.trusted { vec![116u8, 114, 117, 101] } else { vec![102u8, 97, 108, 115, 101] };
        assert(text@ =~= bool_text(k.trusted));
        put_str(w, text.as_slice());
        put_str(w, k.profile_hash.as_slice());
    }
    assert(w@.out =~= o + ser_skin_back(k.view(), v2168));
}

fn write_skin(w: &mut PacketWrapper, k: &Skin, v2168: bool)
    requires
        old(w).wf(),
    ensures
        final(w).wf(),
        final(w)@ == put(old(w)@, ser_skin(k.view(), v2168)),
{
    let ghost o = old(w)@.out;
    write_skin_front(w, k, v2168);
    write_skin_back(w, k, v2168);
    reveal(ser_skin);
    assert(w@.out =~= o + ser_skin(k.view(), v2168));
}

#[verifier::spinoff_prover]
fn write_added(w: &mut PacketWrapper, a: &Added, v2168: bool)
    requires
        old(w).wf(),
    ensures
        final(w).wf(),
        final(w)@ == put(old(w)@, ser_added(a.view(), v2168)),
{
    let ghost o = old(w)@.out;
    reveal(ser_added);
    w.write_i64v(a.entity_unique_id);
    let nk = names_kinds_vec();
    write_parts(w, &a.names, &nk);
    write_skin(w, &a.skin, v2168);
    write_bools(w, &a.roles);
    if v2168 {
        write_u32be(w, a.player_colour);
    } else {
        write_u32le(w, a.player_colour);
    }
    assert(w@.out =~= o + ser_added(a.view(), v2168));
}

/// Which entries a list writes: protocol-2168 entries, protocol-1001
/// removals (the ids), or protocol-1001 additions.
pub open spec fn entry_writer(form: u8) -> spec_fn(EntryV) -> Seq<u8> {
    if form == 0 { entry_writer_v2168() } else if form == 1 { uuid_writer() } else { added_writer_v1001() }
}

#[verifier::spinoff_prover]
fn write_entry(w: &mut PacketWrapper, e: &Entry, form: u8)
    requires
        old(w).wf(),
    ensures
        final(w).wf(),
        final(w)@ == put(old(w)@, (entry_writer(form))(e.view())),
{
    let ghost o = old(w)@.out;
    if form == 0 {
        match &e.added {
            None => {
                w.write_u32v(VARIANT_REMOVE);
                w.write_u8(ACTION_REMOVE);
                w.write_bytes(e.uuid.as_slice());
            },
            Some(a) => {
                w.write_u32v(VARIANT_ADD);
                w.write_u8(ACTION_ADD);
                w.write_bytes(e.uuid.as_slice());
                write_added(w, a, true);
            },
        }
    } else if form == 1 {
        w.write_bytes(e.uuid.as_slice());
    } else {
        w.write_bytes(e.uuid.as_slice());
        match &e.added {
            Some(a) => write_added(w, a, false),
            None => {},
        }
    }
    assert(w@.out =~= o + (entry_writer(form))(e.view()));
}

fn write_entries(w: &mut PacketWrapper, v: &Vec<Entry>, form: u8)
    requires
        old(w).wf(),
    ensures
        final(w).wf(),
        final(w)@ == put(old(w)@, ser_many(entries_view(v@), entry_writer(form))),
{
    let ghost o = old(w)@;
    let mut k: usize = 0;
    assert(entries_view(v@).take(0) =~= Seq::<EntryV>::empty());
    while k < v.len()
        invariant
            w.wf(),
            k <= v@.len(),
            w@ == put(o, ser_many(entries_view(v@).take(k as int), entry_writer(form))),
        decreases v@.len() - k,
    {
        assert(entries_view(v@).take(k + 1).drop_last() =~= entries_view(v@).take(k as int));
        write_entry(w, &v[k], form);
        k = k + 1;
        assert(w@.out =~= o.out + ser_many(entries_view(v@).take(k as int), entry_writer(form)));
    }
    assert(entries_view(v@).take(v@.len() as int) =~= entries_view(v@));
}

fn write_trusted_flags(w: &mut PacketWrapper, v: &Vec<Entry>)
    requires
        old(w).wf(),
    ensures
        final(w).wf(),
        final(w)@ == put(old(w)@, ser_bools(trusted_flags(entries_view(v@)))),
{
    let ghost o = old(w)@;
    let ghost fl = trusted_flags(entries_view(v@));
    let mut k: usize = 0;
    assert(fl.take(0) =~= Seq::<bool>::empty());
    while k < v.len()
        invariant
            w.wf(),
            k <= v@.len(),
            fl == trusted_flags(entries_view(v@)),
            fl.len() == v@.len(),
            w@ == put(o, ser_bools(fl.take(k as int))),
        decreases v@.len() - k,
    {
        assert(fl.take(k + 1).drop_last() =~= fl.take(k as int));
        let t = match &v[k].added {
            Some(a) => a.skin.trusted,
            None => false,
        };
        assert(t == fl[k as int]);
        w.write_bool(t);
        k = k + 1;
        assert(w@.out =~= o.out + ser_bools(fl.take(k as int)));
    }
    assert(fl.take(v@.len() as int) =~= fl);
}

fn count_adds(v: &Vec<Entry>) -> (n: usize)
    ensures
        n == adds(entries_view(v@)),
{
    let mut n: usize = 0;
    let mut k: usize = 0;
    assert(entries_view(v@).take(0) =~= Seq::<EntryV>::empty());
    while k < v.len()
        invariant
            k <= v@.len(),
            n <= k,
            n == adds(entries_view(v@).take(k as int)),
        decreases v@.len() - k,
    {
        assert(entries_view(v@).take(k + 1).drop_last() =~= entries_view(v@).take(k as int));
        if v[k].added.is_some() {
            n = n + 1;
        }
        k = k + 1;
    }
    assert(entries_view(v@).take(v@.len() as int) =~= entries_view(v@));
    n
}

/// The entries with each skin's trusted flag set from `bs`.
#[verifier::spinoff_prover]
fn apply_trusted(entries: Vec<Entry>, bs: &Vec<bool>) -> (out: Vec<Entry>)
    requires
        bs@.len() == entries@.len(),
    ensures
        entries_view(out@) == with_trusted(entries_view(entries@), bs@),
{
    let ghost es = entries_view(entries@);
    let n = entries.len();
    let mut rest = entries;
    let mut out: Vec<Entry> = Vec::new();
    let mut k: usize = 0;
    while k < n
        invariant
            k <= n,
            n == es.len(),
            bs@.len() == n,
            rest@.len() == n - k,
            out@.len() == k,
            forall|j: int| 0 <= j < rest@.len() ==> (#[trigger] rest@[j]).view() == es[k + j],
            forall|j: int| 0 <= j < k ==> (#[trigger] out@[j]).view() == set_trusted(es[j], bs@[j]),
        decreases n - k,
    {
        let ghost before = rest@;
        let e = rest.remove(0);
        assert(e.view() == es[k as int]);
        assert forall|j: int| 0 <= j < rest@.len() implies (#[trigger] rest@[j]).view() == es[k + 1 + j] by {
            assert(rest@[j] == before[j + 1]);
        }
        let Entry { uuid, added } = e;
        let e2 = match added {
            Some(a) => {
                let mut a = a;
                a.skin.trusted = bs[k];
                Entry { uuid, added: Some(a) }
            },
            None => Entry { uuid, added: None },
        };
        out.push(e2);
        k = k + 1;
    }
    assert(entries_view(out@) =~= with_trusted(es, bs@));
    out
}

proof fn lemma_many_len<T>(s: Seq<u8>, n: nat, f: spec_fn(Seq<u8>) -> Option<(T, Seq<u8>)>)
    requires
        take_many(s, n, f) is Some,
    ensures
        take_many(s, n, f).unwrap().0.len() == n,
    decreases n,
{
    if n > 0 {
        lemma_many_len(s, (n - 1) as nat, f);
    }
}

proof fn lemma_bools_len(s: Seq<u8>, n: nat)
    requires
        take_bools(s, n) is Some,
    ensures
        take_bools(s, n).unwrap().0.len() == n,
    decreases n,
{
    if n > 0 {
        lemma_bools_len(s, (n - 1) as nat);
    }
}

/// Reads a whole PlayerList body of protocol 1001 (`to_v2168`) or 2168.
#[verifier::spinoff_prover]
fn read_list(rd: &mut PacketWrapper, to_v2168: bool) -> (res: Result<Vec<Entry>, DecodeError>)
    requires
        old(rd).wf(),
    ensures
        match (if to_v2168 { decode_list_v1001(old(rd)@.rest) } else { decode_list_v2168(old(rd)@.rest) }) {
            Some(es) => res matches Ok(v) && entries_view(v@) == es,
            None => res is Err,
        },
{
    if to_v2168 {
        let action = rd.read_u8()?;
        let n = rd.read_u32v()?;
        if action == ACTION_REMOVE {
            let es = read_entries(rd, n, 1)?;
            if rd.has_remaining() {
                return Err(DecodeError);
            }
            Ok(es)
        } else if action == ACTION_ADD {
            let ghost s2 = rd@.rest;
            let es = read_entries(rd, n, 2)?;
            proof { lemma_many_len(s2, n as nat, added_reader_v1001()); }
            let ghost s3 = rd@.rest;
            let bs = read_bools(rd, n as usize)?;
            proof { lemma_bools_len(s3, n as nat); }
            assert(entries_view(es@).len() == es@.len());
            if rd.has_remaining() {
                return Err(DecodeError);
            }
            Ok(apply_trusted(es, &bs))
        } else {
            Err(DecodeError)
        }
    } else {
        let n = rd.read_u32v()?;
        let es = read_entries(rd, n, 0)?;
        if rd.has_remaining() {
            return Err(DecodeError);
        }
        Ok(es)
    }
}

/// Rewrites a PlayerList body: `Ok(true)` with the body rewritten,
/// `Ok(false)` when protocol 1001 cannot express it, an error when it
/// cannot be read. The body is consumed in every case.
#[verifier::spinoff_prover]
pub fn list_body(w: &mut PacketWrapper, to_v2168: bool) -> (r: Result<bool, DecodeError>)
    requires
        old(w).wf(),
    ensures
        final(w).wf(),
        match spec_list_body(old(w)@.rest, to_v2168) {
            None => r is Err && final(w)@ == (WireState { rest: Seq::empty(), ..old(w)@ }),
            Some(None) => r == Ok::<bool, DecodeError>(false) && final(w)@ == (WireState { rest: Seq::empty(), ..old(w)@ }),
            Some(Some(b)) => r == Ok::<bool, DecodeError>(true)
                && final(w)@ == (WireState { rest: Seq::empty(), out: old(w)@.out + b, ..old(w)@ }),
        },
{
    let n = w.remaining_len();
    let body = match w.read_fixed(n) {
        Ok(b) => b,
        Err(e) => return Err(e),
    };
    assert(body@ =~= old(w)@.rest);
    assert(w@.rest =~= Seq::<u8>::empty());
    let mut rd = PacketWrapper::new(body.as_slice());
    let entries = read_list(&mut rd, to_v2168)?;
    let ghost es = entries_view(entries@);
    let ghost o = w@.out;
    let len = entries.len();
    assert(es.len() == len);
    if to_v2168 {
        w.write_u64v(len as u64);
        write_entries(w, &entries, 0);
        assert(w@.out =~= o + encode_list_v2168(es));
        Ok(true)
    } else {
        let a = count_adds(&entries);
        if a != 0 && a != len {
            return Ok(false);
        }
        if a == 0 && len != 0 {
            w.write_u8(ACTION_REMOVE);
            w.write_u64v(len as u64);
            write_entries(w, &entries, 1);
        } else {
            w.write_u8(ACTION_ADD);
            w.write_u64v(len as u64);
            write_entries(w, &entries, 2);
            write_trusted_flags(w, &entries);
        }
        assert(w@.out =~= o + encode_list_v1001(es).unwrap());
        Ok(true)
    }
}

/// The message PlayerList leaves when it drops a list: that protocol 1001
/// cannot express a mixed list, or that the list cannot be read.
pub open spec fn spec_list_note(st: WireState, to_v2168: bool) -> Option<(Option<u16>, Seq<char>)> {
    match spec_list_body(st.rest, to_v2168) {
        Some(Some(_)) => None,
        Some(None) => Some((None, "PlayerList: cancelled, a v2168 list mixes added and removed entries and v1001 has one action byte for the whole packet"@)),
        None => Some((None, "PlayerList: cancelled, cannot decode: malformed body"@)),
    }
}

/// The PlayerList handler: the list is rewritten whole, or the packet is
/// dropped, with a message, when it cannot be read or is a protocol-2168
/// list that both adds and removes players.
pub fn player_list(w: &mut PacketWrapper, to_v2168: bool, pending: &mut Vec<String>) -> (r: Result<(), DecodeError>)
    requires
        old(w).wf(),
    ensures
        final(w).wf(),
        r is Ok,
        final(w)@ == spec_player_list(old(w)@, to_v2168),
        texts(final(pending)@) == match spec_list_note(old(w)@, to_v2168) {
            Some((_, t)) => texts(old(pending)@).push(t),
            None => texts(old(pending)@),
        },
{
    match list_body(w, to_v2168) {
        Ok(true) => {},
        Ok(false) => {
            let s = String::from_str("PlayerList: cancelled, a v2168 list mixes added and removed entries and v1001 has one action byte for the whole packet");
            let ghost t = s@;
            pending.push(s);
            assert(texts(pending@) =~= texts(old(pending)@).push(t));
            w.cancel();
        },
        Err(_) => {
            let s = String::from_str("PlayerList: cancelled, cannot decode: malformed body");
            let ghost t = s@;
            pending.push(s);
            assert(texts(pending@) =~= texts(old(pending)@).push(t));
            w.cancel();
        },
    }
    Ok(())
}

// ---------------------------------------------------------------------------
// What protocol 2168 reads back of what it writes.

/// Fields that read back as written: as many as `kinds` names, strings
/// shorter than 2^32 bytes, raw fields of four bytes.
pub open spec fn parts_fit(v: Seq<Seq<u8>>, kinds: Seq<bool>) -> bool {
    &&& v.len() == kinds.len()
    &&& forall|i: int| 0 <= i < v.len() ==> (if kinds[i] { (#[trigger] v[i]).len() < two32() } else { v[i].len() == 4 })
}

pub open spec fn anim_fits(a: AnimationV) -> bool {
    parts_fit(a.fields, animation_kinds()) && a.frame_count.len() == 4
}

pub open spec fn piece_fits(p: PieceV) -> bool {
    p.piece_id.len() < two32() && p.product_id.len() < two32() && p.pack_id.len() == 16
}

/// A tint whose piece type survives the trip through the protocol-2168
/// wire name.
pub open spec fn tint_fits(t: TintV) -> bool {
    &&& spec_tint_type_to_v2168(t.piece_type).len() < two32()
    &&& spec_tint_type_to_v1001(spec_tint_type_to_v2168(t.piece_type)) == t.piece_type
}

pub open spec fn skin_fits(k: SkinV) -> bool {
    &&& parts_fit(k.head, skin_head_kinds())
    &&& k.animations.len() < two32()
    &&& forall|i: int| 0 <= i < k.animations.len() ==> anim_fits(#[trigger] k.animations[i])
    &&& parts_fit(k.middle, skin_middle_kinds())
    &&& k.persona_pieces.len() < two32()
    &&& forall|i: int| 0 <= i < k.persona_pieces.len() ==> piece_fits(#[trigger] k.persona_pieces[i])
    &&& k.tint_colours.len() < two32()
    &&& forall|i: int| 0 <= i < k.tint_colours.len() ==> tint_fits(#[trigger] k.tint_colours[i])
    &&& k.flags.len() == 5
    &&& k.profile_hash.len() < two32()
}

pub open spec fn added_fits(a: AddedV) -> bool {
    parts_fit(a.names, names_kinds()) && skin_fits(a.skin) && a.roles.len() == 3
}

pub open spec fn entry_fits(e: EntryV) -> bool {
    e.uuid.len() == 16 && (e.added is Some ==> added_fits(e.added.unwrap()))
}

/// A list that protocol 2168 reads back as written.
pub open spec fn list_fits(es: Seq<EntryV>) -> bool {
    es.len() < two32() && forall|i: int| 0 <= i < es.len() ==> entry_fits(#[trigger] es[i])
}

proof fn lemma_ser_parts_kinds(v: Seq<Seq<u8>>, k1: Seq<bool>, k2: Seq<bool>)
    requires
        v.len() <= k1.len(),
        v.len() <= k2.len(),
        forall|i: int| 0 <= i < v.len() ==> k1[i] == k2[i],
    ensures
        ser_parts(v, k1) == ser_parts(v, k2),
    decreases v.len(),
{
    if v.len() > 0 {
        lemma_ser_parts_kinds(v.drop_last(), k1, k2);
    }
}

proof fn lemma_parts_rt(v: Seq<Seq<u8>>, kinds: Seq<bool>, t: Seq<u8>)
    requires
        parts_fit(v, kinds),
    ensures
        take_parts(ser_parts(v, kinds) + t, kinds) == Some((v, t)),
    decreases v.len(),
{
    if v.len() == 0 {
        assert(ser_parts(v, kinds) + t =~= t);
    } else {
        let n = v.len() - 1;
        let k2 = kinds.drop_last();
        let part = ser_part(v.last(), kinds[n]);
        assert(parts_fit(v.drop_last(), k2)) by {
            assert forall|i: int| 0 <= i < v.drop_last().len() implies (if k2[i] { (#[trigger] v.drop_last()[i]).len() < two32() } else { v.drop_last()[i].len() == 4 }) by {
                assert(v.drop_last()[i] == v[i]);
            }
        }
        lemma_ser_parts_kinds(v.drop_last(), kinds, k2);
        lemma_parts_rt(v.drop_last(), k2, part + t);
        assert(ser_parts(v, kinds) + t =~= ser_parts(v.drop_last(), k2) + (part + t));
        assert(v.last() == v[n]);
        if kinds[n] {
            crate::codec::lemma_take_str(v.last(), t);
        } else {
            crate::codec::lemma_take_fixed(v.last(), t);
        }
        assert(v.drop_last().push(v.last()) =~= v);
    }
}

proof fn lemma_bool_rt(b: bool, t: Seq<u8>)
    ensures
        take_bool(ser_bool(b) + t) == Some((b, t)),
{
    assert((ser_bool(b) + t).skip(1) =~= t);
    assert((ser_bool(b) + t)[0] == ser_bool(b)[0]);
}

proof fn lemma_bools_rt(v: Seq<bool>, t: Seq<u8>)
    ensures
        take_bools(ser_bools(v) + t, v.len()) == Some((v, t)),
    decreases v.len(),
{
    if v.len() == 0 {
        assert(ser_bools(v) + t =~= t);
    } else {
        lemma_bools_rt(v.drop_last(), ser_bool(v.last()) + t);
        assert(ser_bools(v) + t =~= ser_bools(v.drop_last()) + (ser_bool(v.last()) + t));
        lemma_bool_rt(v.last(), t);
        assert(v.drop_last().push(v.last()) =~= v);
    }
}

proof fn lemma_many_rt<T>(v: Seq<T>, fr: spec_fn(Seq<u8>) -> Option<(T, Seq<u8>)>, fw: spec_fn(T) -> Seq<u8>, t: Seq<u8>)
    requires
        forall|i: int, u: Seq<u8>| 0 <= i < v.len() ==> #[trigger] fr(fw(v[i]) + u) == Some((v[i], u)),
    ensures
        take_many(ser_many(v, fw) + t, v.len(), fr) == Some((v, t)),
    decreases v.len(),
{
    if v.len() == 0 {
        assert(ser_many(v, fw) + t =~= t);
    } else {
        let n = v.len() - 1;
        assert forall|i: int, u: Seq<u8>| 0 <= i < v.drop_last().len() implies #[trigger] fr(fw(v.drop_last()[i]) + u) == Some((v.drop_last()[i], u)) by {
            assert(v.drop_last()[i] == v[i]);
            assert(fr(fw(v[i]) + u) == Some((v[i], u)));
        }
        lemma_many_rt(v.drop_last(), fr, fw, fw(v.last()) + t);
        assert(ser_many(v, fw) + t =~= ser_many(v.drop_last(), fw) + (fw(v.last()) + t));
        assert(fr(fw(v[n]) + t) == Some((v[n], t)));
        assert(v.drop_last().push(v.last()) =~= v);
    }
}

proof fn lemma_be32_rt(v: u32, t: Seq<u8>)
    ensures
        take_u32be(be32(v) + t) == Some((v, t)),
{
    crate::codec::lemma_take_fixed(be32(v), t);
    let x = v as int;
    assert(x == x % 256 + ((x / 256) % 256) * 256 + ((x / 65536) % 256) * 65536 + (x / 16777216) * 16777216)
        by (nonlinear_arith)
        requires
            0 <= x < 0x1_0000_0000,
    ;
    assert(from_be32(be32(v)) == v);
}

proof fn lemma_le32_rt(v: u32, t: Seq<u8>)
    ensures
        take_u32le(le32(v) + t) == Some((v, t)),
{
    crate::codec::lemma_take_fixed(le32(v), t);
    crate::codec::lemma_le32_round_trip(v, le32(v));
}

proof fn lemma_count_rt(n: nat, t: Seq<u8>)
    requires
        n < two32(),
    ensures
        take_u32v(ser_uvarint(n) + t) == Some((n as u32, t)),
{
    crate::codec::lemma_take_u32v(n as u32, t);
}

proof fn lemma_anim_rt(a: AnimationV, t: Seq<u8>)
    requires
        anim_fits(a),
    ensures
        take_anim(ser_anim(a, true) + t, true) == Some((a, t)),
{
    reveal(ser_anim);
    let t3 = ser_u32v(a.expression_type) + t;
    let t2 = a.frame_count + t3;
    let t1 = ser_u32v(a.animation_type) + t2;
    lemma_parts_rt(a.fields, animation_kinds(), t1);
    assert(ser_anim(a, true) + t =~= ser_parts(a.fields, animation_kinds()) + t1);
    crate::codec::lemma_take_u32v(a.animation_type, t2);
    crate::codec::lemma_take_fixed(a.frame_count, t3);
    crate::codec::lemma_take_u32v(a.expression_type, t);
}

proof fn lemma_piece_rt(p: PieceV, t: Seq<u8>)
    requires
        piece_fits(p),
    ensures
        take_piece(ser_piece(p, true) + t, true) == Some((p, t)),
{
    reveal(ser_piece);
    let t4 = ser_str(p.product_id) + t;
    let t3 = ser_bool(p.default) + t4;
    let t2 = p.pack_id + t3;
    let t1 = le32(p.piece_type) + t2;
    assert(ser_piece(p, true) + t =~= ser_str(p.piece_id) + t1);
    crate::codec::lemma_take_str(p.piece_id, t1);
    lemma_le32_rt(p.piece_type, t2);
    crate::codec::lemma_take_fixed(p.pack_id, t3);
    lemma_bool_rt(p.default, t4);
    crate::codec::lemma_take_str(p.product_id, t);
}

proof fn lemma_tint_rt(x: TintV, t: Seq<u8>)
    requires
        tint_fits(x),
    ensures
        take_tint(ser_tint(x, true) + t, true) == Some((x, t)),
{
    reveal(ser_tint);
    let (c0, c1, c2, c3) = x.colours;
    let t4 = be32(c3) + t;
    let t3 = be32(c2) + t4;
    let t2 = be32(c1) + t3;
    let t1 = be32(c0) + t2;
    let wire = spec_tint_type_to_v2168(x.piece_type);
    assert(ser_tint(x, true) + t =~= ser_str(wire) + t1);
    crate::codec::lemma_take_str(wire, t1);
    lemma_be32_rt(c0, t2);
    lemma_be32_rt(c1, t3);
    lemma_be32_rt(c2, t4);
    lemma_be32_rt(c3, t);
}

/// A skin's first half alone.
pub open spec fn front_of(k: SkinV) -> SkinV {
    SkinV {
        persona_pieces: Seq::empty(),
        tint_colours: Seq::empty(),
        flags: Seq::empty(),
        trusted: false,
        profile_hash: Seq::empty(),
        ..k
    }
}

#[verifier::spinoff_prover]
proof fn lemma_skin_front_rt(k: SkinV, u: Seq<u8>)
    requires
        skin_fits(k),
    ensures
        take_skin_front(ser_skin_front(k, true) + u, true) == Some((front_of(k), u)),
{
    reveal(ser_skin_front);
    let t_col = be32(k.skin_colour) + u;
    let t_look = ser_u8(k.arm_size) + t_col;
    let t_mid = ser_parts(k.middle, skin_middle_kinds()) + t_look;
    let t_anims = ser_many(k.animations, anim_writer(true)) + t_mid;
    let t_count = ser_uvarint(k.animations.len()) + t_anims;
    assert(ser_skin_front(k, true) + u =~= ser_parts(k.head, skin_head_kinds()) + t_count);
    lemma_parts_rt(k.head, skin_head_kinds(), t_count);
    lemma_count_rt(k.animations.len(), t_anims);
    assert forall|i: int, w: Seq<u8>| 0 <= i < k.animations.len() implies #[trigger] (anim_reader(true))((anim_writer(true))(k.animations[i]) + w) == Some((k.animations[i], w)) by {
        lemma_anim_rt(k.animations[i], w);
    }
    lemma_many_rt(k.animations, anim_reader(true), anim_writer(true), t_mid);
    lemma_parts_rt(k.middle, skin_middle_kinds(), t_look);
    crate::codec::lemma_take_u8(k.arm_size, t_col);
    lemma_be32_rt(k.skin_colour, u);
}

#[verifier::spinoff_prover]
#[verifier::rlimit(80)]
proof fn lemma_skin_back_rt(k: SkinV, u: Seq<u8>)
    requires
        skin_fits(k),
    ensures
        take_skin_back(front_of(k), ser_skin_back(k, true) + u, true) == Some((k, u)),
{
    reveal(ser_skin_back);
    let t_hash = ser_str(k.profile_hash) + u;
    let t_tail = ser_str(bool_text(k.trusted)) + t_hash;
    let t_flags = ser_bools(k.flags) + t_tail;
    let t_tints = ser_many(k.tint_colours, tint_writer(true)) + t_flags;
    let t_nt = ser_uvarint(k.tint_colours.len()) + t_tints;
    let t_pieces = ser_many(k.persona_pieces, piece_writer(true)) + t_nt;
    assert(ser_skin_back(k, true) + u =~= ser_uvarint(k.persona_pieces.len()) + t_pieces);
    lemma_count_rt(k.persona_pieces.len(), t_pieces);
    assert forall|i: int, w: Seq<u8>| 0 <= i < k.persona_pieces.len() implies #[trigger] (piece_reader(true))((piece_writer(true))(k.persona_pieces[i]) + w) == Some((k.persona_pieces[i], w)) by {
        lemma_piece_rt(k.persona_pieces[i], w);
    }
    lemma_many_rt(k.persona_pieces, piece_reader(true), piece_writer(true), t_nt);
    lemma_count_rt(k.tint_colours.len(), t_tints);
    assert forall|i: int, w: Seq<u8>| 0 <= i < k.tint_colours.len() implies #[trigger] (tint_reader(true))((tint_writer(true))(k.tint_colours[i]) + w) == Some((k.tint_colours[i], w)) by {
        lemma_tint_rt(k.tint_colours[i], w);
    }
    lemma_many_rt(k.tint_colours, tint_reader(true), tint_writer(true), t_flags);
    lemma_bools_rt(k.flags, t_tail);
    crate::codec::lemma_take_str(bool_text(k.trusted), t_hash);
    crate::codec::lemma_take_str(k.profile_hash, u);
    assert(eq_ignore_case(bool_text(k.trusted), true_text()) == k.trusted) by {
        if k.trusted {
            assert(bool_text(k.trusted) =~= true_text());
        }
    }
}

proof fn lemma_skin_rt(k: SkinV, u: Seq<u8>)
    requires
        skin_fits(k),
    ensures
        take_skin(ser_skin(k, true) + u, true) == Some((k, u)),
{
    reveal(ser_skin);
    reveal(take_skin);
    let t = ser_skin_back(k, true) + u;
    assert(ser_skin(k, true) + u =~= ser_skin_front(k, true) + t);
    lemma_skin_front_rt(k, t);
    lemma_skin_back_rt(k, u);
}

proof fn lemma_added_rt(a: AddedV, u: Seq<u8>)
    requires
        added_fits(a),
    ensures
        take_added(ser_added(a, true) + u, true) == Some((a, u)),
{
    reveal(ser_added);
    let t_col = be32(a.player_colour) + u;
    let t_roles = ser_bools(a.roles) + t_col;
    let t_skin = ser_skin(a.skin, true) + t_roles;
    let t_names = ser_parts(a.names, names_kinds()) + t_skin;
    assert(ser_added(a, true) + u =~= ser_i64v(a.entity_unique_id) + t_names);
    crate::codec::lemma_take_i64v(a.entity_unique_id, t_names);
    lemma_parts_rt(a.names, names_kinds(), t_skin);
    lemma_skin_rt(a.skin, t_roles);
    lemma_bools_rt(a.roles, t_col);
    lemma_be32_rt(a.player_colour, u);
}

proof fn lemma_entry_rt(e: EntryV, u: Seq<u8>)
    requires
        entry_fits(e),
    ensures
        take_entry_v2168(ser_entry_v2168(e) + u) == Some((e, u)),
{
    match e.added {
        None => {
            let t2 = e.uuid + u;
            let t1 = ser_u8(ACTION_REMOVE) + t2;
            assert(ser_entry_v2168(e) + u =~= ser_u32v(VARIANT_REMOVE) + t1);
            crate::codec::lemma_take_u32v(VARIANT_REMOVE, t1);
            crate::codec::lemma_take_u8(ACTION_REMOVE, t2);
            crate::codec::lemma_take_fixed(e.uuid, u);
        },
        Some(a) => {
            let t3 = ser_added(a, true) + u;
            let t2 = e.uuid + t3;
            let t1 = ser_u8(ACTION_ADD) + t2;
            assert(ser_entry_v2168(e) + u =~= ser_u32v(VARIANT_ADD) + t1);
            crate::codec::lemma_take_u32v(VARIANT_ADD, t1);
            crate::codec::lemma_take_u8(ACTION_ADD, t2);
            crate::codec::lemma_take_fixed(e.uuid, t3);
            lemma_added_rt(a, u);
        },
    }
}

/// A list written the protocol-2168 way reads back as the same list,
/// whenever its fields fit the wire (see `list_fits`).
pub proof fn law_player_list_v2168_round_trip(es: Seq<EntryV>)
    requires
        list_fits(es),
    ensures
        decode_list_v2168(encode_list_v2168(es)) == Some(es),
{
    let body = ser_many(es, entry_writer_v2168());
    assert(encode_list_v2168(es) =~= ser_uvarint(es.len()) + (body + Seq::<u8>::empty()));
    lemma_count_rt(es.len(), body + Seq::<u8>::empty());
    assert forall|i: int, w: Seq<u8>| 0 <= i < es.len() implies #[trigger] (entry_reader_v2168())((entry_writer_v2168())(es[i]) + w) == Some((es[i], w)) by {
        lemma_entry_rt(es[i], w);
    }
    lemma_many_rt(es, entry_reader_v2168(), entry_writer_v2168(), Seq::<u8>::empty());
}

/// A protocol-1001 list taken to protocol 2168 and back comes back byte for
/// byte, whenever it is written the way protocol 1001 writes what it holds
/// and its fields fit the protocol-2168 wire.
pub proof fn law_player_list_up_down(s: Seq<u8>)
    requires
        decode_list_v1001(s) is Some,
        list_fits(decode_list_v1001(s).unwrap()),
        encode_list_v1001(decode_list_v1001(s).unwrap()) == Some(s),
    ensures
        spec_list_body(s, true) == Some(Some(encode_list_v2168(decode_list_v1001(s).unwrap()))),
        spec_list_body(encode_list_v2168(decode_list_v1001(s).unwrap()), false) == Some(Some(s)),
{
    law_player_list_v2168_round_trip(decode_list_v1001(s).unwrap());
}

// ---------------------------------------------------------------------------
// The text forms of protocol 1001 read back.

proof fn lemma_hex_char(d: nat)
    requires
        d < 16,
    ensures
        hex_digit(hex_char(d)) == Some(d),
        hex_char(d) != 43,
        hex_char(d) != 35,
{
}

proof fn lemma_hex_value_push2(s: Seq<u8>, x: nat)
    requires
        x < 256,
        hex_value(s) is Some,
    ensures
        hex_value(s + hex2(x)) == Some(hex_value(s).unwrap() * 256 + x),
{
    let hi = x / 16 % 16;
    let lo = x % 16;
    lemma_hex_char(hi);
    lemma_hex_char(lo);
    let t = s + hex2(x);
    assert(t.drop_last() =~= s.push(hex_char(hi)));
    assert(s.push(hex_char(hi)).drop_last() =~= s);
    let v = hex_value(s).unwrap();
    let m = s.push(hex_char(hi));
    assert(m.last() == hex_char(hi));
    assert(hex_value(m) == Some(v * 16 + hi));
    assert(t.last() == hex_char(lo));
    assert(hex_value(t) == Some((v * 16 + hi) * 16 + lo));
    assert((v * 16 + hi) * 16 + lo == v * 256 + x) by (nonlinear_arith)
        requires
            x < 256,
            hi == x / 16 % 16,
            lo == x % 16,
    ;
}

/// A tint colour written as protocol 1001 text reads back as the same
/// packed colour.
pub proof fn law_argb_colour_round_trip(c: u32)
    ensures
        spec_parse_hex_colour(spec_format_argb_colour(c)) == c,
{
    if c != 0 {
        let a = (c % 256) as nat;
        let r = (c / 256 % 256) as nat;
        let g = (c / 65536 % 256) as nat;
        let b = (c / 16777216 % 256) as nat;
        let e = Seq::<u8>::empty();
        lemma_hex_value_push2(e, a);
        lemma_hex_value_push2(e + hex2(a), r);
        lemma_hex_value_push2(e + hex2(a) + hex2(r), g);
        lemma_hex_value_push2(e + hex2(a) + hex2(r) + hex2(g), b);
        let text = spec_format_argb_colour(c);
        let digits = e + hex2(a) + hex2(r) + hex2(g) + hex2(b);
        assert(text.drop_first() =~= digits);
        lemma_hex_char(a / 16 % 16);
        assert(digits[0] == hex_char(a / 16 % 16));
        let v = ((a * 256 + r) * 256 + g) * 256 + b;
        assert(hex_value(digits) == Some(v));
        let x = c as int;
        assert(v / 16777216 == a && (v % 16777216) / 65536 % 256 == r && (v % 16777216) / 256 % 256 == g
            && (v % 16777216) % 256 == b && a + r * 256 + g * 65536 + b * 16777216 == x) by (nonlinear_arith)
            requires
                0 <= x < 0x1_0000_0000,
                a == x % 256,
                r == x / 256 % 256,
                g == x / 65536 % 256,
                b == x / 16777216 % 256,
                v == ((a * 256 + r) * 256 + g) * 256 + b,
        ;
    }
}

/// A skin colour written as protocol 1001 text reads back as the same
/// packed colour with its alpha made opaque.
pub proof fn law_rgb_colour_round_trip(c: u32)
    ensures
        spec_parse_hex_colour(spec_format_rgb_colour(c)) == c - c % 256 + 255,
{
    let r = (c / 256 % 256) as nat;
    let g = (c / 65536 % 256) as nat;
    let b = (c / 16777216 % 256) as nat;
    let e = Seq::<u8>::empty();
    lemma_hex_value_push2(e, r);
    lemma_hex_value_push2(e + hex2(r), g);
    lemma_hex_value_push2(e + hex2(r) + hex2(g), b);
    let text = spec_format_rgb_colour(c);
    let digits = e + hex2(r) + hex2(g) + hex2(b);
    assert(text.drop_first() =~= digits);
    lemma_hex_char(r / 16 % 16);
    assert(digits[0] == hex_char(r / 16 % 16));
    let v = (r * 256 + g) * 256 + b;
    assert(hex_value(digits) == Some(v));
    let x = c as int;
    assert(v / 65536 % 256 == r && v / 256 % 256 == g && v % 256 == b
        && 255 + r * 256 + g * 65536 + b * 16777216 == x - x % 256 + 255) by (nonlinear_arith)
        requires
            0 <= x < 0x1_0000_0000,
            r == x / 256 % 256,
            g == x / 65536 % 256,
            b == x / 16777216 % 256,
            v == (r * 256 + g) * 256 + b,
    ;
}

/// An arm size named as protocol 1001 names it reads back as slim or wide.
pub proof fn law_arm_size_round_trip(size: u8)
    ensures
        spec_arm_size_to_v2168(spec_arm_size_to_v1001(size)) == if size == ARM_SIZE_SLIM { ARM_SIZE_SLIM } else { ARM_SIZE_WIDE },
{
    if size != ARM_SIZE_SLIM {
        assert(wide()[0] != slim()[0]);
        assert(lower_byte(wide()[0]) != lower_byte(slim()[0]));
    }
}

proof fn lemma_strip_concat(x: Seq<u8>, y: Seq<u8>)
    ensures
        strip_dashes(x + y) == strip_dashes(x) + strip_dashes(y),
    decreases y.len(),
{
    if y.len() == 0 {
        assert(x + y =~= x);
        assert(strip_dashes(x) + strip_dashes(y) =~= strip_dashes(x));
    } else {
        lemma_strip_concat(x, y.drop_last());
        assert((x + y).drop_last() =~= x + y.drop_last());
        assert((x + y).last() == y.last());
        assert(strip_dashes(x + y) =~= strip_dashes(x) + strip_dashes(y));
    }
}

proof fn lemma_strip_plain(x: Seq<u8>)
    requires
        forall|i: int| 0 <= i < x.len() ==> x[i] != 45,
    ensures
        strip_dashes(x) == x,
    decreases x.len(),
{
    if x.len() > 0 {
        lemma_strip_plain(x.drop_last());
        assert(strip_dashes(x) =~= x);
    }
}

proof fn lemma_uuid_hex_plain(b: Seq<u8>)
    requires
        b.len() == 16,
    ensures
        forall|i: int| 0 <= i < 32 ==> uuid_hex(b)[i] != 45 && (#[trigger] hex_digit(uuid_hex(b)[i])) is Some,
{
    let h = uuid_hex(b);
    assert forall|i: int| 0 <= i < 32 implies h[i] != 45 && (#[trigger] hex_digit(h[i])) is Some by {
        let byte = if i < 16 { b[7 - i / 2] } else { b[15 - (i - 16) / 2] };
        lemma_hex_char((byte / 16) as nat);
        lemma_hex_char((byte % 16) as nat);
    }
}

#[verifier::spinoff_prover]
proof fn lemma_uuid_text_digits(b: Seq<u8>)
    requires
        b.len() == 16,
        b != zeros(16),
    ensures
        strip_dashes(spec_format_uuid(b)) == uuid_hex(b),
{
    let h = uuid_hex(b);
    let dash = seq![45u8];
    lemma_uuid_hex_plain(b);
    let p0 = h.subrange(0, 8);
    let p1 = h.subrange(8, 12);
    let p2 = h.subrange(12, 16);
    let p3 = h.subrange(16, 20);
    let p4 = h.subrange(20, 32);
    lemma_strip_plain(p0);
    lemma_strip_plain(p1);
    lemma_strip_plain(p2);
    lemma_strip_plain(p3);
    lemma_strip_plain(p4);
    assert(strip_dashes(dash) =~= Seq::<u8>::empty()) by {
        assert(dash.drop_last() =~= Seq::<u8>::empty());
        assert(strip_dashes(Seq::<u8>::empty()) =~= Seq::<u8>::empty());
        assert(dash.last() == 45);
    }
    lemma_strip_concat(p0, dash);
    lemma_strip_concat(p0 + dash, p1);
    lemma_strip_concat(p0 + dash + p1, dash);
    lemma_strip_concat(p0 + dash + p1 + dash, p2);
    lemma_strip_concat(p0 + dash + p1 + dash + p2, dash);
    lemma_strip_concat(p0 + dash + p1 + dash + p2 + dash, p3);
    lemma_strip_concat(p0 + dash + p1 + dash + p2 + dash + p3, dash);
    lemma_strip_concat(p0 + dash + p1 + dash + p2 + dash + p3 + dash, p4);
    assert(strip_dashes(spec_format_uuid(b)) =~= h);
}

/// A pack id written as protocol 1001 text reads back as the same sixteen
/// bytes.
pub proof fn law_uuid_round_trip(b: Seq<u8>)
    requires
        b.len() == 16,
    ensures
        spec_parse_uuid(spec_format_uuid(b)) == b,
{
    if b == zeros(16) {
        assert(strip_dashes(Seq::<u8>::empty()) =~= Seq::<u8>::empty());
    } else {
        let h = uuid_hex(b);
        lemma_uuid_text_digits(b);
        lemma_uuid_hex_plain(b);
        assert forall|k: int| 0 <= k < 16 implies #[trigger] spec_parse_uuid(spec_format_uuid(b))[k] == b[k] by {
            let x = b[k] as int;
            assert(x / 16 * 16 + x % 16 == x) by (nonlinear_arith)
                requires
                    0 <= x < 256,
            ;
            lemma_hex_char((x / 16) as nat);
            lemma_hex_char((x % 16) as nat);
            if k < 8 {
                assert(h[14 - 2 * k] == hex_char((x / 16) as nat));
                assert(h[15 - 2 * k] == hex_char((x % 16) as nat));
            } else {
                assert(h[30 - 2 * (k - 8)] == hex_char((x / 16) as nat));
                assert(h[31 - 2 * (k - 8)] == hex_char((x % 16) as nat));
            }
        }
        assert(spec_parse_uuid(spec_format_uuid(b)) =~= b);
    }
}

/// A tint piece type named "persona_" and a suffix other than "hand",
/// "hands" and "unsupported", or the hand itself, keeps its name through
/// the protocol-2168 wire name.
pub proof fn law_tint_type_round_trip(x: Seq<u8>)
    requires
        x != piece_suffix(8),
        x != hands(),
        x != unsupported(),
    ensures
        spec_tint_type_to_v1001(spec_tint_type_to_v2168(persona_prefix() + x)) == persona_prefix() + x,
        spec_tint_type_to_v1001(spec_tint_type_to_v2168(piece_name(8))) == piece_name(8),
{
    let n = persona_prefix() + x;
    assert(n.skip(8) =~= x);
    assert(n.take(8) =~= persona_prefix());
    assert(piece_name(8).skip(8) =~= piece_suffix(8));
    assert((persona_prefix() + hands()).skip(8) =~= hands());
    if n == piece_name(8) {
        assert(x == piece_suffix(8));
    }
    if n == persona_prefix() + hands() {
        assert(x == hands());
    }
}

/// Enough of a name to tell the piece type names apart: its length and its
/// bytes at 0, 1, 2, 5 and 6.
pub open spec fn name_sig(s: Seq<u8>) -> (nat, u8, u8, u8, u8, u8) {
    (s.len(), s[0], s[1], s[2], s[5], s[6])
}

#[verifier::spinoff_prover]
#[verifier::rlimit(100)]
proof fn lemma_suffixes_differ(i: int, j: int)
    requires
        0 <= i < 28,
        0 <= j < 28,
        i != j,
    ensures
        piece_suffix(i) != piece_suffix(j),
        piece_suffix(i) != hands(),
{
    let a = piece_suffix(i);
    let b = piece_suffix(j);
    let h = hands();
    assert(name_sig(a) != name_sig(b));
    assert(name_sig(a) != name_sig(h));
}

proof fn lemma_names_differ(i: int, j: int)
    requires
        0 <= i < 28,
        0 <= j < 28,
        i != j,
    ensures
        piece_name(i) != piece_name(j),
        piece_name(i) != persona_prefix() + hands(),
{
    lemma_suffixes_differ(i, j);
    assert(piece_name(i).skip(8) =~= piece_suffix(i));
    assert(piece_name(j).skip(8) =~= piece_suffix(j));
    assert((persona_prefix() + hands()).skip(8) =~= hands());
}

proof fn lemma_index_found(t: int, i: nat)
    requires
        i <= t < 28,
    ensures
        piece_index_from(piece_name(t), i) == t + 1,
    decreases t - i,
{
    if i < t {
        lemma_names_differ(i as int, t);
        lemma_index_found(t, i + 1);
    }
}

proof fn lemma_index_empty(i: nat)
    requires
        i <= 28,
    ensures
        piece_index_from(Seq::empty(), i) == 0,
    decreases 28 - i,
{
    if i < 28 {
        assert(piece_name(i as int).len() >= 8);
        lemma_index_empty(i + 1);
    }
}

/// A persona piece type numbered by protocol 2168 and named by protocol
/// 1001 reads back as the same number; a number outside the 28 types
/// reads back as 0.
pub proof fn law_piece_type_round_trip(v: u32)
    ensures
        spec_piece_type_to_v2168(spec_piece_type_to_v1001(v)) == if 1 <= v <= 28 { v } else { 0 },
{
    if 1 <= v <= 28 {
        let t = (v - 1) as int;
        if t != 0 {
            lemma_names_differ(t, 0);
        } else {
            lemma_names_differ(t, 1);
        }
        lemma_index_found(t, 0);
    } else {
        assert(Seq::<u8>::empty() != persona_prefix() + hands()) by {
            assert((persona_prefix() + hands()).len() == 13);
        }
        lemma_index_empty(0);
    }
}

// ---------------------------------------------------------------------------
// What protocol 1001 reads back of what it writes.

proof fn lemma_str_nonempty(x: Seq<u8>)
    requires
        x.len() < two32(),
    ensures
        ser_str(x).len() >= 1,
{
    crate::codec::lemma_u32v_round_trip(x.len() as u32, Seq::empty());
}

proof fn lemma_many_len_ge<T>(v: Seq<T>, fw: spec_fn(T) -> Seq<u8>)
    requires
        forall|i: int| 0 <= i < v.len() ==> (#[trigger] fw(v[i])).len() >= 1,
    ensures
        ser_many(v, fw).len() >= v.len(),
    decreases v.len(),
{
    if v.len() > 0 {
        assert forall|i: int| 0 <= i < v.drop_last().len() implies (#[trigger] fw(v.drop_last()[i])).len() >= 1 by {
            assert(v.drop_last()[i] == v[i]);
        }
        lemma_many_len_ge(v.drop_last(), fw);
        assert(fw(v[v.len() - 1]).len() >= 1);
    }
}

/// A count written as four little-endian bytes reads back when at least as
/// many bytes follow it.
proof fn lemma_u32_count_rt(n: nat, t: Seq<u8>)
    requires
        n < two32(),
        n <= t.len(),
    ensures
        take_u32_count(le32(n as u32) + t) == Some((n as u32, t)),
{
    lemma_le32_rt(n as u32, t);
}

proof fn lemma_anim_rt_v1001(a: AnimationV, t: Seq<u8>)
    requires
        anim_fits(a),
    ensures
        take_anim(ser_anim(a, false) + t, false) == Some((a, t)),
        ser_anim(a, false).len() >= 1,
{
    reveal(ser_anim);
    let t3 = le32(a.expression_type) + t;
    let t2 = a.frame_count + t3;
    let t1 = le32(a.animation_type) + t2;
    lemma_parts_rt(a.fields, animation_kinds(), t1);
    assert(ser_anim(a, false) + t =~= ser_parts(a.fields, animation_kinds()) + t1);
    lemma_le32_rt(a.animation_type, t2);
    crate::codec::lemma_take_fixed(a.frame_count, t3);
    lemma_le32_rt(a.expression_type, t);
}

proof fn lemma_piece_name_len(v: u32)
    ensures
        spec_piece_type_to_v1001(v).len() <= 22,
{
    if 1 <= v <= 28 {
        assert(piece_suffix((v - 1) as int).len() <= 14);
    }
}

proof fn lemma_pack_text_len(b: Seq<u8>)
    ensures
        pack_text(b).len() <= 36,
{
}

pub open spec fn piece_fits_v1001(p: PieceV) -> bool {
    piece_fits(p) && p.piece_type <= 28
}

proof fn lemma_piece_rt_v1001(p: PieceV, t: Seq<u8>)
    requires
        piece_fits_v1001(p),
    ensures
        take_piece(ser_piece(p, false) + t, false) == Some((p, t)),
        ser_piece(p, false).len() >= 1,
{
    reveal(ser_piece);
    let name = spec_piece_type_to_v1001(p.piece_type);
    let text = pack_text(p.pack_id);
    lemma_piece_name_len(p.piece_type);
    lemma_pack_text_len(p.pack_id);
    let t4 = ser_str(p.product_id) + t;
    let t3 = ser_bool(p.default) + t4;
    let t2 = ser_str(text) + t3;
    let t1 = ser_str(name) + t2;
    assert(ser_piece(p, false) + t =~= ser_str(p.piece_id) + t1);
    crate::codec::lemma_take_str(p.piece_id, t1);
    crate::codec::lemma_take_str(name, t2);
    crate::codec::lemma_take_str(text, t3);
    lemma_bool_rt(p.default, t4);
    crate::codec::lemma_take_str(p.product_id, t);
    law_piece_type_round_trip(p.piece_type);
    law_uuid_round_trip(p.pack_id);
    lemma_str_nonempty(p.piece_id);
}

pub open spec fn tint_fits_v1001(x: TintV) -> bool {
    x.piece_type.len() < two32()
}

proof fn lemma_argb_text_len(c: u32)
    ensures
        spec_format_argb_colour(c).len() <= 9,
{
}

pub open spec fn str_writer() -> spec_fn(Seq<u8>) -> Seq<u8> {
    |y: Seq<u8>| ser_str(y)
}

proof fn lemma_four_texts(f0: Seq<u8>, f1: Seq<u8>, f2: Seq<u8>, f3: Seq<u8>, t: Seq<u8>)
    requires
        f0.len() < two32(),
        f1.len() < two32(),
        f2.len() < two32(),
        f3.len() < two32(),
    ensures
        take_many(ser_str(f0) + ser_str(f1) + ser_str(f2) + ser_str(f3) + t, 4, str_reader()) == Some((seq![f0, f1, f2, f3], t)),
{
    let texts = seq![f0, f1, f2, f3];
    let fw = str_writer();
    assert(texts.drop_last().drop_last().drop_last().drop_last() =~= Seq::<Seq<u8>>::empty());
    assert(texts.drop_last().drop_last().drop_last() =~= seq![f0]);
    assert(texts.drop_last().drop_last() =~= seq![f0, f1]);
    assert(texts.drop_last() =~= seq![f0, f1, f2]);
    assert(seq![f0].drop_last() =~= Seq::<Seq<u8>>::empty());
    assert(seq![f0, f1].drop_last() =~= seq![f0]);
    assert(seq![f0, f1, f2].drop_last() =~= seq![f0, f1]);
    assert(ser_many(Seq::<Seq<u8>>::empty(), fw) =~= Seq::<u8>::empty());
    assert(fw(f0) == ser_str(f0));
    assert(fw(f1) == ser_str(f1));
    assert(fw(f2) == ser_str(f2));
    assert(fw(f3) == ser_str(f3));
    assert(ser_many(seq![f0], fw) =~= ser_str(f0));
    assert(ser_many(seq![f0, f1], fw) =~= ser_str(f0) + ser_str(f1));
    assert(ser_many(seq![f0, f1, f2], fw) =~= ser_str(f0) + ser_str(f1) + ser_str(f2));
    assert(ser_many(texts, fw) =~= ser_str(f0) + ser_str(f1) + ser_str(f2) + ser_str(f3));
    assert forall|i: int, w: Seq<u8>| 0 <= i < texts.len() implies #[trigger] (str_reader())(fw(texts[i]) + w) == Some((texts[i], w)) by {
        crate::codec::lemma_take_str(texts[i], w);
    }
    lemma_many_rt(texts, str_reader(), fw, t);
}

#[verifier::spinoff_prover]
proof fn lemma_tint_rt_v1001(x: TintV, t: Seq<u8>)
    requires
        tint_fits_v1001(x),
    ensures
        take_tint(ser_tint(x, false) + t, false) == Some((x, t)),
        ser_tint(x, false).len() >= 1,
{
    reveal(ser_tint);
    let (c0, c1, c2, c3) = x.colours;
    let f0 = spec_format_argb_colour(c0);
    let f1 = spec_format_argb_colour(c1);
    let f2 = spec_format_argb_colour(c2);
    let f3 = spec_format_argb_colour(c3);
    lemma_argb_text_len(c0);
    lemma_argb_text_len(c1);
    lemma_argb_text_len(c2);
    lemma_argb_text_len(c3);
    let texts = seq![f0, f1, f2, f3];
    let body = ser_str(f0) + ser_str(f1) + ser_str(f2) + ser_str(f3);
    lemma_four_texts(f0, f1, f2, f3, t);
    lemma_str_nonempty(f0);
    lemma_str_nonempty(f1);
    lemma_str_nonempty(f2);
    lemma_str_nonempty(f3);
    let t2 = body + t;
    let t1 = le32(4) + t2;
    assert(ser_tint(x, false) + t =~= ser_str(x.piece_type) + t1);
    crate::codec::lemma_take_str(x.piece_type, t1);
    lemma_u32_count_rt(4, t2);
    law_argb_colour_round_trip(c0);
    law_argb_colour_round_trip(c1);
    law_argb_colour_round_trip(c2);
    law_argb_colour_round_trip(c3);
    assert(colour_at(texts, 0) == c0);
    assert(colour_at(texts, 1) == c1);
    assert(colour_at(texts, 2) == c2);
    assert(colour_at(texts, 3) == c3);
    lemma_str_nonempty(x.piece_type);
}

pub open spec fn skin_fits_v1001(k: SkinV) -> bool {
    &&& parts_fit(k.head, skin_head_kinds())
    &&& k.animations.len() < two32()
    &&& forall|i: int| 0 <= i < k.animations.len() ==> anim_fits(#[trigger] k.animations[i])
    &&& parts_fit(k.middle, skin_middle_kinds())
    &&& k.arm_size <= 1
    &&& k.skin_colour % 256 == 255
    &&& k.persona_pieces.len() < two32()
    &&& forall|i: int| 0 <= i < k.persona_pieces.len() ==> piece_fits_v1001(#[trigger] k.persona_pieces[i])
    &&& k.tint_colours.len() < two32()
    &&& forall|i: int| 0 <= i < k.tint_colours.len() ==> tint_fits_v1001(#[trigger] k.tint_colours[i])
    &&& k.flags.len() == 5
    &&& k.profile_hash.len() == 0
}

#[verifier::spinoff_prover]
proof fn lemma_skin_front_rt_v1001(k: SkinV, u: Seq<u8>)
    requires
        skin_fits_v1001(k),
    ensures
        take_skin_front(ser_skin_front(k, false) + u, false) == Some((front_of(k), u)),
{
    reveal(ser_skin_front);
    let arm = spec_arm_size_to_v1001(k.arm_size);
    let colour = spec_format_rgb_colour(k.skin_colour);
    let t_col = ser_str(colour) + u;
    let t_look = ser_str(arm) + t_col;
    let t_mid = ser_parts(k.middle, skin_middle_kinds()) + t_look;
    let anims = ser_many(k.animations, anim_writer(false));
    let t_anims = anims + t_mid;
    let t_count = le32(k.animations.len() as u32) + t_anims;
    assert(ser_skin_front(k, false) + u =~= ser_parts(k.head, skin_head_kinds()) + t_count);
    lemma_parts_rt(k.head, skin_head_kinds(), t_count);
    assert forall|i: int, w: Seq<u8>| 0 <= i < k.animations.len() implies #[trigger] (anim_reader(false))((anim_writer(false))(k.animations[i]) + w) == Some((k.animations[i], w)) by {
        lemma_anim_rt_v1001(k.animations[i], w);
    }
    assert forall|i: int| 0 <= i < k.animations.len() implies (#[trigger] (anim_writer(false))(k.animations[i])).len() >= 1 by {
        lemma_anim_rt_v1001(k.animations[i], Seq::empty());
    }
    lemma_many_len_ge(k.animations, anim_writer(false));
    lemma_u32_count_rt(k.animations.len(), t_anims);
    lemma_many_rt(k.animations, anim_reader(false), anim_writer(false), t_mid);
    lemma_parts_rt(k.middle, skin_middle_kinds(), t_look);
    crate::codec::lemma_take_str(arm, t_col);
    crate::codec::lemma_take_str(colour, u);
    law_arm_size_round_trip(k.arm_size);
    law_rgb_colour_round_trip(k.skin_colour);
}

#[verifier::spinoff_prover]
#[verifier::rlimit(60)]
proof fn lemma_skin_back_rt_v1001(k: SkinV, u: Seq<u8>)
    requires
        skin_fits_v1001(k),
    ensures
        take_skin_back(front_of(k), ser_skin_back(k, false) + u, false) == Some((SkinV { trusted: false, ..k }, u)),
{
    reveal(ser_skin_back);
    let t_flags = ser_bools(k.flags) + u;
    let tints = ser_many(k.tint_colours, tint_writer(false));
    let t_tints = tints + t_flags;
    let t_nt = le32(k.tint_colours.len() as u32) + t_tints;
    let pieces = ser_many(k.persona_pieces, piece_writer(false));
    let t_pieces = pieces + t_nt;
    assert(ser_skin_back(k, false) + u =~= le32(k.persona_pieces.len() as u32) + t_pieces);
    assert forall|i: int, w: Seq<u8>| 0 <= i < k.persona_pieces.len() implies #[trigger] (piece_reader(false))((piece_writer(false))(k.persona_pieces[i]) + w) == Some((k.persona_pieces[i], w)) by {
        lemma_piece_rt_v1001(k.persona_pieces[i], w);
    }
    assert forall|i: int| 0 <= i < k.persona_pieces.len() implies (#[trigger] (piece_writer(false))(k.persona_pieces[i])).len() >= 1 by {
        lemma_piece_rt_v1001(k.persona_pieces[i], Seq::empty());
    }
    lemma_many_len_ge(k.persona_pieces, piece_writer(false));
    lemma_u32_count_rt(k.persona_pieces.len(), t_pieces);
    lemma_many_rt(k.persona_pieces, piece_reader(false), piece_writer(false), t_nt);
    assert forall|i: int, w: Seq<u8>| 0 <= i < k.tint_colours.len() implies #[trigger] (tint_reader(false))((tint_writer(false))(k.tint_colours[i]) + w) == Some((k.tint_colours[i], w)) by {
        lemma_tint_rt_v1001(k.tint_colours[i], w);
    }
    assert forall|i: int| 0 <= i < k.tint_colours.len() implies (#[trigger] (tint_writer(false))(k.tint_colours[i])).len() >= 1 by {
        lemma_tint_rt_v1001(k.tint_colours[i], Seq::empty());
    }
    lemma_many_len_ge(k.tint_colours, tint_writer(false));
    lemma_u32_count_rt(k.tint_colours.len(), t_tints);
    lemma_many_rt(k.tint_colours, tint_reader(false), tint_writer(false), t_flags);
    lemma_bools_rt(k.flags, u);
    assert(k.profile_hash =~= Seq::<u8>::empty());
}

proof fn lemma_skin_rt_v1001(k: SkinV, u: Seq<u8>)
    requires
        skin_fits_v1001(k),
    ensures
        take_skin(ser_skin(k, false) + u, false) == Some((SkinV { trusted: false, ..k }, u)),
{
    reveal(ser_skin);
    reveal(take_skin);
    let t = ser_skin_back(k, false) + u;
    assert(ser_skin(k, false) + u =~= ser_skin_front(k, false) + t);
    lemma_skin_front_rt_v1001(k, t);
    lemma_skin_back_rt_v1001(k, u);
}

pub open spec fn added_fits_v1001(a: AddedV) -> bool {
    parts_fit(a.names, names_kinds()) && skin_fits_v1001(a.skin) && a.roles.len() == 3
}

proof fn lemma_added_rt_v1001(a: AddedV, u: Seq<u8>)
    requires
        added_fits_v1001(a),
    ensures
        take_added(ser_added(a, false) + u, false) == Some((AddedV { skin: SkinV { trusted: false, ..a.skin }, ..a }, u)),
{
    reveal(ser_added);
    let t_col = le32(a.player_colour) + u;
    let t_roles = ser_bools(a.roles) + t_col;
    let t_skin = ser_skin(a.skin, false) + t_roles;
    let t_names = ser_parts(a.names, names_kinds()) + t_skin;
    assert(ser_added(a, false) + u =~= ser_i64v(a.entity_unique_id) + t_names);
    crate::codec::lemma_take_i64v(a.entity_unique_id, t_names);
    lemma_parts_rt(a.names, names_kinds(), t_skin);
    lemma_skin_rt_v1001(a.skin, t_roles);
    lemma_bools_rt(a.roles, t_col);
    lemma_le32_rt(a.player_colour, u);
}

pub open spec fn entry_fits_v1001(e: EntryV) -> bool {
    e.uuid.len() == 16 && (e.added is Some ==> added_fits_v1001(e.added.unwrap()))
}

/// A list that protocol 1001 writes and reads back as it is: its fields fit
/// the protocol-1001 wire (see `skin_fits_v1001`), and it only adds or only
/// removes players.
pub open spec fn list_fits_v1001(es: Seq<EntryV>) -> bool {
    &&& es.len() < two32()
    &&& forall|i: int| 0 <= i < es.len() ==> entry_fits_v1001(#[trigger] es[i])
    &&& (adds(es) == 0 || adds(es) == es.len())
}

proof fn lemma_many_map_rt<T>(
    v: Seq<T>,
    fr: spec_fn(Seq<u8>) -> Option<(T, Seq<u8>)>,
    fw: spec_fn(T) -> Seq<u8>,
    g: spec_fn(T) -> T,
    t: Seq<u8>,
)
    requires
        forall|i: int, u: Seq<u8>| 0 <= i < v.len() ==> #[trigger] fr(fw(v[i]) + u) == Some((g(v[i]), u)),
    ensures
        take_many(ser_many(v, fw) + t, v.len(), fr) == Some((v.map_values(g), t)),
    decreases v.len(),
{
    if v.len() == 0 {
        assert(ser_many(v, fw) + t =~= t);
        assert(v.map_values(g) =~= Seq::<T>::empty());
    } else {
        let n = v.len() - 1;
        assert forall|i: int, u: Seq<u8>| 0 <= i < v.drop_last().len() implies #[trigger] fr(fw(v.drop_last()[i]) + u) == Some((g(v.drop_last()[i]), u)) by {
            assert(v.drop_last()[i] == v[i]);
            assert(fr(fw(v[i]) + u) == Some((g(v[i]), u)));
        }
        lemma_many_map_rt(v.drop_last(), fr, fw, g, fw(v.last()) + t);
        assert(ser_many(v, fw) + t =~= ser_many(v.drop_last(), fw) + (fw(v.last()) + t));
        assert(fr(fw(v[n]) + t) == Some((g(v[n]), t)));
        assert(v.drop_last().map_values(g).push(g(v.last())) =~= v.map_values(g));
    }
}

proof fn lemma_adds_all(es: Seq<EntryV>)
    ensures
        adds(es) <= es.len(),
        adds(es) == 0 ==> forall|j: int| 0 <= j < es.len() ==> (#[trigger] es[j]).added is None,
        adds(es) == es.len() ==> forall|j: int| 0 <= j < es.len() ==> (#[trigger] es[j]).added is Some,
    decreases es.len(),
{
    if es.len() > 0 {
        let d = es.drop_last();
        lemma_adds_all(d);
        if adds(es) == 0 {
            assert forall|j: int| 0 <= j < es.len() implies (#[trigger] es[j]).added is None by {
                if j < es.len() - 1 {
                    assert(es[j] == d[j]);
                }
            }
        }
        if adds(es) == es.len() {
            assert forall|j: int| 0 <= j < es.len() implies (#[trigger] es[j]).added is Some by {
                if j < es.len() - 1 {
                    assert(es[j] == d[j]);
                }
            }
        }
    }
}

pub open spec fn untrusted() -> spec_fn(EntryV) -> EntryV {
    |e: EntryV| set_trusted(e, false)
}

/// A list written the protocol-1001 way reads back as the same list,
/// whenever its fields fit that wire and it only adds or only removes
/// players (see `list_fits_v1001`).
pub proof fn law_player_list_v1001_round_trip(es: Seq<EntryV>)
    requires
        list_fits_v1001(es),
    ensures
        encode_list_v1001(es) matches Some(b) && decode_list_v1001(b) == Some(es),
{
    lemma_adds_all(es);
    let e = Seq::<u8>::empty();
    if adds(es) == 0 && es.len() != 0 {
        let body = ser_many(es, uuid_writer());
        let b = encode_list_v1001(es).unwrap();
        assert(b =~= ser_u8(ACTION_REMOVE) + (ser_uvarint(es.len()) + (body + e)));
        crate::codec::lemma_take_u8(ACTION_REMOVE, ser_uvarint(es.len()) + (body + e));
        lemma_count_rt(es.len(), body + e);
        assert forall|i: int, w: Seq<u8>| 0 <= i < es.len() implies #[trigger] (removed_reader())((uuid_writer())(es[i]) + w) == Some((es[i], w)) by {
            crate::codec::lemma_take_fixed(es[i].uuid, w);
        }
        lemma_many_rt(es, removed_reader(), uuid_writer(), e);
    } else {
        let body = ser_many(es, added_writer_v1001());
        let flags = ser_bools(trusted_flags(es));
        let b = encode_list_v1001(es).unwrap();
        assert(b =~= ser_u8(ACTION_ADD) + (ser_uvarint(es.len()) + (body + (flags + e))));
        crate::codec::lemma_take_u8(ACTION_ADD, ser_uvarint(es.len()) + (body + (flags + e)));
        lemma_count_rt(es.len(), body + (flags + e));
        assert forall|i: int, w: Seq<u8>| 0 <= i < es.len() implies #[trigger] (added_reader_v1001())((added_writer_v1001())(es[i]) + w) == Some(((untrusted())(es[i]), w)) by {
            let a = es[i].added.unwrap();
            let t = ser_added(a, false) + w;
            assert(es[i].uuid + ser_added(a, false) + w =~= es[i].uuid + t);
            crate::codec::lemma_take_fixed(es[i].uuid, t);
            lemma_added_rt_v1001(a, w);
        }
        lemma_many_map_rt(es, added_reader_v1001(), added_writer_v1001(), untrusted(), flags + e);
        lemma_bools_rt(trusted_flags(es), e);
        assert(with_trusted(es.map_values(untrusted()), trusted_flags(es)) =~= es);
    }
}

/// A protocol-2168 list taken to protocol 1001 and back comes back byte for
/// byte, whenever it is written the way protocol 2168 writes what it holds
/// and its fields fit the protocol-1001 wire.
pub proof fn law_player_list_down_up(s: Seq<u8>)
    requires
        decode_list_v2168(s) is Some,
        list_fits_v1001(decode_list_v2168(s).unwrap()),
        encode_list_v2168(decode_list_v2168(s).unwrap()) == s,
    ensures
        spec_list_body(s, false) matches Some(Some(b)) && spec_list_body(b, true) == Some(Some(s)),
{
    law_player_list_v1001_round_trip(decode_list_v2168(s).unwrap());
}

} // verus!
