//! The wire primitives of the Bedrock protocol: what a field's bytes mean,
//! how long a field is, and how a value is written.
//!
//! Every reader here is total: it returns the value and the position after
//! the field, or `DecodeError` when the bytes cannot hold the field.
use vstd::prelude::*;

verus! {

/// The bytes do not hold the field that was asked for: the input ends too
/// early, or a variable-length integer runs past its longest form.
#[derive(Debug, Clone, Copy, PartialEq, Eq)]
pub struct DecodeError;

/// `128` to the power `k`.
pub open spec fn pow128(k: nat) -> nat
    decreases k,
{
    if k == 0 { 1 } else { 128 * pow128((k - 1) as nat) }
}

pub open spec fn two32() -> nat { 0x1_0000_0000 }

pub open spec fn two64() -> nat { 0x1_0000_0000_0000_0000 }

/// A little-endian base-128 integer of at most `max` bytes at the start of
/// `s`: its value, unbounded, and its length. Each byte but the last has its
/// high bit set.
pub open spec fn parse_uvarint(s: Seq<u8>, max: nat) -> Option<(nat, nat)>
    decreases max,
{
    if max == 0 || s.len() == 0 {
        None
    } else if s[0] < 128 {
        Some((s[0] as nat, 1))
    } else {
        match parse_uvarint(s.drop_first(), (max - 1) as nat) {
            Some((v, n)) => Some(((s[0] - 128) as nat + 128 * v, n + 1)),
            None => None,
        }
    }
}

/// The shortest base-128 form of `v`.
#[verifier::opaque]
pub open spec fn ser_uvarint(v: nat) -> Seq<u8>
    decreases v,
{
    if v < 128 {
        seq![v as u8]
    } else {
        seq![((v % 128) + 128) as u8] + ser_uvarint(v / 128)
    }
}

/// The signed value of a zig-zag encoded 32-bit number.
pub open spec fn zigzag_decode(u: nat) -> int {
    if u % 2 == 0 { (u / 2) as int } else { -((u / 2) as int) - 1 }
}

/// The zig-zag code of a signed number.
pub open spec fn zigzag_encode(i: int) -> nat {
    if i >= 0 { (2 * i) as nat } else { (-2 * i - 1) as nat }
}

/// An unsigned 32-bit variable-length integer (at most 5 bytes; bits past
/// the 32nd are dropped).
pub open spec fn parse_u32v(s: Seq<u8>) -> Option<(u32, nat)> {
    match parse_uvarint(s, 5) {
        Some((v, n)) => Some(((v % two32()) as u32, n)),
        None => None,
    }
}

/// A signed, zig-zag encoded 32-bit variable-length integer.
pub open spec fn parse_i32v(s: Seq<u8>) -> Option<(i32, nat)> {
    match parse_u32v(s) {
        Some((u, n)) => Some((zigzag_decode(u as nat) as i32, n)),
        None => None,
    }
}

/// An unsigned 64-bit variable-length integer (at most 10 bytes).
pub open spec fn parse_u64v(s: Seq<u8>) -> Option<(u64, nat)> {
    match parse_uvarint(s, 10) {
        Some((v, n)) => Some(((v % two64()) as u64, n)),
        None => None,
    }
}

/// A signed, zig-zag encoded 64-bit variable-length integer.
pub open spec fn parse_i64v(s: Seq<u8>) -> Option<(i64, nat)> {
    match parse_u64v(s) {
        Some((u, n)) => Some((zigzag_decode(u as nat) as i64, n)),
        None => None,
    }
}

/// One byte.
pub open spec fn parse_u8(s: Seq<u8>) -> Option<(u8, nat)> {
    if s.len() >= 1 { Some((s[0], 1)) } else { None }
}

/// One byte read as a boolean: any value but zero is true.
pub open spec fn parse_bool(s: Seq<u8>) -> Option<(bool, nat)> {
    if s.len() >= 1 { Some((s[0] != 0, 1)) } else { None }
}

pub open spec fn ser_u8(b: u8) -> Seq<u8> { seq![b] }

pub open spec fn ser_bool(b: bool) -> Seq<u8> { seq![if b { 1u8 } else { 0u8 }] }

pub open spec fn ser_u32v(v: u32) -> Seq<u8> { ser_uvarint(v as nat) }

pub open spec fn ser_i32v(v: i32) -> Seq<u8> { ser_uvarint(zigzag_encode(v as int)) }

pub open spec fn ser_u64v(v: u64) -> Seq<u8> { ser_uvarint(v as nat) }

pub open spec fn ser_i64v(v: i64) -> Seq<u8> { ser_uvarint(zigzag_encode(v as int)) }

/// `n` zero bytes: how the zero value of a fixed-width field (a float, a
/// vector of floats) is written.
pub open spec fn zeros(n: nat) -> Seq<u8> { Seq::new(n, |i: int| 0u8) }

/// A length-prefixed byte string: a 32-bit variable-length length, then
/// that many bytes. Its bytes and the length of the whole field.
pub open spec fn parse_str(s: Seq<u8>) -> Option<(Seq<u8>, nat)> {
    match parse_u32v(s) {
        Some((len, n)) => if n + len <= s.len() {
            Some((s.subrange(n as int, n + len), (n + len) as nat))
        } else {
            None
        },
        None => None,
    }
}

pub open spec fn ser_str(bytes: Seq<u8>) -> Seq<u8> { ser_uvarint(bytes.len()) + bytes }

/// The kinds of field a packet is built of, as far as their length goes.
#[derive(Debug, Clone, Copy, PartialEq, Eq)]
pub enum Field {
    /// One byte (`Byte`, `SByte`, `Bool`).
    Byte,
    /// Unsigned 32-bit variable-length integer.
    UVarInt,
    /// Zig-zag 32-bit variable-length integer.
    VarInt,
    /// Unsigned 64-bit variable-length integer.
    UVarInt64,
    /// Zig-zag 64-bit variable-length integer.
    VarInt64,
    /// A fixed number of bytes: little-endian integers, floats, vectors,
    /// UUIDs.
    Fixed(usize),
    /// A length-prefixed string.
    Str,
    /// A run of bytes that ends with the first byte whose high bit is clear.
    Bitset,
}

/// The length of a run of bytes that ends with the first byte whose high
/// bit is clear.
pub open spec fn bitset_len(s: Seq<u8>) -> Option<nat>
    decreases s.len(),
{
    if s.len() == 0 {
        None
    } else if s[0] < 128 {
        Some(1)
    } else {
        match bitset_len(s.drop_first()) {
            Some(n) => Some(n + 1),
            None => None,
        }
    }
}

/// A run of bytes is read from its own bytes alone.
pub proof fn lemma_bitset_prefix(s: Seq<u8>, t: Seq<u8>)
    requires
        bitset_len(s) is Some,
    ensures
        bitset_len(s) matches Some(n) && 1 <= n <= s.len() && bitset_len(s.take(n as int) + t)
            == Some(n),
    decreases s.len(),
{
    let n = bitset_len(s).unwrap();
    let u = s.take(n as int) + t;
    if s[0] >= 128 {
        lemma_bitset_prefix(s.drop_first(), t);
        assert(u.drop_first() =~= s.drop_first().take((n - 1) as int) + t);
    }
    assert(u[0] == s[0]);
}

/// The length of field `f` at the start of `s`, if `s` holds one.
pub open spec fn field_len(f: Field, s: Seq<u8>) -> Option<nat> {
    match f {
        Field::Byte => if s.len() >= 1 { Some(1) } else { None },
        Field::UVarInt => match parse_u32v(s) { Some((_, n)) => Some(n), None => None },
        Field::VarInt => match parse_u32v(s) { Some((_, n)) => Some(n), None => None },
        Field::UVarInt64 => match parse_u64v(s) { Some((_, n)) => Some(n), None => None },
        Field::VarInt64 => match parse_u64v(s) { Some((_, n)) => Some(n), None => None },
        Field::Fixed(k) => if k <= s.len() { Some(k as nat) } else { None },
        Field::Str => match parse_str(s) { Some((_, n)) => Some(n), None => None },
        Field::Bitset => bitset_len(s),
    }
}

/// Reads a field value off the front of `s`: the value and what follows.
pub open spec fn take_u8(s: Seq<u8>) -> Option<(u8, Seq<u8>)> {
    if s.len() >= 1 { Some((s[0], s.skip(1))) } else { None }
}

pub open spec fn take_u32v(s: Seq<u8>) -> Option<(u32, Seq<u8>)> {
    match parse_u32v(s) {
        Some((v, n)) => Some((v, s.skip(n as int))),
        None => None,
    }
}

pub open spec fn take_u64v(s: Seq<u8>) -> Option<(u64, Seq<u8>)> {
    match parse_u64v(s) {
        Some((v, n)) => Some((v, s.skip(n as int))),
        None => None,
    }
}

pub open spec fn take_i64v(s: Seq<u8>) -> Option<(i64, Seq<u8>)> {
    match parse_i64v(s) {
        Some((v, n)) => Some((v, s.skip(n as int))),
        None => None,
    }
}

pub open spec fn take_str(s: Seq<u8>) -> Option<(Seq<u8>, Seq<u8>)> {
    match parse_str(s) {
        Some((v, n)) => Some((v, s.skip(n as int))),
        None => None,
    }
}

/// `k` raw bytes: a little-endian number, a float, a vector.
pub open spec fn take_fixed(k: nat, s: Seq<u8>) -> Option<(Seq<u8>, Seq<u8>)> {
    if k <= s.len() { Some((s.take(k as int), s.skip(k as int))) } else { None }
}

pub open spec fn take_i32v(s: Seq<u8>) -> Option<(i32, Seq<u8>)> {
    match parse_i32v(s) {
        Some((v, n)) => Some((v, s.skip(n as int))),
        None => None,
    }
}

/// The four little-endian bytes of a 32-bit value.
pub open spec fn le32(v: u32) -> Seq<u8> {
    seq![(v % 256) as u8, ((v / 256) % 256) as u8, ((v / 65536) % 256) as u8, (v / 16777216) as u8]
}

/// The 32-bit value of four little-endian bytes.
pub open spec fn from_le32(b: Seq<u8>) -> u32 {
    (b[0] + b[1] * 256 + b[2] * 65536 + b[3] * 16777216) as u32
}

pub proof fn lemma_le32_round_trip(v: u32, b: Seq<u8>)
    requires
        b.len() == 4,
    ensures
        from_le32(le32(v)) == v,
        le32(from_le32(b)) == b,
{
    let v = v as int;
    assert(v == v % 256 + ((v / 256) % 256) * 256 + ((v / 65536) % 256) * 65536 + (v / 16777216) * 16777216)
        by (nonlinear_arith)
        requires
            0 <= v < 0x1_0000_0000,
    ;
    let (b0, b1, b2, b3) = (b[0] as int, b[1] as int, b[2] as int, b[3] as int);
    let w = b0 + b1 * 256 + b2 * 65536 + b3 * 16777216;
    assert(w % 256 == b0 && (w / 256) % 256 == b1 && (w / 65536) % 256 == b2 && w / 16777216 == b3
        && w < 0x1_0000_0000) by (nonlinear_arith)
        requires
            0 <= b0 < 256,
            0 <= b1 < 256,
            0 <= b2 < 256,
            0 <= b3 < 256,
            w == b0 + b1 * 256 + b2 * 65536 + b3 * 16777216,
    ;
    assert(le32(from_le32(b)) =~= b);
}

pub proof fn lemma_take_i32v(v: i32, t: Seq<u8>)
    ensures
        take_i32v(ser_i32v(v) + t) == Some((v, t)),
{
    lemma_i32v_round_trip(v, t);
    assert((ser_i32v(v) + t).skip(ser_i32v(v).len() as int) =~= t);
}

pub proof fn lemma_take_u8(b: u8, t: Seq<u8>)
    ensures
        take_u8(ser_u8(b) + t) == Some((b, t)),
{
    assert((ser_u8(b) + t).skip(1) =~= t);
    assert((ser_u8(b) + t)[0] == b);
}

pub proof fn lemma_take_u32v(v: u32, t: Seq<u8>)
    ensures
        take_u32v(ser_u32v(v) + t) == Some((v, t)),
{
    lemma_u32v_round_trip(v, t);
    assert((ser_u32v(v) + t).skip(ser_u32v(v).len() as int) =~= t);
}

pub proof fn lemma_take_i64v(v: i64, t: Seq<u8>)
    ensures
        take_i64v(ser_i64v(v) + t) == Some((v, t)),
{
    lemma_i64v_round_trip(v, t);
    assert((ser_i64v(v) + t).skip(ser_i64v(v).len() as int) =~= t);
}

pub proof fn lemma_take_str(bytes: Seq<u8>, t: Seq<u8>)
    requires
        bytes.len() < two32(),
    ensures
        take_str(ser_str(bytes) + t) == Some((bytes, t)),
{
    lemma_str_round_trip(bytes, t);
    assert((ser_str(bytes) + t).skip(ser_str(bytes).len() as int) =~= t);
}

pub proof fn lemma_take_fixed(b: Seq<u8>, t: Seq<u8>)
    ensures
        take_fixed(b.len(), b + t) == Some((b, t)),
{
    assert((b + t).take(b.len() as int) =~= b);
    assert((b + t).skip(b.len() as int) =~= t);
}

// ---------------------------------------------------------------------------
// Laws of the primitives.

pub proof fn lemma_pow128_values()
    ensures
        pow128(0) == 1,
        pow128(1) == 128,
        pow128(4) == 0x1000_0000,
        pow128(5) == 0x8_0000_0000,
        pow128(9) == 0x8000_0000_0000_0000,
        pow128(10) == 0x40_0000_0000_0000_0000,
{
    reveal_with_fuel(pow128, 11);
}

/// What a base-128 integer's parse gives back: a value below `128^max`,
/// and a length between one and `max` that the input holds.
pub proof fn lemma_parse_uvarint_bounds(s: Seq<u8>, max: nat)
    ensures
        parse_uvarint(s, max) matches Some((v, n)) ==> v < pow128(n) && 1 <= n <= max && n
            <= s.len() && pow128(n) <= pow128(max),
    decreases max,
{
    reveal(parse_uvarint);
    reveal(ser_uvarint);
    if max > 0 && s.len() > 0 && s[0] >= 128 {
        lemma_parse_uvarint_bounds(s.drop_first(), (max - 1) as nat);
    }
    if let Some((v, n)) = parse_uvarint(s, max) {
        lemma_pow128_monotone(n, max);
    }
}

pub proof fn lemma_pow128_monotone(a: nat, b: nat)
    requires
        a <= b,
    ensures
        1 <= pow128(a) <= pow128(b),
    decreases b,
{
    if b > a {
        lemma_pow128_monotone(a, (b - 1) as nat);
    } else if a > 0 {
        lemma_pow128_monotone((a - 1) as nat, (a - 1) as nat);
    }
}

/// A base-128 integer is read from its own bytes alone: what follows it
/// does not change the result.
pub proof fn lemma_parse_uvarint_prefix(s: Seq<u8>, max: nat, t: Seq<u8>)
    requires
        parse_uvarint(s, max) is Some,
    ensures
        parse_uvarint(s, max) matches Some((v, n)) && parse_uvarint(s.take(n as int) + t, max)
            == Some((v, n)),
    decreases max,
{
    reveal(parse_uvarint);
    reveal(ser_uvarint);
    lemma_parse_uvarint_bounds(s, max);
    let (v, n) = parse_uvarint(s, max).unwrap();
    let u = s.take(n as int) + t;
    assert(u[0] == s[0]);
    if s[0] >= 128 {
        let s1 = s.drop_first();
        lemma_parse_uvarint_prefix(s1, (max - 1) as nat, t);
        let (v1, n1) = parse_uvarint(s1, (max - 1) as nat).unwrap();
        assert(u.drop_first() =~= s1.take(n1 as int) + t);
    }
}

/// The shortest form of `v` has between one and `k` bytes when `v` is
/// below `128^k`.
pub proof fn lemma_ser_uvarint_len(v: nat, k: nat)
    requires
        v < pow128(k),
        k >= 1,
    ensures
        1 <= ser_uvarint(v).len() <= k,
    decreases v,
{
    reveal(parse_uvarint);
    reveal(ser_uvarint);
    if k == 0 {
    } else if v >= 128 {
        let p = pow128((k - 1) as nat);
        assert(v / 128 < p) by (nonlinear_arith)
            requires
                v < 128 * p,
        ;
        if k == 1 {
            assert(pow128(0) == 1);
            assert(pow128(1) == 128);
        }
        lemma_ser_uvarint_len(v / 128, (k - 1) as nat);
    }
}

/// Reading back the shortest form of `v` gives `v`, whatever follows it.
pub proof fn lemma_uvarint_round_trip(v: nat, max: nat, t: Seq<u8>)
    requires
        v < pow128(max),
        max >= 1,
    ensures
        parse_uvarint(ser_uvarint(v) + t, max) == Some((v, ser_uvarint(v).len())),
    decreases v,
{
    reveal(parse_uvarint);
    reveal(ser_uvarint);
    let s = ser_uvarint(v) + t;
    if max == 0 {
    } else if v < 128 {
        assert(s[0] == v as u8);
    } else {
        let rest = ser_uvarint(v / 128);
        let p = pow128((max - 1) as nat);
        assert(v / 128 < p) by (nonlinear_arith)
            requires
                v < 128 * p,
        ;
        assert(v == 128 * (v / 128) + v % 128) by (nonlinear_arith);
        if max == 1 {
            assert(pow128(0) == 1);
            assert(pow128(1) == 128);
        }
        lemma_uvarint_round_trip(v / 128, (max - 1) as nat, t);
        assert(s.drop_first() =~= rest + t);
        assert(s[0] == ((v % 128) + 128) as u8);
    }
}

pub proof fn lemma_zigzag_round_trip(i: int)
    ensures
        zigzag_decode(zigzag_encode(i)) == i,
{
}

pub proof fn lemma_zigzag_encode_bound32(i: i32)
    ensures
        zigzag_encode(i as int) < two32(),
{
}

pub proof fn lemma_zigzag_encode_bound64(i: i64)
    ensures
        zigzag_encode(i as int) < two64(),
{
}

/// What a 32-bit variable-length integer's read gives back of its write.
pub proof fn lemma_u32v_round_trip(v: u32, t: Seq<u8>)
    ensures
        parse_u32v(ser_u32v(v) + t) == Some((v, ser_u32v(v).len())),
        1 <= ser_u32v(v).len() <= 5,
{
    lemma_pow128_values();
    lemma_uvarint_round_trip(v as nat, 5, t);
    lemma_ser_uvarint_len(v as nat, 5);
}

pub proof fn lemma_i32v_round_trip(v: i32, t: Seq<u8>)
    ensures
        parse_i32v(ser_i32v(v) + t) == Some((v, ser_i32v(v).len())),
        1 <= ser_i32v(v).len() <= 5,
{
    lemma_zigzag_encode_bound32(v);
    let u = zigzag_encode(v as int);
    lemma_pow128_values();
    lemma_uvarint_round_trip(u, 5, t);
    lemma_ser_uvarint_len(u, 5);
    assert(u % two32() == u);
    lemma_zigzag_round_trip(v as int);
}

pub proof fn lemma_u64v_round_trip(v: u64, t: Seq<u8>)
    ensures
        parse_u64v(ser_u64v(v) + t) == Some((v, ser_u64v(v).len())),
        1 <= ser_u64v(v).len() <= 10,
{
    lemma_pow128_values();
    lemma_uvarint_round_trip(v as nat, 10, t);
    lemma_ser_uvarint_len(v as nat, 10);
}

pub proof fn lemma_i64v_round_trip(v: i64, t: Seq<u8>)
    ensures
        parse_i64v(ser_i64v(v) + t) == Some((v, ser_i64v(v).len())),
        1 <= ser_i64v(v).len() <= 10,
{
    lemma_zigzag_encode_bound64(v);
    let u = zigzag_encode(v as int);
    lemma_pow128_values();
    lemma_uvarint_round_trip(u, 10, t);
    lemma_ser_uvarint_len(u, 10);
    assert(u % two64() == u);
    lemma_zigzag_round_trip(v as int);
}

pub proof fn lemma_bool_round_trip(b: bool, t: Seq<u8>)
    ensures
        parse_bool(ser_bool(b) + t) == Some((b, 1nat)),
{
    assert((ser_bool(b) + t)[0] == ser_bool(b)[0]);
}

/// What a string's read gives back of its write.
pub proof fn lemma_str_round_trip(bytes: Seq<u8>, t: Seq<u8>)
    requires
        bytes.len() < two32(),
    ensures
        parse_str(ser_str(bytes) + t) == Some((bytes, ser_str(bytes).len())),
{
    let n = ser_uvarint(bytes.len()).len();
    lemma_u32v_round_trip(bytes.len() as u32, bytes + t);
    assert(ser_str(bytes) + t =~= ser_u32v(bytes.len() as u32) + (bytes + t));
    assert((ser_str(bytes) + t).subrange(n as int, (n + bytes.len()) as int) =~= bytes);
}

/// A field is read from its own bytes alone: whatever follows it, a
/// sequence that starts with the same bytes holds the same field.
pub proof fn lemma_field_prefix(f: Field, s: Seq<u8>, t: Seq<u8>)
    requires
        field_len(f, s) is Some,
    ensures
        field_len(f, s) matches Some(n) && n <= s.len() && field_len(f, s.take(n as int) + t)
            == Some(n),
{
    let n = field_len(f, s).unwrap();
    match f {
        Field::Byte => {},
        Field::Fixed(k) => {},
        Field::UVarInt | Field::VarInt => {
            lemma_parse_uvarint_bounds(s, 5);
            lemma_parse_uvarint_prefix(s, 5, t);
        },
        Field::UVarInt64 | Field::VarInt64 => {
            lemma_parse_uvarint_bounds(s, 10);
            lemma_parse_uvarint_prefix(s, 10, t);
        },
        Field::Str => {
            lemma_parse_uvarint_bounds(s, 5);
            let (v, m) = parse_uvarint(s, 5).unwrap();
            let u = s.take(n as int) + t;
            assert(s.take(n as int).take(m as int) =~= s.take(m as int));
            lemma_parse_uvarint_prefix(s, 5, s.take(n as int).skip(m as int) + t);
            assert(s.take(m as int) + (s.take(n as int).skip(m as int) + t) =~= u);
        },
        Field::Bitset => {
            lemma_bitset_prefix(s, t);
        },
    }
}

/// The typed reads agree with the field lengths.
pub proof fn lemma_field_len_agrees(s: Seq<u8>)
    ensures
        field_len(Field::Byte, s) == (match parse_u8(s) { Some((_, n)) => Some(n), None => None::<nat> }),
        field_len(Field::Byte, s) == (match parse_bool(s) { Some((_, n)) => Some(n), None => None::<nat> }),
        field_len(Field::UVarInt, s) == (match parse_u32v(s) { Some((_, n)) => Some(n), None => None::<nat> }),
        field_len(Field::VarInt, s) == (match parse_i32v(s) { Some((_, n)) => Some(n), None => None::<nat> }),
        field_len(Field::UVarInt64, s) == (match parse_u64v(s) { Some((_, n)) => Some(n), None => None::<nat> }),
        field_len(Field::VarInt64, s) == (match parse_i64v(s) { Some((_, n)) => Some(n), None => None::<nat> }),
        field_len(Field::Str, s) == (match parse_str(s) { Some((_, n)) => Some(n), None => None::<nat> }),
{
}

// ---------------------------------------------------------------------------
// Executable readers. Each takes the whole buffer and a position in it.

fn read_uvarint_raw(s: &[u8], pos: usize, max: usize) -> (r: Option<(u128, usize)>)
    requires
        pos <= s@.len(),
        max <= 10,
    ensures
        match parse_uvarint(s@.skip(pos as int), max as nat) {
            Some((v, n)) => r == Some((v as u128, (pos + n) as usize)),
            None => r is None,
        },
    decreases max,
{
    reveal(parse_uvarint);
    reveal(ser_uvarint);
    proof {
        lemma_parse_uvarint_bounds(s@.skip(pos as int), max as nat);
    }
    if max == 0 || pos >= s.len() {
        return None;
    }
    let b = s[pos];
    if b < 128 {
        return Some((b as u128, pos + 1));
    }
    proof {
        assert(s@.skip(pos as int).drop_first() =~= s@.skip(pos + 1));
        lemma_parse_uvarint_bounds(s@.skip(pos + 1), (max - 1) as nat);
        lemma_pow128_values();
        lemma_pow128_monotone((max - 1) as nat, 9);
    }
    match read_uvarint_raw(s, pos + 1, max - 1) {
        Some((v, end)) => Some(((b - 128) as u128 + 128 * v, end)),
        None => None,
    }
}

/// Reads an unsigned 32-bit variable-length integer at `pos`; the value and
/// the position after it.
pub fn read_u32v(s: &[u8], pos: usize) -> (r: Result<(u32, usize), DecodeError>)
    requires
        pos <= s@.len(),
    ensures
        match parse_u32v(s@.skip(pos as int)) {
            Some((v, n)) => r == Ok::<(u32, usize), DecodeError>((v, (pos + n) as usize)),
            None => r is Err,
        },
        r matches Ok((_, end)) ==> pos < end <= s@.len(),
{
    proof {
        lemma_parse_uvarint_bounds(s@.skip(pos as int), 5);
        lemma_pow128_values();
    }
    match read_uvarint_raw(s, pos, 5) {
        Some((v, end)) => {
            let len = s.len();
            proof {
                let (sv, sn) = parse_uvarint(s@.skip(pos as int), 5).unwrap();
                assert(sn <= s@.len() - pos);
                assert(end == pos + sn);
            }
            Ok(((v % 0x1_0000_0000) as u32, end))
        },
        None => Err(DecodeError),
    }
}

/// Reads a zig-zag 32-bit variable-length integer at `pos`.
pub fn read_i32v(s: &[u8], pos: usize) -> (r: Result<(i32, usize), DecodeError>)
    requires
        pos <= s@.len(),
    ensures
        match parse_i32v(s@.skip(pos as int)) {
            Some((v, n)) => r == Ok::<(i32, usize), DecodeError>((v, (pos + n) as usize)),
            None => r is Err,
        },
{
    let (u, end) = read_u32v(s, pos)?;
    Ok((zigzag_decode32(u), end))
}

/// Reads an unsigned 64-bit variable-length integer at `pos`.
pub fn read_u64v(s: &[u8], pos: usize) -> (r: Result<(u64, usize), DecodeError>)
    requires
        pos <= s@.len(),
    ensures
        match parse_u64v(s@.skip(pos as int)) {
            Some((v, n)) => r == Ok::<(u64, usize), DecodeError>((v, (pos + n) as usize)),
            None => r is Err,
        },
        r matches Ok((_, end)) ==> pos < end <= s@.len(),
{
    proof {
        lemma_parse_uvarint_bounds(s@.skip(pos as int), 10);
        lemma_pow128_values();
    }
    match read_uvarint_raw(s, pos, 10) {
        Some((v, end)) => {
            let len = s.len();
            proof {
                let (sv, sn) = parse_uvarint(s@.skip(pos as int), 10).unwrap();
                assert(sn <= s@.len() - pos);
                assert(end == pos + sn);
            }
            Ok(((v % 0x1_0000_0000_0000_0000) as u64, end))
        },
        None => Err(DecodeError),
    }
}

/// Reads a zig-zag 64-bit variable-length integer at `pos`.
pub fn read_i64v(s: &[u8], pos: usize) -> (r: Result<(i64, usize), DecodeError>)
    requires
        pos <= s@.len(),
    ensures
        match parse_i64v(s@.skip(pos as int)) {
            Some((v, n)) => r == Ok::<(i64, usize), DecodeError>((v, (pos + n) as usize)),
            None => r is Err,
        },
{
    let (u, end) = read_u64v(s, pos)?;
    Ok((zigzag_decode64(u), end))
}

/// The signed value of a zig-zag code.
pub fn zigzag_decode32(u: u32) -> (i: i32)
    ensures
        i as int == zigzag_decode(u as nat),
{
    if u % 2 == 0 {
        (u / 2) as i32
    } else {
        -((u / 2) as i32) - 1
    }
}

pub fn zigzag_decode64(u: u64) -> (i: i64)
    ensures
        i as int == zigzag_decode(u as nat),
{
    if u % 2 == 0 {
        (u / 2) as i64
    } else {
        -((u / 2) as i64) - 1
    }
}

/// The zig-zag code of a signed number.
pub fn zigzag_encode32(i: i32) -> (u: u32)
    ensures
        u as nat == zigzag_encode(i as int),
{
    if i >= 0 {
        (2 * (i as i64)) as u32
    } else {
        (((0 - (i as i64)) * 2) - 1) as u32
    }
}

pub fn zigzag_encode64(i: i64) -> (u: u64)
    ensures
        u as nat == zigzag_encode(i as int),
{
    if i >= 0 {
        (2 * (i as i128)) as u64
    } else {
        (((0 - (i as i128)) * 2) - 1) as u64
    }
}

/// The position after field `f` at `pos`.
pub fn field_end(f: Field, s: &[u8], pos: usize) -> (r: Result<usize, DecodeError>)
    requires
        pos <= s@.len(),
    ensures
        match field_len(f, s@.skip(pos as int)) {
            Some(n) => r == Ok::<usize, DecodeError>((pos + n) as usize),
            None => r is Err,
        },
        r matches Ok(end) ==> pos <= end <= s@.len(),
{
    proof {
        lemma_parse_uvarint_bounds(s@.skip(pos as int), 5);
        lemma_parse_uvarint_bounds(s@.skip(pos as int), 10);
    }
    match f {
        Field::Byte => if pos < s.len() { Ok(pos + 1) } else { Err(DecodeError) },
        Field::UVarInt | Field::VarInt => {
            let (_, end) = read_u32v(s, pos)?;
            Ok(end)
        },
        Field::UVarInt64 | Field::VarInt64 => {
            let (_, end) = read_u64v(s, pos)?;
            Ok(end)
        },
        Field::Fixed(k) => if k <= s.len() - pos { Ok(pos + k) } else { Err(DecodeError) },
        Field::Str => {
            let (len, end) = read_u32v(s, pos)?;
            if len as usize <= s.len() - end {
                Ok(end + len as usize)
            } else {
                Err(DecodeError)
            }
        },
        Field::Bitset => bitset_end(s, pos),
    }
}

/// The position after the run of bytes at `pos` that ends with the first
/// byte whose high bit is clear.
fn bitset_end(s: &[u8], pos: usize) -> (r: Result<usize, DecodeError>)
    requires
        pos <= s@.len(),
    ensures
        match bitset_len(s@.skip(pos as int)) {
            Some(n) => r == Ok::<usize, DecodeError>((pos + n) as usize),
            None => r is Err,
        },
        r matches Ok(end) ==> pos <= end <= s@.len(),
{
    let mut i = pos;
    while i < s.len()
        invariant
            pos <= i <= s@.len(),
            forall|k: int| pos <= k < i ==> s@[k] >= 128,
            bitset_len(s@.skip(pos as int)) == (match bitset_len(s@.skip(i as int)) {
                Some(n) => Some((n + (i - pos)) as nat),
                None => None::<nat>,
            }),
        decreases s@.len() - i,
    {
        assert(s@.skip(i as int)[0] == s@[i as int]);
        if s[i] < 128 {
            proof {
                lemma_bitset_prefix(s@.skip(i as int), Seq::empty());
            }
            return Ok(i + 1);
        }
        assert(s@.skip(i as int).drop_first() =~= s@.skip(i + 1));
        i = i + 1;
    }
    Err(DecodeError)
}

// ---------------------------------------------------------------------------
// Executable writers. Each appends one field to `out`.

pub fn write_u8(out: &mut Vec<u8>, b: u8)
    ensures
        final(out)@ == old(out)@ + ser_u8(b),
{
    out.push(b);
    assert(final(out)@ =~= old(out)@ + ser_u8(b));
}

pub fn write_bool(out: &mut Vec<u8>, b: bool)
    ensures
        final(out)@ == old(out)@ + ser_bool(b),
{
    out.push(if b { 1u8 } else { 0u8 });
    assert(final(out)@ =~= old(out)@ + ser_bool(b));
}

fn write_uvarint(out: &mut Vec<u8>, v: u64)
    ensures
        final(out)@ == old(out)@ + ser_uvarint(v as nat),
    decreases v,
{
    reveal(parse_uvarint);
    reveal(ser_uvarint);
    if v < 128 {
        out.push(v as u8);
        assert(final(out)@ =~= old(out)@ + ser_uvarint(v as nat));
    } else {
        out.push((v % 128 + 128) as u8);
        write_uvarint(out, v / 128);
        assert(final(out)@ =~= old(out)@ + ser_uvarint(v as nat));
    }
}

pub fn write_u32v(out: &mut Vec<u8>, v: u32)
    ensures
        final(out)@ == old(out)@ + ser_u32v(v),
{
    write_uvarint(out, v as u64);
}

pub fn write_i32v(out: &mut Vec<u8>, v: i32)
    ensures
        final(out)@ == old(out)@ + ser_i32v(v),
{
    write_uvarint(out, zigzag_encode32(v) as u64);
}

pub fn write_u64v(out: &mut Vec<u8>, v: u64)
    ensures
        final(out)@ == old(out)@ + ser_u64v(v),
{
    write_uvarint(out, v);
}

pub fn write_i64v(out: &mut Vec<u8>, v: i64)
    ensures
        final(out)@ == old(out)@ + ser_i64v(v),
{
    write_uvarint(out, zigzag_encode64(v));
}

/// Appends `n` zero bytes: the zero value of a fixed-width field.
pub fn write_zeros(out: &mut Vec<u8>, n: usize)
    ensures
        final(out)@ == old(out)@ + zeros(n as nat),
{
    let mut i: usize = 0;
    while i < n
        invariant
            i <= n,
            out@ == old(out)@ + zeros(i as nat),
        decreases n - i,
    {
        out.push(0u8);
        i = i + 1;
        assert(out@ =~= old(out)@ + zeros(i as nat));
    }
}

/// Appends a length-prefixed byte string.
pub fn write_str(out: &mut Vec<u8>, bytes: &[u8])
    requires
        bytes@.len() < two32(),
    ensures
        final(out)@ == old(out)@ + ser_str(bytes@),
{
    write_uvarint(out, bytes.len() as u64);
    let ghost mid = out@;
    let mut i: usize = 0;
    while i < bytes.len()
        invariant
            i <= bytes@.len(),
            out@ == mid + bytes@.take(i as int),
        decreases bytes@.len() - i,
    {
        out.push(bytes[i]);
        i = i + 1;
        assert(out@ =~= mid + bytes@.take(i as int));
    }
    assert(bytes@.take(bytes@.len() as int) =~= bytes@);
    assert(final(out)@ =~= old(out)@ + ser_str(bytes@));
}

/// Appends `s[from..to]`.
pub fn copy_range(out: &mut Vec<u8>, s: &[u8], from: usize, to: usize)
    requires
        from <= to <= s@.len(),
    ensures
        final(out)@ == old(out)@ + s@.subrange(from as int, to as int),
{
    let mut i: usize = from;
    while i < to
        invariant
            from <= i <= to,
            to <= s@.len(),
            out@ == old(out)@ + s@.subrange(from as int, i as int),
        decreases to - i,
    {
        out.push(s[i]);
        i = i + 1;
        assert(out@ =~= old(out)@ + s@.subrange(from as int, i as int));
    }
}

/// The 32-bit value of the four little-endian bytes `b`.
pub fn u32_from_le(b: &[u8]) -> (v: u32)
    requires
        b@.len() == 4,
    ensures
        v == from_le32(b@),
{
    b[0] as u32 + (b[1] as u32) * 256 + (b[2] as u32) * 65536 + (b[3] as u32) * 16777216
}

/// The four little-endian bytes of `v`.
pub fn le32_bytes(v: u32) -> (b: Vec<u8>)
    ensures
        b@ == le32(v),
{
    let b = vec![(v % 256) as u8, ((v / 256) % 256) as u8, ((v / 65536) % 256) as u8, (v / 16777216) as u8];
    assert(b@ =~= le32(v));
    b
}

} // verus!
