//! The SubChunk packet between protocols 1001 and 2168: the centre widens
//! from zig-zag integers to little-endian ones, the entry count narrows to
//! a variable-length integer, and each entry's payload, height maps and
//! blob hash gain presence flags. Which optional parts protocol 2168 is
//! sent is a shape an operator picks.
use vstd::prelude::*;
use crate::codec::{
    from_le32, le32, le32_bytes, ser_bool, ser_i32v, ser_str, ser_u32v, ser_u8, take_fixed, take_i32v, take_str,
    take_u32v, take_u8, two32, u32_from_le, zeros, DecodeError, Field,
};
use crate::config::{normalize, normalized, same_chars};
use crate::steps::v1001_v2168::{read_flag, take_flag};
use crate::wrapper::{copied, pass, pass_fields, put, PacketWrapper, WireState};

verus! {

pub const SUB_CHUNK_RESULT_LEVEL_CHUNK_DOESNT_EXIST: u8 = 2;
pub const SUB_CHUNK_RESULT_SUCCESS_ALL_AIR: u8 = 6;
pub const HEIGHT_MAP_NONE: u8 = 0;
pub const HEIGHT_MAP_HAS_DATA: u8 = 1;
pub const HEIGHT_MAP_LEN: usize = 256;

/// Which optional parts a protocol-2168 sub-chunk entry is sent: the
/// height map type bytes, the blob hash (and whether a zero one), an empty
/// payload, or, when `strip_content`, nothing but the framing of an empty
/// sub-chunk.
#[derive(Debug, Clone, Copy, PartialEq, Eq, Structural)]
pub struct SubChunkShape {
    pub type_bytes: bool,
    pub announce_blob_hash: bool,
    pub zero_blob_hash: bool,
    pub empty_payload: bool,
    pub strip_content: bool,
}

/// Every optional part sent.
pub open spec fn shape_documented() -> SubChunkShape {
    SubChunkShape { type_bytes: true, announce_blob_hash: true, zero_blob_hash: true, empty_payload: true, strip_content: false }
}

/// A zero blob hash left absent.
pub open spec fn shape_suppress_zero_hash() -> SubChunkShape {
    SubChunkShape { zero_blob_hash: false, ..shape_documented() }
}

/// A zero blob hash and an empty payload left absent: the default.
pub open spec fn shape_suppress_empty_payload() -> SubChunkShape {
    SubChunkShape { empty_payload: false, ..shape_suppress_zero_hash() }
}

/// No blob hash at all.
pub open spec fn shape_no_blob_hash() -> SubChunkShape {
    SubChunkShape { announce_blob_hash: false, ..shape_suppress_empty_payload() }
}

impl SubChunkShape {
    pub fn documented() -> (s: SubChunkShape)
        ensures
            s == shape_documented(),
    {
        SubChunkShape { type_bytes: true, announce_blob_hash: true, zero_blob_hash: true, empty_payload: true, strip_content: false }
    }

    pub fn suppress_zero_hash() -> (s: SubChunkShape)
        ensures
            s == shape_suppress_zero_hash(),
    {
        SubChunkShape { zero_blob_hash: false, ..SubChunkShape::documented() }
    }

    pub fn suppress_empty_payload() -> (s: SubChunkShape)
        ensures
            s == shape_suppress_empty_payload(),
    {
        SubChunkShape { empty_payload: false, ..SubChunkShape::suppress_zero_hash() }
    }

    /// The shape used unless an operator picks another.
    pub fn default_shape() -> (s: SubChunkShape)
        ensures
            s == shape_suppress_empty_payload(),
    {
        SubChunkShape::suppress_empty_payload()
    }

    pub fn no_blob_hash() -> (s: SubChunkShape)
        ensures
            s == shape_no_blob_hash(),
    {
        SubChunkShape { announce_blob_hash: false, ..SubChunkShape::default_shape() }
    }
}

/// The shape a setting picks, trimmed and lower-cased: none (the packet is
/// dropped) for "off", "drop" or "0"; the shapes "a" to "h"; "air" or
/// "strip" for framing only; the default for anything else.
pub open spec fn spec_sub_chunk_shape(v: Seq<char>) -> Option<SubChunkShape> {
    if v == "off"@ || v == "drop"@ || v == "0"@ {
        None
    } else if v == "a"@ {
        Some(shape_documented())
    } else if v == "b"@ {
        Some(SubChunkShape { type_bytes: false, ..shape_documented() })
    } else if v == "c"@ {
        Some(shape_suppress_zero_hash())
    } else if v == "d"@ {
        Some(SubChunkShape { type_bytes: false, ..shape_suppress_zero_hash() })
    } else if v == "e"@ {
        Some(shape_no_blob_hash())
    } else if v == "f"@ {
        Some(SubChunkShape { type_bytes: false, ..shape_no_blob_hash() })
    } else if v == "g"@ {
        Some(shape_suppress_empty_payload())
    } else if v == "h"@ {
        Some(SubChunkShape { type_bytes: false, ..shape_suppress_empty_payload() })
    } else if v == "air"@ || v == "strip"@ {
        Some(SubChunkShape { strip_content: true, ..shape_suppress_empty_payload() })
    } else {
        Some(shape_suppress_empty_payload())
    }
}

/// The sub-chunk shape an operator's setting picks (an absent setting
/// reads as empty).
pub fn sub_chunk_shape(raw: &str) -> (r: Option<SubChunkShape>)
    ensures
        r == spec_sub_chunk_shape(normalized(raw@)),
{
    let n = normalize(raw);
    if same_chars(&n, "off") || same_chars(&n, "drop") || same_chars(&n, "0") {
        None
    } else if same_chars(&n, "a") {
        Some(SubChunkShape::documented())
    } else if same_chars(&n, "b") {
        Some(SubChunkShape { type_bytes: false, ..SubChunkShape::documented() })
    } else if same_chars(&n, "c") {
        Some(SubChunkShape::suppress_zero_hash())
    } else if same_chars(&n, "d") {
        Some(SubChunkShape { type_bytes: false, ..SubChunkShape::suppress_zero_hash() })
    } else if same_chars(&n, "e") {
        Some(SubChunkShape::no_blob_hash())
    } else if same_chars(&n, "f") {
        Some(SubChunkShape { type_bytes: false, ..SubChunkShape::no_blob_hash() })
    } else if same_chars(&n, "g") {
        Some(SubChunkShape::suppress_empty_payload())
    } else if same_chars(&n, "h") {
        Some(SubChunkShape { type_bytes: false, ..SubChunkShape::suppress_empty_payload() })
    } else if same_chars(&n, "air") || same_chars(&n, "strip") {
        Some(SubChunkShape { strip_content: true, ..SubChunkShape::default_shape() })
    } else {
        Some(SubChunkShape::default_shape())
    }
}

/// The line that tells an operator which sub-chunk shape is in use.
pub open spec fn spec_sub_chunk_mode_label(shape: Option<SubChunkShape>) -> Seq<char> {
    match shape {
        None => "off (packet dropped)"@,
        Some(s) => if s.strip_content {
            "air (framing only, no blocks)"@
        } else if s == shape_suppress_empty_payload() {
            "g (default: a zero hash and an empty payload are both left absent)"@
        } else if s == shape_suppress_zero_hash() {
            "c (empty payload announced present — a v2168 client dies on a long teleport)"@
        } else if s == shape_documented() {
            "a (schema shape, hash 0 included — a v2168 client stalls a second after spawn)"@
        } else if !s.announce_blob_hash {
            "e/f (no blob announced — a v2168 client refuses this)"@
        } else {
            "b/d/h (height map type bytes omitted)"@
        },
    }
}

pub fn sub_chunk_mode_label(shape: Option<SubChunkShape>) -> (r: &'static str)
    ensures
        r@ == spec_sub_chunk_mode_label(shape),
{
    match shape {
        None => "off (packet dropped)",
        Some(s) => if s.strip_content {
            "air (framing only, no blocks)"
        } else if s == SubChunkShape::suppress_empty_payload() {
            "g (default: a zero hash and an empty payload are both left absent)"
        } else if s == SubChunkShape::suppress_zero_hash() {
            "c (empty payload announced present — a v2168 client dies on a long teleport)"
        } else if s == SubChunkShape::documented() {
            "a (schema shape, hash 0 included — a v2168 client stalls a second after spawn)"
        } else if !s.announce_blob_hash {
            "e/f (no blob announced — a v2168 client refuses this)"
        } else {
            "b/d/h (height map type bytes omitted)"
        },
    }
}

/// The height map of an entry. Protocol 1001 writes a type byte, then the
/// map when the type says it has data; protocol 2168 writes the type byte
/// only in shapes that keep it, then a presence flag before the map.
#[verifier::opaque]
pub open spec fn spec_height_map(st: WireState, to_v2168: bool, shape: SubChunkShape) -> Option<WireState> {
    if to_v2168 {
        match take_u8(st.rest) {
            Some((t, r)) => {
                let s1 = put(
                    WireState { rest: r, ..st },
                    (if shape.type_bytes { ser_u8(t) } else { Seq::empty() }) + ser_bool(t == HEIGHT_MAP_HAS_DATA),
                );
                if t == HEIGHT_MAP_HAS_DATA {
                    match take_fixed(256, s1.rest) {
                        Some((d, r2)) => Some(put(WireState { rest: r2, ..s1 }, d)),
                        None => None,
                    }
                } else {
                    Some(s1)
                }
            },
            None => None,
        }
    } else {
        match if shape.type_bytes { take_u8(st.rest) } else { Some((HEIGHT_MAP_NONE, st.rest)) } {
            Some((t, r1)) => match take_flag(r1) {
                Some((present, r2)) => match if present { take_fixed(256, r2) } else { Some((Seq::empty(), r2)) } {
                    Some((d, r3)) => {
                        let t2 = if !shape.type_bytes && present { HEIGHT_MAP_HAS_DATA } else { t };
                        Some(put(
                            WireState { rest: r3, ..st },
                            ser_u8(t2) + if t2 == HEIGHT_MAP_HAS_DATA {
                                if present { d } else { zeros(256) }
                            } else {
                                Seq::empty()
                            },
                        ))
                    },
                    None => None,
                },
                None => None,
            },
            None => None,
        }
    }
}

fn height_map(w: &mut PacketWrapper, to_v2168: bool, shape: SubChunkShape) -> (r: Result<(), DecodeError>)
    requires
        old(w).wf(),
    ensures
        final(w).wf(),
        match spec_height_map(old(w)@, to_v2168, shape) {
            Some(st) => r is Ok && final(w)@ == st,
            None => r is Err,
        },
{
    reveal(spec_height_map);
    if to_v2168 {
        let t = w.read_u8()?;
        let ghost s0 = w@;
        if shape.type_bytes {
            w.write_u8(t);
        }
        w.write_bool(t == HEIGHT_MAP_HAS_DATA);
        assert(w@.out =~= s0.out + ((if shape.type_bytes { ser_u8(t) } else { Seq::empty() })
            + ser_bool(t == HEIGHT_MAP_HAS_DATA)));
        if t == HEIGHT_MAP_HAS_DATA {
            let d = w.read_fixed(HEIGHT_MAP_LEN)?;
            w.write_bytes(d.as_slice());
        }
    } else {
        let t = if shape.type_bytes { w.read_u8()? } else { HEIGHT_MAP_NONE };
        let present = read_flag(w)?;
        let d = if present { w.read_fixed(HEIGHT_MAP_LEN)? } else { Vec::new() };
        let t2 = if !shape.type_bytes && present { HEIGHT_MAP_HAS_DATA } else { t };
        let ghost s0 = w@;
        w.write_u8(t2);
        if t2 == HEIGHT_MAP_HAS_DATA {
            if present {
                w.write_bytes(d.as_slice());
            } else {
                w.write_zeros(HEIGHT_MAP_LEN);
            }
            assert(w@.out =~= s0.out + (ser_u8(t2) + if present { d@ } else { zeros(256) }));
        } else {
            assert(w@.out =~= s0.out + (ser_u8(t2) + Seq::<u8>::empty()));
        }
    }
    Ok(())
}

/// The payload of an entry whose source writes one (`writes`): protocol
/// 1001 writes it as a byte array; protocol 2168 puts a presence flag
/// before it and leaves an empty one absent unless the shape asks for it.
#[verifier::opaque]
pub open spec fn spec_payload(st: WireState, to_v2168: bool, writes: bool, shape: SubChunkShape) -> Option<WireState> {
    if to_v2168 {
        match if writes { take_str(st.rest) } else { Some((Seq::empty(), st.rest)) } {
            Some((p, r)) => {
                let present = p.len() > 0 || (writes && shape.empty_payload);
                Some(put(WireState { rest: r, ..st }, ser_bool(present) + if present { ser_str(p) } else { Seq::empty() }))
            },
            None => None,
        }
    } else {
        match take_flag(st.rest) {
            Some((present, r)) => match if present { take_str(r) } else { Some((Seq::empty(), r)) } {
                Some((p, r2)) => Some(put(WireState { rest: r2, ..st }, if writes { ser_str(p) } else { Seq::empty() })),
                None => None,
            },
            None => None,
        }
    }
}

fn payload(w: &mut PacketWrapper, to_v2168: bool, writes: bool, shape: SubChunkShape) -> (r: Result<(), DecodeError>)
    requires
        old(w).wf(),
    ensures
        final(w).wf(),
        match spec_payload(old(w)@, to_v2168, writes, shape) {
            Some(st) => r is Ok && final(w)@ == st,
            None => r is Err,
        },
{
    reveal(spec_payload);
    if to_v2168 {
        let p = if writes { w.read_str()? } else { Vec::new() };
        let present = p.len() > 0 || (writes && shape.empty_payload);
        let ghost s0 = w@;
        w.write_bool(present);
        if present {
            w.write_str(p.as_slice());
            assert(w@.out =~= s0.out + (ser_bool(present) + ser_str(p@)));
        } else {
            assert(w@.out =~= s0.out + (ser_bool(present) + Seq::<u8>::empty()));
        }
    } else {
        let present = read_flag(w)?;
        let p = if present { w.read_str()? } else { Vec::new() };
        if writes {
            w.write_str(p.as_slice());
        } else {
            assert(w@.out =~= w@.out + Seq::<u8>::empty());
        }
    }
    Ok(())
}

/// The blob hash of an entry: protocol 1001 writes its eight bytes when
/// the cache is on; protocol 2168 puts a presence flag before them, and
/// sends them only when the cache is on, the shape announces hashes, and
/// the hash is not zero or the shape sends zero ones.
#[verifier::opaque]
pub open spec fn spec_blob_hash(st: WireState, to_v2168: bool, cache: bool, shape: SubChunkShape) -> Option<WireState> {
    if to_v2168 {
        match if cache { take_fixed(8, st.rest) } else { Some((zeros(8), st.rest)) } {
            Some((h, r)) => {
                let present = cache && shape.announce_blob_hash && (shape.zero_blob_hash || h != zeros(8));
                Some(put(WireState { rest: r, ..st }, ser_bool(present) + if present { h } else { Seq::empty() }))
            },
            None => None,
        }
    } else {
        match take_flag(st.rest) {
            Some((present, r)) => match if present { take_fixed(8, r) } else { Some((zeros(8), r)) } {
                Some((h, r2)) => Some(put(WireState { rest: r2, ..st }, if cache { h } else { Seq::empty() })),
                None => None,
            },
            None => None,
        }
    }
}

fn is_zero_hash(h: &Vec<u8>) -> (b: bool)
    requires
        h@.len() == 8,
    ensures
        b == (h@ == zeros(8)),
{
    let mut i: usize = 0;
    while i < 8
        invariant
            h@.len() == 8,
            i <= 8,
            forall|k: int| 0 <= k < i ==> h@[k] == 0,
        decreases 8 - i,
    {
        if h[i] != 0 {
            assert(h@[i as int] != zeros(8)[i as int]);
            return false;
        }
        i = i + 1;
    }
    assert(h@ =~= zeros(8));
    true
}

fn blob_hash(w: &mut PacketWrapper, to_v2168: bool, cache: bool, shape: SubChunkShape) -> (r: Result<(), DecodeError>)
    requires
        old(w).wf(),
    ensures
        final(w).wf(),
        match spec_blob_hash(old(w)@, to_v2168, cache, shape) {
            Some(st) => r is Ok && final(w)@ == st,
            None => r is Err,
        },
{
    reveal(spec_blob_hash);
    if to_v2168 {
        let h = if cache { w.read_fixed(8)? } else { vec![0u8, 0, 0, 0, 0, 0, 0, 0] };
        assert(!cache ==> h@ =~= zeros(8));
        let present = cache && shape.announce_blob_hash && (shape.zero_blob_hash || !is_zero_hash(&h));
        let ghost s0 = w@;
        w.write_bool(present);
        if present {
            w.write_bytes(h.as_slice());
            assert(w@.out =~= s0.out + (ser_bool(present) + h@));
        } else {
            assert(w@.out =~= s0.out + (ser_bool(present) + Seq::<u8>::empty()));
        }
    } else {
        let present = read_flag(w)?;
        let h = if present { w.read_fixed(8)? } else { vec![0u8, 0, 0, 0, 0, 0, 0, 0] };
        assert(!present ==> h@ =~= zeros(8));
        if cache {
            w.write_bytes(h.as_slice());
        } else {
            assert(w@.out =~= w@.out + Seq::<u8>::empty());
        }
    }
    Ok(())
}

/// A height map emptied for the framing-only shape: read and dropped,
/// written as absent.
pub open spec fn spec_strip_map(st: WireState, shape: SubChunkShape) -> Option<WireState> {
    match take_u8(st.rest) {
        Some((t, r)) => match if t == HEIGHT_MAP_HAS_DATA { take_fixed(256, r) } else { Some((Seq::empty(), r)) } {
            Some((_, r2)) => Some(put(
                WireState { rest: r2, ..st },
                (if shape.type_bytes { ser_u8(HEIGHT_MAP_NONE) } else { Seq::empty() }) + ser_bool(false),
            )),
            None => None,
        },
        None => None,
    }
}

fn strip_map(w: &mut PacketWrapper, shape: SubChunkShape) -> (r: Result<(), DecodeError>)
    requires
        old(w).wf(),
    ensures
        final(w).wf(),
        match spec_strip_map(old(w)@, shape) {
            Some(st) => r is Ok && final(w)@ == st,
            None => r is Err,
        },
{
    let t = w.read_u8()?;
    if t == HEIGHT_MAP_HAS_DATA {
        w.read_fixed(HEIGHT_MAP_LEN)?;
    }
    let ghost s0 = w@;
    if shape.type_bytes {
        w.write_u8(HEIGHT_MAP_NONE);
    }
    w.write_bool(false);
    assert(w@.out =~= s0.out + ((if shape.type_bytes { ser_u8(HEIGHT_MAP_NONE) } else { Seq::empty() }) + ser_bool(false)));
    Ok(())
}

/// An entry emptied for the framing-only shape: its position is kept, its
/// result says "all air", and its payload, height maps and blob hash are
/// read and written as absent.
pub open spec fn spec_strip_entry(st: WireState, cache: bool, shape: SubChunkShape) -> Option<WireState> {
    match take_u8(st.rest) {
        Some((result, r)) => {
            let s1 = put(WireState { rest: r, ..st }, ser_u8(SUB_CHUNK_RESULT_SUCCESS_ALL_AIR));
            match if !cache || result != SUB_CHUNK_RESULT_SUCCESS_ALL_AIR {
                match take_str(s1.rest) {
                    Some((_, r2)) => Some(WireState { rest: r2, ..s1 }),
                    None => None,
                }
            } else {
                Some(s1)
            } {
                Some(s2) => match spec_strip_map(put(s2, ser_bool(false)), shape) {
                    Some(s3) => match spec_strip_map(s3, shape) {
                        Some(s4) => match if cache {
                            match take_fixed(8, s4.rest) {
                                Some((_, r5)) => Some(WireState { rest: r5, ..s4 }),
                                None => None,
                            }
                        } else {
                            Some(s4)
                        } {
                            Some(s5) => Some(put(s5, ser_bool(false))),
                            None => None,
                        },
                        None => None,
                    },
                    None => None,
                },
                None => None,
            }
        },
        None => None,
    }
}

fn strip_entry(w: &mut PacketWrapper, cache: bool, shape: SubChunkShape) -> (r: Result<(), DecodeError>)
    requires
        old(w).wf(),
    ensures
        final(w).wf(),
        match spec_strip_entry(old(w)@, cache, shape) {
            Some(st) => r is Ok && final(w)@ == st,
            None => r is Err,
        },
{
    let result = w.read_u8()?;
    w.write_u8(SUB_CHUNK_RESULT_SUCCESS_ALL_AIR);
    if !cache || result != SUB_CHUNK_RESULT_SUCCESS_ALL_AIR {
        w.read_str()?;
    }
    w.write_bool(false);
    strip_map(w, shape)?;
    strip_map(w, shape)?;
    if cache {
        w.read_fixed(8)?;
    }
    w.write_bool(false);
    Ok(())
}

/// The three position bytes of an entry, which both protocols copy.
pub open spec fn entry_position() -> Seq<Field> {
    seq![Field::Byte, Field::Byte, Field::Byte]
}

/// One entry of a SubChunk packet.
#[verifier::opaque]
pub open spec fn spec_sub_chunk_entry(st: WireState, to_v2168: bool, cache: bool, shape: SubChunkShape) -> Option<WireState> {
    match pass_fields(st, entry_position()) {
        Some(s1) => if to_v2168 && shape.strip_content {
            spec_strip_entry(s1, cache, shape)
        } else {
            match take_u8(s1.rest) {
                Some((result, _)) => match spec_payload(
                    copied(s1, 1),
                    to_v2168,
                    !cache || result != SUB_CHUNK_RESULT_SUCCESS_ALL_AIR,
                    shape,
                ) {
                    Some(s2) => match spec_height_map(s2, to_v2168, shape) {
                        Some(s3) => match spec_height_map(s3, to_v2168, shape) {
                            Some(s4) => spec_blob_hash(s4, to_v2168, cache, shape),
                            None => None,
                        },
                        None => None,
                    },
                    None => None,
                },
                None => None,
            }
        },
        None => None,
    }
}

fn sub_chunk_entry(w: &mut PacketWrapper, to_v2168: bool, cache: bool, shape: SubChunkShape) -> (r: Result<(), DecodeError>)
    requires
        old(w).wf(),
    ensures
        final(w).wf(),
        match spec_sub_chunk_entry(old(w)@, to_v2168, cache, shape) {
            Some(st) => r is Ok && final(w)@ == st,
            None => r is Err,
        },
{
    reveal(spec_sub_chunk_entry);
    let pos = vec![Field::Byte, Field::Byte, Field::Byte];
    assert(pos@.skip(0) =~= entry_position());
    w.passthrough_fields(pos.as_slice(), 0)?;
    if to_v2168 && shape.strip_content {
        return strip_entry(w, cache, shape);
    }
    let result = w.pass_u8()?;
    payload(w, to_v2168, !cache || result != SUB_CHUNK_RESULT_SUCCESS_ALL_AIR, shape)?;
    height_map(w, to_v2168, shape)?;
    height_map(w, to_v2168, shape)?;
    blob_hash(w, to_v2168, cache, shape)
}

/// One coordinate of the centre: a zig-zag integer in protocol 1001, four
/// little-endian bytes in 2168.
pub open spec fn spec_coordinate(st: WireState, to_v2168: bool) -> Option<WireState> {
    if to_v2168 {
        match take_i32v(st.rest) {
            Some((v, r)) => Some(put(WireState { rest: r, ..st }, le32(v as u32))),
            None => None,
        }
    } else {
        match take_fixed(4, st.rest) {
            Some((b, r)) => Some(put(WireState { rest: r, ..st }, ser_i32v(from_le32(b) as i32))),
            None => None,
        }
    }
}

pub(crate) fn coordinate(w: &mut PacketWrapper, to_v2168: bool) -> (r: Result<(), DecodeError>)
    requires
        old(w).wf(),
    ensures
        final(w).wf(),
        match spec_coordinate(old(w)@, to_v2168) {
            Some(st) => r is Ok && final(w)@ == st,
            None => r is Err,
        },
{
    if to_v2168 {
        let v = w.read_i32v()?;
        let b = le32_bytes(v as u32);
        w.write_bytes(b.as_slice());
    } else {
        let b = w.read_fixed(4)?;
        let v = u32_from_le(b.as_slice());
        w.write_i32v(v as i32);
    }
    Ok(())
}

/// The entry count: four little-endian bytes in protocol 1001, a
/// variable-length integer in 2168; with the count.
pub open spec fn spec_entry_count(st: WireState, to_v2168: bool) -> Option<(u32, WireState)> {
    if to_v2168 {
        match take_fixed(4, st.rest) {
            Some((b, r)) => Some((from_le32(b), put(WireState { rest: r, ..st }, ser_u32v(from_le32(b))))),
            None => None,
        }
    } else {
        match take_u32v(st.rest) {
            Some((n, r)) => Some((n, put(WireState { rest: r, ..st }, le32(n)))),
            None => None,
        }
    }
}

fn entry_count(w: &mut PacketWrapper, to_v2168: bool) -> (r: Result<u32, DecodeError>)
    requires
        old(w).wf(),
    ensures
        final(w).wf(),
        match spec_entry_count(old(w)@, to_v2168) {
            Some((n, st)) => r == Ok::<u32, DecodeError>(n) && final(w)@ == st,
            None => r is Err,
        },
{
    if to_v2168 {
        let b = w.read_fixed(4)?;
        let n = u32_from_le(b.as_slice());
        w.write_u32v(n);
        Ok(n)
    } else {
        let n = w.read_u32v()?;
        let b = le32_bytes(n);
        w.write_bytes(b.as_slice());
        Ok(n)
    }
}

/// `n` entries in turn.
pub open spec fn spec_sub_chunk_entries(st: WireState, to_v2168: bool, cache: bool, shape: SubChunkShape, n: nat) -> Option<WireState>
    decreases n,
{
    if n == 0 {
        Some(st)
    } else {
        match spec_sub_chunk_entries(st, to_v2168, cache, shape, (n - 1) as nat) {
            Some(s) => spec_sub_chunk_entry(s, to_v2168, cache, shape),
            None => None,
        }
    }
}

proof fn lemma_entries_stuck(st: WireState, to_v2168: bool, cache: bool, shape: SubChunkShape, i: nat, n: nat)
    requires
        i <= n,
        spec_sub_chunk_entries(st, to_v2168, cache, shape, i) is None,
    ensures
        spec_sub_chunk_entries(st, to_v2168, cache, shape, n) is None,
    decreases n - i,
{
    if i < n {
        lemma_entries_stuck(st, to_v2168, cache, shape, i + 1, n);
    }
}

/// SubChunk: the cache flag and dimension are kept, the centre and count
/// change width, and each entry changes as `spec_sub_chunk_entry` says.
pub open spec fn spec_sub_chunk(st: WireState, to_v2168: bool, shape: SubChunkShape) -> Option<WireState> {
    match take_u8(st.rest) {
        Some((c, _)) => match pass(copied(st, 1), Field::VarInt) {
            Some(s2) => match spec_coordinate(s2, to_v2168) {
                Some(s3) => match spec_coordinate(s3, to_v2168) {
                    Some(s4) => match spec_coordinate(s4, to_v2168) {
                        Some(s5) => match spec_entry_count(s5, to_v2168) {
                            Some((n, s6)) => spec_sub_chunk_entries(s6, to_v2168, c != 0, shape, n as nat),
                            None => None,
                        },
                        None => None,
                    },
                    None => None,
                },
                None => None,
            },
            None => None,
        },
        None => None,
    }
}

pub fn sub_chunk(w: &mut PacketWrapper, to_v2168: bool, shape: SubChunkShape) -> (r: Result<(), DecodeError>)
    requires
        old(w).wf(),
    ensures
        final(w).wf(),
        match spec_sub_chunk(old(w)@, to_v2168, shape) {
            Some(st) => r is Ok && final(w)@ == st,
            None => r is Err,
        },
{
    let cache = w.pass_bool()?;
    w.passthrough(Field::VarInt)?;
    coordinate(w, to_v2168)?;
    coordinate(w, to_v2168)?;
    coordinate(w, to_v2168)?;
    let n = entry_count(w, to_v2168)?;
    let ghost s0 = w@;
    let mut i: u32 = 0;
    while i < n
        invariant
            w.wf(),
            i <= n,
            spec_sub_chunk_entries(s0, to_v2168, cache, shape, i as nat) == Some(w@),
            spec_sub_chunk(old(w)@, to_v2168, shape) == spec_sub_chunk_entries(s0, to_v2168, cache, shape, n as nat),
        decreases n - i,
    {
        match sub_chunk_entry(w, to_v2168, cache, shape) {
            Ok(()) => {},
            Err(e) => {
                proof {
                    lemma_entries_stuck(s0, to_v2168, cache, shape, (i + 1) as nat, n as nat);
                }
                return Err(e);
            },
        }
        i = i + 1;
    }
    Ok(())
}

/// A height map: its type byte and its 256 bytes, present exactly when the
/// type says it has data.
pub open spec fn height_map_ok(m: (u8, Seq<u8>), shape: SubChunkShape) -> bool {
    &&& (if m.0 == HEIGHT_MAP_HAS_DATA { m.1.len() == 256 } else { m.1.len() == 0 })
    &&& (!shape.type_bytes ==> m.0 <= HEIGHT_MAP_HAS_DATA)
}

pub open spec fn height_map_v1001(m: (u8, Seq<u8>)) -> Seq<u8> {
    ser_u8(m.0) + m.1
}

pub open spec fn height_map_v2168(m: (u8, Seq<u8>), shape: SubChunkShape) -> Seq<u8> {
    (if shape.type_bytes { ser_u8(m.0) } else { Seq::empty() }) + ser_bool(m.0 == HEIGHT_MAP_HAS_DATA) + m.1
}

proof fn lemma_flag(b: bool, t: Seq<u8>)
    ensures
        take_flag(ser_bool(b) + t) == Some((b, t)),
        take_u8(ser_bool(b) + t) == Some((if b { 1u8 } else { 0u8 }, t)),
{
    assert(ser_bool(b) =~= ser_u8(if b { 1u8 } else { 0u8 }));
    crate::codec::lemma_take_u8(if b { 1u8 } else { 0u8 }, t);
}

proof fn lemma_height_map_round_trip(st: WireState, m: (u8, Seq<u8>), shape: SubChunkShape, t: Seq<u8>)
    requires
        height_map_ok(m, shape),
    ensures
        spec_height_map(WireState { rest: height_map_v1001(m) + t, ..st }, true, shape)
            == Some(WireState { rest: t, out: st.out + height_map_v2168(m, shape), ..st }),
        spec_height_map(WireState { rest: height_map_v2168(m, shape) + t, ..st }, false, shape)
            == Some(WireState { rest: t, out: st.out + height_map_v1001(m), ..st }),
{
    reveal(spec_height_map);
    let (ty, d) = m;
    let with_data = ty == HEIGHT_MAP_HAS_DATA;
    let tb = if shape.type_bytes { ser_u8(ty) } else { Seq::<u8>::empty() };
    assert(height_map_v1001(m) + t =~= ser_u8(ty) + (d + t));
    crate::codec::lemma_take_u8(ty, d + t);
    crate::codec::lemma_take_fixed(d, t);
    assert(st.out + (tb + ser_bool(with_data)) + d =~= st.out + height_map_v2168(m, shape));
    if !with_data {
        assert(d + t =~= t);
        assert(st.out + (tb + ser_bool(with_data)) =~= st.out + height_map_v2168(m, shape));
    }
    // Down.
    if shape.type_bytes {
        assert(height_map_v2168(m, shape) + t =~= ser_u8(ty) + (ser_bool(with_data) + (d + t)));
        crate::codec::lemma_take_u8(ty, ser_bool(with_data) + (d + t));
    } else {
        assert(height_map_v2168(m, shape) + t =~= ser_bool(with_data) + (d + t));
    }
    lemma_flag(with_data, d + t);
    if with_data {
        assert(st.out + (ser_u8(ty) + d) =~= st.out + height_map_v1001(m));
    } else {
        assert(ty == HEIGHT_MAP_NONE || shape.type_bytes);
        assert(d + t =~= t);
        assert(st.out + (ser_u8(ty) + Seq::<u8>::empty()) =~= st.out + height_map_v1001(m));
        assert(Seq::<u8>::empty() + t =~= t);
    }
}

/// The payload as protocol 1001 writes it when the source writes one.
pub open spec fn payload_v1001(p: Seq<u8>, writes: bool) -> Seq<u8> {
    if writes { ser_str(p) } else { Seq::empty() }
}

/// The payload as protocol 2168 writes it.
pub open spec fn payload_v2168(p: Seq<u8>, writes: bool, shape: SubChunkShape) -> Seq<u8> {
    let present = p.len() > 0 || (writes && shape.empty_payload);
    ser_bool(present) + if present { ser_str(p) } else { Seq::empty() }
}

proof fn lemma_payload_round_trip(st: WireState, p: Seq<u8>, writes: bool, shape: SubChunkShape, t: Seq<u8>)
    requires
        p.len() < two32(),
        !writes ==> p.len() == 0,
    ensures
        spec_payload(WireState { rest: payload_v1001(p, writes) + t, ..st }, true, writes, shape)
            == Some(WireState { rest: t, out: st.out + payload_v2168(p, writes, shape), ..st }),
        spec_payload(WireState { rest: payload_v2168(p, writes, shape) + t, ..st }, false, writes, shape)
            == Some(WireState { rest: t, out: st.out + payload_v1001(p, writes), ..st }),
{
    reveal(spec_payload);
    let present = p.len() > 0 || (writes && shape.empty_payload);
    crate::codec::lemma_take_str(p, t);
    if !writes {
        assert(p =~= Seq::<u8>::empty());
        assert(payload_v1001(p, writes) + t =~= t);
    }
    if present {
        assert(payload_v2168(p, writes, shape) + t =~= ser_bool(true) + (ser_str(p) + t));
        lemma_flag(true, ser_str(p) + t);
    } else {
        assert(payload_v2168(p, writes, shape) + t =~= ser_bool(false) + t);
        lemma_flag(false, t);
        assert(p =~= Seq::<u8>::empty());
        assert(st.out + (ser_bool(false) + Seq::<u8>::empty()) =~= st.out + payload_v2168(p, writes, shape));
    }
    if !writes {
        assert(st.out + Seq::<u8>::empty() =~= st.out);
    }
}

/// The blob hash as protocol 1001 writes it.
pub open spec fn hash_v1001(h: Seq<u8>, cache: bool) -> Seq<u8> {
    if cache { h } else { Seq::empty() }
}

/// The blob hash as protocol 2168 writes it.
pub open spec fn hash_v2168(h: Seq<u8>, cache: bool, shape: SubChunkShape) -> Seq<u8> {
    let present = cache && shape.announce_blob_hash && (shape.zero_blob_hash || h != zeros(8));
    ser_bool(present) + if present { h } else { Seq::empty() }
}

proof fn lemma_hash_round_trip(st: WireState, h: Seq<u8>, cache: bool, shape: SubChunkShape, t: Seq<u8>)
    requires
        h.len() == 8,
        !cache ==> h == zeros(8),
        shape.announce_blob_hash || h == zeros(8),
    ensures
        spec_blob_hash(WireState { rest: hash_v1001(h, cache) + t, ..st }, true, cache, shape)
            == Some(WireState { rest: t, out: st.out + hash_v2168(h, cache, shape), ..st }),
        spec_blob_hash(WireState { rest: hash_v2168(h, cache, shape) + t, ..st }, false, cache, shape)
            == Some(WireState { rest: t, out: st.out + hash_v1001(h, cache), ..st }),
{
    reveal(spec_blob_hash);
    let present = cache && shape.announce_blob_hash && (shape.zero_blob_hash || h != zeros(8));
    crate::codec::lemma_take_fixed(h, t);
    if !cache {
        assert(hash_v1001(h, cache) + t =~= t);
    }
    if present {
        assert(hash_v2168(h, cache, shape) + t =~= ser_bool(true) + (h + t));
        lemma_flag(true, h + t);
    } else {
        assert(hash_v2168(h, cache, shape) + t =~= ser_bool(false) + t);
        lemma_flag(false, t);
        assert(st.out + (ser_bool(false) + Seq::<u8>::empty()) =~= st.out + hash_v2168(h, cache, shape));
    }
    if !cache {
        assert(st.out + Seq::<u8>::empty() =~= st.out);
    }
}

/// One sub-chunk entry: its position bytes, result, payload, two height
/// maps and blob hash.
pub struct SubChunkEntry {
    pub position: Seq<u8>,
    pub result: u8,
    pub payload: Seq<u8>,
    pub heights: (u8, Seq<u8>),
    pub biomes: (u8, Seq<u8>),
    pub hash: Seq<u8>,
}

/// Whether the source writes the entry's payload: always without the
/// cache, and with it unless the sub-chunk is all air.
pub open spec fn source_writes_payload(result: u8, cache: bool) -> bool {
    !cache || result != SUB_CHUNK_RESULT_SUCCESS_ALL_AIR
}

pub open spec fn entry_ok(e: SubChunkEntry, cache: bool, shape: SubChunkShape) -> bool {
    &&& e.position.len() == 3
    &&& e.payload.len() < two32()
    &&& (!source_writes_payload(e.result, cache) ==> e.payload.len() == 0)
    &&& height_map_ok(e.heights, shape)
    &&& height_map_ok(e.biomes, shape)
    &&& e.hash.len() == 8
    &&& (!cache ==> e.hash == zeros(8))
}

pub open spec fn entry_v1001(e: SubChunkEntry, cache: bool) -> Seq<u8> {
    e.position + ser_u8(e.result) + payload_v1001(e.payload, source_writes_payload(e.result, cache))
        + height_map_v1001(e.heights) + height_map_v1001(e.biomes) + hash_v1001(e.hash, cache)
}

pub open spec fn entry_v2168(e: SubChunkEntry, cache: bool, shape: SubChunkShape) -> Seq<u8> {
    e.position + ser_u8(e.result) + payload_v2168(e.payload, source_writes_payload(e.result, cache), shape)
        + height_map_v2168(e.heights, shape) + height_map_v2168(e.biomes, shape) + hash_v2168(e.hash, cache, shape)
}

proof fn lemma_entry_position(pos: Seq<u8>)
    requires
        pos.len() == 3,
    ensures
        crate::wrapper::fields_len(entry_position(), pos) == Some(3nat),
{
    reveal_with_fuel(crate::wrapper::fields_len, 4);
    assert(entry_position().drop_first() =~= seq![Field::Byte, Field::Byte]);
    assert(entry_position().drop_first().drop_first() =~= seq![Field::Byte]);
    assert(seq![Field::Byte].drop_first() =~= Seq::<Field>::empty());
}

/// The position and result of an entry, copied by both protocols, leave
/// the rest of the entry to read.
proof fn lemma_entry_front(st: WireState, pos: Seq<u8>, result: u8, u: Seq<u8>)
    requires
        pos.len() == 3,
    ensures
        pass_fields(WireState { rest: pos + ser_u8(result) + u, ..st }, entry_position())
            == Some(WireState { rest: ser_u8(result) + u, out: st.out + pos, ..st }),
        take_u8(ser_u8(result) + u) == Some((result, u)),
        copied(WireState { rest: ser_u8(result) + u, out: st.out + pos, ..st }, 1)
            == (WireState { rest: u, out: st.out + pos + ser_u8(result), ..st }),
{
    let r = ser_u8(result);
    lemma_entry_position(pos);
    assert(pos + r + u =~= pos + (r + u));
    crate::wrapper::lemma_pass_fields_replay(entry_position(), pos, r + u, st.out, st.cancelled);
    assert(pos.take(3) =~= pos);
    crate::codec::lemma_take_u8(result, u);
    assert((r + u).skip(1) =~= u);
    assert((r + u).take(1) =~= r);
}

#[verifier::rlimit(60)]
#[verifier::spinoff_prover]
proof fn lemma_entry_up(st: WireState, e: SubChunkEntry, cache: bool, shape: SubChunkShape, t: Seq<u8>)
    requires
        entry_ok(e, cache, shape),
        shape.announce_blob_hash || e.hash == zeros(8),
        !shape.strip_content,
    ensures
        spec_sub_chunk_entry(WireState { rest: entry_v1001(e, cache) + t, ..st }, true, cache, shape)
            == Some(WireState { rest: t, out: st.out + entry_v2168(e, cache, shape), ..st }),
{
    reveal(spec_sub_chunk_entry);
    let writes = source_writes_payload(e.result, cache);
    let r = ser_u8(e.result);
    let p1 = payload_v1001(e.payload, writes);
    let p2 = payload_v2168(e.payload, writes, shape);
    let h1 = height_map_v1001(e.heights);
    let h2 = height_map_v2168(e.heights, shape);
    let b1 = height_map_v1001(e.biomes);
    let b2 = height_map_v2168(e.biomes, shape);
    let x1 = hash_v1001(e.hash, cache);
    let x2 = hash_v2168(e.hash, cache, shape);
    let o = st.out;
    let pos = e.position;
    let u = p1 + (h1 + (b1 + (x1 + t)));
    assert(entry_v1001(e, cache) + t =~= pos + r + u);
    lemma_entry_front(st, pos, e.result, u);
    lemma_payload_round_trip(WireState { out: o + pos + r, ..st }, e.payload, writes, shape, h1 + (b1 + (x1 + t)));
    lemma_height_map_round_trip(WireState { out: o + pos + r + p2, ..st }, e.heights, shape, b1 + (x1 + t));
    lemma_height_map_round_trip(WireState { out: o + pos + r + p2 + h2, ..st }, e.biomes, shape, x1 + t);
    lemma_hash_round_trip(WireState { out: o + pos + r + p2 + h2 + b2, ..st }, e.hash, cache, shape, t);
    assert(o + pos + r + p2 + h2 + b2 + x2 =~= o + entry_v2168(e, cache, shape));
}

#[verifier::rlimit(60)]
#[verifier::spinoff_prover]
proof fn lemma_entry_down(st: WireState, e: SubChunkEntry, cache: bool, shape: SubChunkShape, t: Seq<u8>)
    requires
        entry_ok(e, cache, shape),
        shape.announce_blob_hash || e.hash == zeros(8),
        !shape.strip_content,
    ensures
        spec_sub_chunk_entry(WireState { rest: entry_v2168(e, cache, shape) + t, ..st }, false, cache, shape)
            == Some(WireState { rest: t, out: st.out + entry_v1001(e, cache), ..st }),
{
    reveal(spec_sub_chunk_entry);
    let writes = source_writes_payload(e.result, cache);
    let r = ser_u8(e.result);
    let p1 = payload_v1001(e.payload, writes);
    let p2 = payload_v2168(e.payload, writes, shape);
    let h1 = height_map_v1001(e.heights);
    let h2 = height_map_v2168(e.heights, shape);
    let b1 = height_map_v1001(e.biomes);
    let b2 = height_map_v2168(e.biomes, shape);
    let x1 = hash_v1001(e.hash, cache);
    let x2 = hash_v2168(e.hash, cache, shape);
    let o = st.out;
    let pos = e.position;
    let d = p2 + (h2 + (b2 + (x2 + t)));
    assert(entry_v2168(e, cache, shape) + t =~= pos + r + d);
    lemma_entry_front(st, pos, e.result, d);
    lemma_payload_round_trip(WireState { out: o + pos + r, ..st }, e.payload, writes, shape, h2 + (b2 + (x2 + t)));
    lemma_height_map_round_trip(WireState { out: o + pos + r + p1, ..st }, e.heights, shape, b2 + (x2 + t));
    lemma_height_map_round_trip(WireState { out: o + pos + r + p1 + h1, ..st }, e.biomes, shape, x2 + t);
    lemma_hash_round_trip(WireState { out: o + pos + r + p1 + h1 + b1, ..st }, e.hash, cache, shape, t);
    assert(o + pos + r + p1 + h1 + b1 + x1 =~= o + entry_v1001(e, cache));
}

proof fn lemma_entry_round_trip(st: WireState, e: SubChunkEntry, cache: bool, shape: SubChunkShape, t: Seq<u8>)
    requires
        entry_ok(e, cache, shape),
        shape.announce_blob_hash || e.hash == zeros(8),
        !shape.strip_content,
    ensures
        spec_sub_chunk_entry(WireState { rest: entry_v1001(e, cache) + t, ..st }, true, cache, shape)
            == Some(WireState { rest: t, out: st.out + entry_v2168(e, cache, shape), ..st }),
        spec_sub_chunk_entry(WireState { rest: entry_v2168(e, cache, shape) + t, ..st }, false, cache, shape)
            == Some(WireState { rest: t, out: st.out + entry_v1001(e, cache), ..st }),
{
    lemma_entry_up(st, e, cache, shape, t);
    lemma_entry_down(st, e, cache, shape, t);
}

pub open spec fn entries_v1001(es: Seq<SubChunkEntry>, cache: bool) -> Seq<u8>
    decreases es.len(),
{
    if es.len() == 0 { Seq::empty() } else { entries_v1001(es.drop_last(), cache) + entry_v1001(es.last(), cache) }
}

pub open spec fn entries_v2168(es: Seq<SubChunkEntry>, cache: bool, shape: SubChunkShape) -> Seq<u8>
    decreases es.len(),
{
    if es.len() == 0 {
        Seq::empty()
    } else {
        entries_v2168(es.drop_last(), cache, shape) + entry_v2168(es.last(), cache, shape)
    }
}

proof fn lemma_entries_round_trip(es: Seq<SubChunkEntry>, cache: bool, shape: SubChunkShape, o: Seq<u8>, t: Seq<u8>)
    requires
        forall|i: int| 0 <= i < es.len() ==> entry_ok(#[trigger] es[i], cache, shape),
        forall|i: int| 0 <= i < es.len() ==> shape.announce_blob_hash || (#[trigger] es[i]).hash == zeros(8),
        !shape.strip_content,
    ensures
        spec_sub_chunk_entries(WireState { rest: entries_v1001(es, cache) + t, out: o, cancelled: false }, true, cache, shape, es.len())
            == Some(WireState { rest: t, out: o + entries_v2168(es, cache, shape), cancelled: false }),
        spec_sub_chunk_entries(WireState { rest: entries_v2168(es, cache, shape) + t, out: o, cancelled: false }, false, cache, shape, es.len())
            == Some(WireState { rest: t, out: o + entries_v1001(es, cache), cancelled: false }),
    decreases es.len(),
{
    if es.len() == 0 {
        assert(o + Seq::<u8>::empty() =~= o);
        assert(Seq::<u8>::empty() + t =~= t);
    } else {
        let p = es.drop_last();
        let e = es.last();
        assert(entry_ok(es[es.len() - 1], cache, shape));
        assert forall|i: int| 0 <= i < p.len() implies entry_ok(#[trigger] p[i], cache, shape) by {
            assert(p[i] == es[i]);
        }
        assert forall|i: int| 0 <= i < p.len() implies shape.announce_blob_hash || (#[trigger] p[i]).hash == zeros(8) by {
            assert(p[i] == es[i]);
        }
        assert(shape.announce_blob_hash || es[es.len() - 1].hash == zeros(8));
        let e1 = entry_v1001(e, cache);
        let e2 = entry_v2168(e, cache, shape);
        lemma_entries_round_trip(p, cache, shape, o, e1 + t);
        lemma_entries_round_trip(p, cache, shape, o, e2 + t);
        assert(entries_v1001(es, cache) + t =~= entries_v1001(p, cache) + (e1 + t));
        assert(entries_v2168(es, cache, shape) + t =~= entries_v2168(p, cache, shape) + (e2 + t));
        let st = WireState { rest: Seq::empty(), out: o + entries_v2168(p, cache, shape), cancelled: false };
        lemma_entry_round_trip(st, e, cache, shape, t);
        let st2 = WireState { rest: Seq::empty(), out: o + entries_v1001(p, cache), cancelled: false };
        lemma_entry_round_trip(st2, e, cache, shape, t);
        assert(o + entries_v2168(p, cache, shape) + e2 =~= o + entries_v2168(es, cache, shape));
        assert(o + entries_v1001(p, cache) + e1 =~= o + entries_v1001(es, cache));
    }
}

/// The head of a SubChunk packet as protocol 1001 writes it: the cache
/// flag, the dimension, the centre and the entry count.
pub open spec fn sub_chunk_head_v1001(cache: bool, dim: i32, x: i32, y: i32, z: i32, n: u32) -> Seq<u8> {
    ser_bool(cache) + ser_i32v(dim) + ser_i32v(x) + ser_i32v(y) + ser_i32v(z) + le32(n)
}

/// The same head as protocol 2168 writes it.
pub open spec fn sub_chunk_head_v2168(cache: bool, dim: i32, x: i32, y: i32, z: i32, n: u32) -> Seq<u8> {
    ser_bool(cache) + ser_i32v(dim) + le32(x as u32) + le32(y as u32) + le32(z as u32) + ser_u32v(n)
}

proof fn lemma_coordinate_round_trip(st: WireState, v: i32, t: Seq<u8>)
    ensures
        spec_coordinate(WireState { rest: ser_i32v(v) + t, ..st }, true)
            == Some(WireState { rest: t, out: st.out + le32(v as u32), ..st }),
        spec_coordinate(WireState { rest: le32(v as u32) + t, ..st }, false)
            == Some(WireState { rest: t, out: st.out + ser_i32v(v), ..st }),
{
    crate::codec::lemma_take_i32v(v, t);
    crate::codec::lemma_take_fixed(le32(v as u32), t);
    crate::codec::lemma_le32_round_trip(v as u32, le32(v as u32));
    assert((v as u32) as i32 == v) by (bit_vector);
}

#[verifier::rlimit(60)]
#[verifier::spinoff_prover]
proof fn lemma_sub_chunk_head(cache: bool, dim: i32, x: i32, y: i32, z: i32, n: u32, t: Seq<u8>)
    ensures
        ({
            let a = sub_chunk_head_v1001(cache, dim, x, y, z, n);
            let b = sub_chunk_head_v2168(cache, dim, x, y, z, n);
            let s0 = WireState { rest: t, out: Seq::empty(), cancelled: false };
            &&& take_u8((a + t)) == Some((if cache { 1u8 } else { 0u8 }, a.skip(1) + t))
            &&& take_u8((b + t)) == Some((if cache { 1u8 } else { 0u8 }, b.skip(1) + t))
            &&& (match pass(copied(crate::wrapper::start(a + t), 1), Field::VarInt) {
                Some(s2) => match spec_coordinate(s2, true) {
                    Some(s3) => match spec_coordinate(s3, true) {
                        Some(s4) => match spec_coordinate(s4, true) {
                            Some(s5) => spec_entry_count(s5, true) == Some((n, WireState { out: b, ..s0 })),
                            None => false,
                        },
                        None => false,
                    },
                    None => false,
                },
                None => false,
            })
            &&& (match pass(copied(crate::wrapper::start(b + t), 1), Field::VarInt) {
                Some(s2) => match spec_coordinate(s2, false) {
                    Some(s3) => match spec_coordinate(s3, false) {
                        Some(s4) => match spec_coordinate(s4, false) {
                            Some(s5) => spec_entry_count(s5, false) == Some((n, WireState { out: a, ..s0 })),
                            None => false,
                        },
                        None => false,
                    },
                    None => false,
                },
                None => false,
            })
        }),
{
    let c = ser_bool(cache);
    let dv = ser_i32v(dim);
    let (xv, yv, zv) = (ser_i32v(x), ser_i32v(y), ser_i32v(z));
    let (xl, yl, zl) = (le32(x as u32), le32(y as u32), le32(z as u32));
    let a = sub_chunk_head_v1001(cache, dim, x, y, z, n);
    let b = sub_chunk_head_v2168(cache, dim, x, y, z, n);
    let e = Seq::<u8>::empty();
    // Up.
    let ua = xv + (yv + (zv + (le32(n) + t)));
    assert(a + t =~= c + (dv + ua));
    lemma_flag(cache, dv + ua);
    assert(a.skip(1) + t =~= dv + ua);
    let s1 = copied(crate::wrapper::start(a + t), 1);
    assert(s1 == WireState { rest: dv + ua, out: c, cancelled: false }) by {
        assert((a + t).skip(1) =~= dv + ua);
        assert(e + (a + t).take(1) =~= c);
    }
    crate::codec::lemma_i32v_round_trip(dim, ua);
    assert((dv + ua).take(dv.len() as int) =~= dv);
    assert((dv + ua).skip(dv.len() as int) =~= ua);
    lemma_coordinate_round_trip(WireState { rest: e, out: c + dv, cancelled: false }, x, yv + (zv + (le32(n) + t)));
    lemma_coordinate_round_trip(WireState { rest: e, out: c + dv + xl, cancelled: false }, y, zv + (le32(n) + t));
    lemma_coordinate_round_trip(WireState { rest: e, out: c + dv + xl + yl, cancelled: false }, z, le32(n) + t);
    crate::codec::lemma_take_fixed(le32(n), t);
    crate::codec::lemma_le32_round_trip(n, le32(n));
    assert(c + dv + xl + yl + zl + ser_u32v(n) =~= b);
    // Down.
    let ub = xl + (yl + (zl + (ser_u32v(n) + t)));
    assert(b + t =~= c + (dv + ub));
    lemma_flag(cache, dv + ub);
    assert(b.skip(1) + t =~= dv + ub);
    let s2 = copied(crate::wrapper::start(b + t), 1);
    assert(s2 == WireState { rest: dv + ub, out: c, cancelled: false }) by {
        assert((b + t).skip(1) =~= dv + ub);
        assert(e + (b + t).take(1) =~= c);
    }
    crate::codec::lemma_i32v_round_trip(dim, ub);
    assert((dv + ub).take(dv.len() as int) =~= dv);
    assert((dv + ub).skip(dv.len() as int) =~= ub);
    lemma_coordinate_round_trip(WireState { rest: e, out: c + dv, cancelled: false }, x, yl + (zl + (ser_u32v(n) + t)));
    lemma_coordinate_round_trip(WireState { rest: e, out: c + dv + xv, cancelled: false }, y, zl + (ser_u32v(n) + t));
    lemma_coordinate_round_trip(WireState { rest: e, out: c + dv + xv + yv, cancelled: false }, z, ser_u32v(n) + t);
    crate::codec::lemma_take_u32v(n, t);
    assert(c + dv + xv + yv + zv + le32(n) =~= a);
}

/// A SubChunk taken from protocol 1001 to 2168 and back, or from 2168 to
/// 1001 and back, is unchanged in every shape that does not strip content,
/// where its integers are written in their shortest form; in a shape that
/// does not announce blob hashes, only while every entry's hash is zero.
pub proof fn law_sub_chunk_round_trip(cache: bool, dim: i32, x: i32, y: i32, z: i32, es: Seq<SubChunkEntry>,
    shape: SubChunkShape, t: Seq<u8>)
    requires
        es.len() <= u32::MAX,
        forall|i: int| 0 <= i < es.len() ==> entry_ok(#[trigger] es[i], cache, shape),
        forall|i: int| 0 <= i < es.len() ==> shape.announce_blob_hash || (#[trigger] es[i]).hash == zeros(8),
        !shape.strip_content,
    ensures
        ({
            let n = es.len() as u32;
            let v1001 = sub_chunk_head_v1001(cache, dim, x, y, z, n) + entries_v1001(es, cache) + t;
            let v2168 = sub_chunk_head_v2168(cache, dim, x, y, z, n) + entries_v2168(es, cache, shape) + t;
            &&& spec_sub_chunk(crate::wrapper::start(v1001), true, shape) matches Some(a)
                && crate::wrapper::finished(a) == v2168
            &&& spec_sub_chunk(crate::wrapper::start(v2168), false, shape) matches Some(b)
                && crate::wrapper::finished(b) == v1001
        }),
{
    let n = es.len() as u32;
    let a = sub_chunk_head_v1001(cache, dim, x, y, z, n);
    let b = sub_chunk_head_v2168(cache, dim, x, y, z, n);
    let ea = entries_v1001(es, cache);
    let eb = entries_v2168(es, cache, shape);
    assert(a + ea + t =~= a + (ea + t));
    assert(b + eb + t =~= b + (eb + t));
    lemma_sub_chunk_head(cache, dim, x, y, z, n, ea + t);
    lemma_sub_chunk_head(cache, dim, x, y, z, n, eb + t);
    lemma_entries_round_trip(es, cache, shape, b, t);
    lemma_entries_round_trip(es, cache, shape, a, t);
    let c = if cache { 1u8 } else { 0u8 };
    assert((c != 0) == cache);
    let ra = spec_sub_chunk(crate::wrapper::start(a + (ea + t)), true, shape).unwrap();
    assert(crate::wrapper::finished(ra) =~= b + eb + t);
    let rb = spec_sub_chunk(crate::wrapper::start(b + (eb + t)), false, shape).unwrap();
    assert(crate::wrapper::finished(rb) =~= a + ea + t);
}

} // verus!
