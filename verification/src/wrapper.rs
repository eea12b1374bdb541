//! A packet body being rewritten: the bytes not yet read, the bytes written
//! so far, and whether the packet is to be dropped.
use vstd::prelude::*;
use crate::codec::{
    read_i64v, read_u64v, take_fixed, take_i64v, take_u64v, ser_u64v, write_u64v, take_str, ser_i64v, ser_str, two32, write_i64v, write_str,
    copy_range, field_end, field_len, lemma_field_prefix, lemma_parse_uvarint_bounds,
    lemma_parse_uvarint_prefix, parse_bool, parse_i32v, parse_u32v, parse_u8, read_u32v,
    ser_bool, ser_i32v, ser_u32v, ser_u8, write_bool, write_i32v, write_u32v, write_u8, write_zeros,
    zeros, zigzag_decode32, DecodeError, Field,
};

verus! {

/// What a `PacketWrapper` holds: the input it has not read yet, what it has
/// written, and whether the packet was cancelled.
pub struct WireState {
    pub rest: Seq<u8>,
    pub out: Seq<u8>,
    pub cancelled: bool,
}

/// The state at the start of a rewrite of `input`.
pub open spec fn start(input: Seq<u8>) -> WireState {
    WireState { rest: input, out: Seq::empty(), cancelled: false }
}

/// The body that results: what was written, then what was never read.
pub open spec fn finished(st: WireState) -> Seq<u8> {
    st.out + st.rest
}

/// The total length of fields `fs`, one after the other, at the start of `s`.
pub open spec fn fields_len(fs: Seq<Field>, s: Seq<u8>) -> Option<nat>
    decreases fs.len(),
{
    if fs.len() == 0 {
        Some(0)
    } else {
        match field_len(fs[0], s) {
            Some(n) => match fields_len(fs.drop_first(), s.skip(n as int)) {
                Some(m) => Some(n + m),
                None => None,
            },
            None => None,
        }
    }
}

/// `count` repetitions of the record `fs`, one after the other.
pub open spec fn repeat_len(fs: Seq<Field>, count: nat, s: Seq<u8>) -> Option<nat>
    decreases count,
{
    if count == 0 {
        Some(0)
    } else {
        match repeat_len(fs, (count - 1) as nat, s) {
            Some(k) => match fields_len(fs, s.skip(k as int)) {
                Some(n) => Some(k + n),
                None => None,
            },
            None => None,
        }
    }
}

/// A list: a 32-bit variable-length count, then that many records `fs`.
#[verifier::opaque]
pub open spec fn list_len(fs: Seq<Field>, s: Seq<u8>) -> Option<nat> {
    match parse_u32v(s) {
        Some((count, m)) => match repeat_len(fs, count as nat, s.skip(m as int)) {
            Some(k) => Some(m + k),
            None => None,
        },
        None => None,
    }
}

/// Copies `n` bytes of the input to the output.
pub open spec fn copied(st: WireState, n: nat) -> WireState {
    WireState { rest: st.rest.skip(n as int), out: st.out + st.rest.take(n as int), cancelled: st.cancelled }
}

/// Consumes `n` bytes of the input without writing them.
pub open spec fn dropped(st: WireState, n: nat) -> WireState {
    WireState { rest: st.rest.skip(n as int), out: st.out, cancelled: st.cancelled }
}

/// The output cut back to its first `n` bytes, when it has that many.
pub open spec fn cut_back(out: Seq<u8>, n: nat) -> Seq<u8> {
    if n <= out.len() { out.take(n as int) } else { out }
}

/// Appends `bytes` to the output.
pub open spec fn put(st: WireState, bytes: Seq<u8>) -> WireState {
    WireState { rest: st.rest, out: st.out + bytes, cancelled: st.cancelled }
}

/// Copies a field of kind `f` from the input to the output.
pub open spec fn pass(st: WireState, f: Field) -> Option<WireState> {
    match field_len(f, st.rest) {
        Some(n) => Some(copied(st, n)),
        None => None,
    }
}

/// Consumes a field of kind `f` without writing it.
pub open spec fn skip(st: WireState, f: Field) -> Option<WireState> {
    match field_len(f, st.rest) {
        Some(n) => Some(dropped(st, n)),
        None => None,
    }
}

/// Copies the fields `fs` from the input to the output.
pub open spec fn pass_fields(st: WireState, fs: Seq<Field>) -> Option<WireState> {
    match fields_len(fs, st.rest) {
        Some(n) => Some(copied(st, n)),
        None => None,
    }
}

/// Copies a list of records `fs` from the input to the output.
pub open spec fn pass_list(st: WireState, fs: Seq<Field>) -> Option<WireState> {
    match list_len(fs, st.rest) {
        Some(n) => Some(copied(st, n)),
        None => None,
    }
}

/// Fields are read from their own bytes alone: the total length lies
/// within the input, and any input that starts with the same bytes holds the
/// same fields.
pub proof fn lemma_fields_prefix(fs: Seq<Field>, s: Seq<u8>, t: Seq<u8>)
    requires
        fields_len(fs, s) is Some,
    ensures
        fields_len(fs, s) matches Some(n) && n <= s.len() && fields_len(fs, s.take(n as int) + t)
            == Some(n),
    decreases fs.len(),
{
    if fs.len() > 0 {
        let n = field_len(fs[0], s).unwrap();
        let s1 = s.skip(n as int);
        let m = fields_len(fs.drop_first(), s1).unwrap();
        lemma_fields_prefix(fs.drop_first(), s1, t);
        let u = s.take((n + m) as int) + t;
        lemma_field_prefix(fs[0], s, s.take((n + m) as int).skip(n as int) + t);
        assert(s.take(n as int) + (s.take((n + m) as int).skip(n as int) + t) =~= u);
        assert(u.skip(n as int) =~= s1.take(m as int) + t);
    }
}

/// Repeated records are read from their own bytes alone.
pub proof fn lemma_repeat_prefix(fs: Seq<Field>, count: nat, s: Seq<u8>, t: Seq<u8>)
    requires
        repeat_len(fs, count, s) is Some,
    ensures
        repeat_len(fs, count, s) matches Some(n) && n <= s.len() && repeat_len(
            fs,
            count,
            s.take(n as int) + t,
        ) == Some(n),
    decreases count,
{
    if count > 0 {
        let k = repeat_len(fs, (count - 1) as nat, s).unwrap();
        let n = fields_len(fs, s.skip(k as int)).unwrap();
        lemma_fields_prefix(fs, s.skip(k as int), t);
        let u = s.take((k + n) as int) + t;
        lemma_repeat_prefix(fs, (count - 1) as nat, s, s.take((k + n) as int).skip(k as int) + t);
        assert(s.take(k as int) + (s.take((k + n) as int).skip(k as int) + t) =~= u);
        assert(u.skip(k as int) =~= s.skip(k as int).take(n as int) + t);
    }
}

/// Once a repetition fails to parse, every longer one fails too.
pub proof fn lemma_repeat_none_grows(fs: Seq<Field>, i: nat, count: nat, s: Seq<u8>)
    requires
        i <= count,
        repeat_len(fs, i, s) is None,
    ensures
        repeat_len(fs, count, s) is None,
    decreases count - i,
{
    if i < count {
        lemma_repeat_none_grows(fs, i + 1, count, s);
    }
}

/// A list of records is read from its own bytes alone.
pub proof fn lemma_list_prefix(fs: Seq<Field>, s: Seq<u8>, t: Seq<u8>)
    requires
        list_len(fs, s) is Some,
    ensures
        list_len(fs, s) matches Some(n) && n <= s.len() && list_len(fs, s.take(n as int) + t)
            == Some(n),
{
    reveal(list_len);
    let (count, m) = parse_u32v(s).unwrap();
    let k = repeat_len(fs, count as nat, s.skip(m as int)).unwrap();
    lemma_parse_uvarint_bounds(s, 5);
    lemma_repeat_prefix(fs, count as nat, s.skip(m as int), t);
    let u = s.take((m + k) as int) + t;
    lemma_field_prefix(Field::UVarInt, s, s.take((m + k) as int).skip(m as int) + t);
    assert(s.take(m as int) + (s.take((m + k) as int).skip(m as int) + t) =~= u);
    lemma_parse_uvarint_prefix(s, 5, s.take((m + k) as int).skip(m as int) + t);
    assert(u.skip(m as int) =~= s.skip(m as int).take(k as int) + t);
}

/// Copying a field again from bytes that start with a copy of it copies the
/// same bytes.
pub proof fn lemma_pass_replay(f: Field, x: Seq<u8>, t: Seq<u8>, o: Seq<u8>, c: bool)
    requires
        field_len(f, x) is Some,
    ensures
        ({
            let n = field_len(f, x).unwrap();
            &&& n <= x.len()
            &&& pass(WireState { rest: x.take(n as int) + t, out: o, cancelled: c }, f) == Some(
                WireState { rest: t, out: o + x.take(n as int), cancelled: c },
            )
            &&& skip(WireState { rest: x.take(n as int) + t, out: o, cancelled: c }, f) == Some(
                WireState { rest: t, out: o, cancelled: c },
            )
        }),
{
    let n = field_len(f, x).unwrap();
    lemma_field_prefix(f, x, t);
    let y = x.take(n as int) + t;
    assert(y.skip(n as int) =~= t);
    assert(y.take(n as int) =~= x.take(n as int));
}

/// Copying fields again from bytes that start with a copy of them copies
/// the same bytes.
pub proof fn lemma_pass_fields_replay(fs: Seq<Field>, x: Seq<u8>, t: Seq<u8>, o: Seq<u8>, c: bool)
    requires
        fields_len(fs, x) is Some,
    ensures
        ({
            let n = fields_len(fs, x).unwrap();
            &&& n <= x.len()
            &&& pass_fields(WireState { rest: x.take(n as int) + t, out: o, cancelled: c }, fs) == Some(
                WireState { rest: t, out: o + x.take(n as int), cancelled: c },
            )
        }),
{
    let n = fields_len(fs, x).unwrap();
    lemma_fields_prefix(fs, x, t);
    let y = x.take(n as int) + t;
    assert(y.skip(n as int) =~= t);
    assert(y.take(n as int) =~= x.take(n as int));
}

/// Copying a list again from bytes that start with a copy of it copies the
/// same bytes.
pub proof fn lemma_pass_list_replay(fs: Seq<Field>, x: Seq<u8>, t: Seq<u8>, o: Seq<u8>, c: bool)
    requires
        list_len(fs, x) is Some,
    ensures
        ({
            let n = list_len(fs, x).unwrap();
            &&& n <= x.len()
            &&& pass_list(WireState { rest: x.take(n as int) + t, out: o, cancelled: c }, fs) == Some(
                WireState { rest: t, out: o + x.take(n as int), cancelled: c },
            )
        }),
{
    let n = list_len(fs, x).unwrap();
    lemma_list_prefix(fs, x, t);
    let y = x.take(n as int) + t;
    assert(y.skip(n as int) =~= t);
    assert(y.take(n as int) =~= x.take(n as int));
}

/// Two inputs that agree on the bytes of a field at offset `k` hold the
/// same there.
pub proof fn lemma_field_agree(f: Field, x: Seq<u8>, y: Seq<u8>, k: int)
    requires
        0 <= k <= x.len(),
        field_len(f, x.skip(k)) is Some,
        k + field_len(f, x.skip(k)).unwrap() <= y.len(),
        x.take(k + field_len(f, x.skip(k)).unwrap()) == y.take(k + field_len(f, x.skip(k)).unwrap()),
    ensures
        field_len(f, y.skip(k)) == field_len(f, x.skip(k)),
        k + field_len(f, x.skip(k)).unwrap() <= x.len(),
{
    let n = field_len(f, x.skip(k)).unwrap() as int;
    lemma_field_prefix(f, x.skip(k), y.skip(k + n));
    assert(x.skip(k).take(n) =~= x.take(k + n).skip(k));
    assert(y.skip(k) =~= y.take(k + n).skip(k) + y.skip(k + n));
}

/// Two inputs that agree on the bytes of a list at offset `k` hold the
/// same there.
pub proof fn lemma_list_agree(f: Seq<Field>, x: Seq<u8>, y: Seq<u8>, k: int)
    requires
        0 <= k <= x.len(),
        list_len(f, x.skip(k)) is Some,
        k + list_len(f, x.skip(k)).unwrap() <= y.len(),
        x.take(k + list_len(f, x.skip(k)).unwrap()) == y.take(k + list_len(f, x.skip(k)).unwrap()),
    ensures
        list_len(f, y.skip(k)) == list_len(f, x.skip(k)),
        k + list_len(f, x.skip(k)).unwrap() <= x.len(),
{
    let n = list_len(f, x.skip(k)).unwrap() as int;
    lemma_list_prefix(f, x.skip(k), y.skip(k + n));
    assert(x.skip(k).take(n) =~= x.take(k + n).skip(k));
    assert(y.skip(k) =~= y.take(k + n).skip(k) + y.skip(k + n));
}

/// The state of a rewrite that has copied the first `k` bytes of `z`.
pub open spec fn copied_upto(z: Seq<u8>, k: int) -> WireState {
    WireState { rest: z.skip(k), out: z.take(k), cancelled: false }
}

/// Copying `n` more bytes after the first `k`.
pub proof fn lemma_copied_upto(z: Seq<u8>, k: int, n: nat)
    requires
        0 <= k,
        k + n <= z.len(),
    ensures
        copied(copied_upto(z, k), n) == copied_upto(z, k + n),
        dropped(copied_upto(z, k), n) == (WireState { rest: z.skip(k + n), ..copied_upto(z, k) }),
        start(z) == copied_upto(z, 0),
{
    assert(z.skip(k).skip(n as int) =~= z.skip(k + n));
    assert(z.take(k) + z.skip(k).take(n as int) =~= z.take(k + n));
    assert(z.skip(0) =~= z);
    assert(z.take(0) =~= Seq::<u8>::empty());
}

/// The rewrite of one packet body.
pub struct PacketWrapper {
    input: Vec<u8>,
    pos: usize,
    out: Vec<u8>,
    cancelled: bool,
}

impl View for PacketWrapper {
    type V = WireState;

    closed spec fn view(&self) -> WireState {
        WireState { rest: self.input@.skip(self.pos as int), out: self.out@, cancelled: self.cancelled }
    }
}

impl PacketWrapper {
    /// The read position lies within the input.
    pub closed spec fn wf(&self) -> bool {
        self.pos <= self.input@.len()
    }

    /// Starts a rewrite of `input`.
    pub fn new(input: &[u8]) -> (w: PacketWrapper)
        ensures
            w@ == start(input@),
            w.wf(),
    {
        let mut v: Vec<u8> = Vec::new();
        copy_range(&mut v, input, 0, input.len());
        let w = PacketWrapper { input: v, pos: 0, out: Vec::new(), cancelled: false };
        assert(w@.rest =~= input@);
        assert(w@.out =~= Seq::<u8>::empty());
        w
    }

    /// Marks the packet as dropped.
    pub fn cancel(&mut self)
        requires
            old(self).wf(),
        ensures
            final(self).wf(),
            final(self)@ == (WireState { cancelled: true, ..old(self)@ }),
    {
        self.cancelled = true;
    }

    /// Whether the packet was dropped.
    pub fn is_cancelled(&self) -> (b: bool)
        requires
            self.wf(),
        ensures
            b == self@.cancelled,
    {
        self.cancelled
    }

    /// The rewritten body: what was written, then the unread input.
    pub fn finish(self) -> (r: Vec<u8>)
        requires
            self.wf(),
        ensures
            r@ == finished(self@),
    {
        let mut out = self.out;
        copy_range(&mut out, &self.input, self.pos, self.input.len());
        assert(out@ =~= finished(self@));
        out
    }

    /// Copies a field of kind `f` to the output.
    pub fn passthrough(&mut self, f: Field) -> (r: Result<(), DecodeError>)
        requires
            old(self).wf(),
        ensures
            final(self).wf(),
            match pass(old(self)@, f) {
                Some(st) => r is Ok && final(self)@ == st,
                None => r is Err && final(self)@ == old(self)@,
            },
    {
        let end = field_end(f, &self.input, self.pos)?;
        let ghost n = field_len(f, old(self)@.rest).unwrap();
        let len = self.input.len();
        proof {
            lemma_field_prefix(f, old(self)@.rest, Seq::empty());
        }
        copy_range(&mut self.out, &self.input, self.pos, end);
        proof {
            assert(old(self)@.rest.take(n as int) =~= self.input@.subrange(self.pos as int, end as int));
        }
        self.pos = end;
        assert(self@.rest =~= old(self)@.rest.skip(n as int));
        assert(self@ == copied(old(self)@, n));
        Ok(())
    }

    /// Consumes a field of kind `f` without writing it.
    pub fn skip(&mut self, f: Field) -> (r: Result<(), DecodeError>)
        requires
            old(self).wf(),
        ensures
            final(self).wf(),
            match skip(old(self)@, f) {
                Some(st) => r is Ok && final(self)@ == st,
                None => r is Err && final(self)@ == old(self)@,
            },
    {
        let end = field_end(f, &self.input, self.pos)?;
        let ghost n = field_len(f, old(self)@.rest).unwrap();
        let len = self.input.len();
        proof {
            lemma_field_prefix(f, old(self)@.rest, Seq::empty());
        }
        self.pos = end;
        assert(self@.rest =~= old(self)@.rest.skip(n as int));
        assert(self@ == dropped(old(self)@, n));
        Ok(())
    }

    /// Copies the fields `fs[i..]`, one after the other, to the output.
    pub fn passthrough_fields(&mut self, fs: &[Field], i: usize) -> (r: Result<(), DecodeError>)
        requires
            old(self).wf(),
            i <= fs@.len(),
        ensures
            final(self).wf(),
            match pass_fields(old(self)@, fs@.skip(i as int)) {
                Some(st) => r is Ok && final(self)@ == st,
                None => r is Err,
            },
        decreases fs@.len() - i,
    {
        let ghost st0 = self@;
        if i == fs.len() {
            assert(st0.rest.take(0) =~= Seq::<u8>::empty());
            assert(st0.rest.skip(0) =~= st0.rest);
            assert(copied(st0, 0) == st0);
            return Ok(());
        }
        assert(fs@.skip(i as int)[0] == fs@[i as int]);
        assert(fs@.skip(i as int).drop_first() =~= fs@.skip(i + 1));
        self.passthrough(fs[i])?;
        let ghost st1 = self@;
        let r = self.passthrough_fields(fs, i + 1);
        proof {
            let n = field_len(fs@[i as int], st0.rest).unwrap();
            lemma_field_prefix(fs@[i as int], st0.rest, Seq::empty());
            if let Some(m) = fields_len(fs@.skip(i + 1), st1.rest) {
                lemma_fields_prefix(fs@.skip(i + 1), st1.rest, Seq::empty());
                assert(st0.rest.skip(n as int).skip(m as int) =~= st0.rest.skip((n + m) as int));
                assert(st0.out + st0.rest.take(n as int) + st0.rest.skip(n as int).take(m as int)
                    =~= st0.out + st0.rest.take((n + m) as int));
            }
        }
        r
    }

    /// Copies a list of records, each made of the fields `fs`, to the output.
    pub fn passthrough_list(&mut self, fs: &[Field]) -> (r: Result<(), DecodeError>)
        requires
            old(self).wf(),
        ensures
            final(self).wf(),
            match pass_list(old(self)@, fs@) {
                Some(st) => r is Ok && final(self)@ == st,
                None => r is Err,
            },
    {
        reveal(list_len);
        let ghost st0 = self@;
        let count = self.pass_u32v()?;
        let ghost st1 = self@;
        let ghost m = field_len(Field::UVarInt, st0.rest).unwrap();
        let mut i: u32 = 0;
        assert(st1.rest.skip(0) =~= st1.rest);
        assert(st1.out + st1.rest.take(0) =~= st1.out);
        while i < count
            invariant
                self.wf(),
                st0 == old(self)@,
                parse_u32v(st0.rest) == Some((count, m)),
                st1 == copied(st0, m),
                i <= count,
                repeat_len(fs@, i as nat, st1.rest) matches Some(k) && self@ == copied(st1, k),
            decreases count - i,
        {
            let ghost before = self@;
            let ghost k = repeat_len(fs@, i as nat, st1.rest).unwrap();
            let r = self.passthrough_fields(fs, 0);
            assert(fs@.skip(0) =~= fs@);
            match r {
                Ok(()) => {},
                Err(e) => {
                    proof {
                        lemma_repeat_prefix(fs@, i as nat, st1.rest, Seq::empty());
                        assert(before.rest =~= st1.rest.skip(k as int));
                        assert(fields_len(fs@, before.rest) is None);
                        assert(repeat_len(fs@, (i + 1) as nat, st1.rest) is None);
                        lemma_repeat_none_grows(fs@, (i + 1) as nat, count as nat, st1.rest);
                        assert(repeat_len(fs@, count as nat, st1.rest) is None);
                        assert(st1.rest == st0.rest.skip(m as int));
                        reveal(list_len);
                        assert(list_len(fs@, st0.rest) is None);
                    }
                    return Err(e);
                },
            }
            proof {
                let n = fields_len(fs@, before.rest).unwrap();
                lemma_repeat_prefix(fs@, i as nat, st1.rest, Seq::empty());
                lemma_fields_prefix(fs@, before.rest, Seq::empty());
                assert(before.rest =~= st1.rest.skip(k as int));
                assert(st1.rest.skip(k as int).skip(n as int) =~= st1.rest.skip((k + n) as int));
                assert(st1.out + st1.rest.take(k as int) + st1.rest.skip(k as int).take(n as int)
                    =~= st1.out + st1.rest.take((k + n) as int));
            }
            i = i + 1;
        }
        proof {
            let k = repeat_len(fs@, count as nat, st1.rest).unwrap();
            lemma_repeat_prefix(fs@, count as nat, st1.rest, Seq::empty());
            lemma_parse_uvarint_bounds(st0.rest, 5);
            assert(st1.rest =~= st0.rest.skip(m as int));
            assert(st0.rest.skip(m as int).skip(k as int) =~= st0.rest.skip((m + k) as int));
            assert(st0.out + st0.rest.take(m as int) + st0.rest.skip(m as int).take(k as int)
                =~= st0.out + st0.rest.take((m + k) as int));
        }
        Ok(())
    }

    /// Copies a byte to the output and returns it.
    pub fn pass_u8(&mut self) -> (r: Result<u8, DecodeError>)
        requires
            old(self).wf(),
        ensures
            final(self).wf(),
            match parse_u8(old(self)@.rest) {
                Some((v, n)) => r == Ok::<u8, DecodeError>(v) && final(self)@ == copied(old(self)@, n),
                None => r is Err && final(self)@ == old(self)@,
            },
    {
        if self.pos >= self.input.len() {
            return Err(DecodeError);
        }
        let b = self.input[self.pos];
        self.out.push(b);
        self.pos = self.pos + 1;
        assert(self@.out =~= old(self)@.out + old(self)@.rest.take(1));
        assert(self@.rest =~= old(self)@.rest.skip(1));
        Ok(b)
    }

    /// Copies a boolean to the output and returns it.
    pub fn pass_bool(&mut self) -> (r: Result<bool, DecodeError>)
        requires
            old(self).wf(),
        ensures
            final(self).wf(),
            match parse_bool(old(self)@.rest) {
                Some((v, n)) => r == Ok::<bool, DecodeError>(v) && final(self)@ == copied(old(self)@, n),
                None => r is Err && final(self)@ == old(self)@,
            },
    {
        let b = self.pass_u8()?;
        Ok(b != 0)
    }

    /// Copies an unsigned 32-bit variable-length integer and returns it.
    pub fn pass_u32v(&mut self) -> (r: Result<u32, DecodeError>)
        requires
            old(self).wf(),
        ensures
            final(self).wf(),
            match parse_u32v(old(self)@.rest) {
                Some((v, n)) => r == Ok::<u32, DecodeError>(v) && final(self)@ == copied(old(self)@, n),
                None => r is Err && final(self)@ == old(self)@,
            },
    {
        let (v, end) = read_u32v(&self.input, self.pos)?;
        let ghost n = parse_u32v(old(self)@.rest).unwrap().1;
        let len = self.input.len();
        proof {
            lemma_parse_uvarint_bounds(old(self)@.rest, 5);
        }
        copy_range(&mut self.out, &self.input, self.pos, end);
        proof {
            assert(old(self)@.rest.take(n as int) =~= self.input@.subrange(self.pos as int, end as int));
        }
        self.pos = end;
        assert(self@.rest =~= old(self)@.rest.skip(n as int));
        assert(self@ == copied(old(self)@, n));
        Ok(v)
    }

    /// Copies a zig-zag 32-bit variable-length integer and returns it.
    pub fn pass_i32v(&mut self) -> (r: Result<i32, DecodeError>)
        requires
            old(self).wf(),
        ensures
            final(self).wf(),
            match parse_i32v(old(self)@.rest) {
                Some((v, n)) => r == Ok::<i32, DecodeError>(v) && final(self)@ == copied(old(self)@, n),
                None => r is Err && final(self)@ == old(self)@,
            },
    {
        let u = self.pass_u32v()?;
        Ok(zigzag_decode32(u))
    }

    /// Reads a byte.
    pub fn read_u8(&mut self) -> (r: Result<u8, DecodeError>)
        requires
            old(self).wf(),
        ensures
            final(self).wf(),
            match parse_u8(old(self)@.rest) {
                Some((v, n)) => r == Ok::<u8, DecodeError>(v) && final(self)@ == dropped(old(self)@, n),
                None => r is Err && final(self)@ == old(self)@,
            },
    {
        if self.pos >= self.input.len() {
            return Err(DecodeError);
        }
        let b = self.input[self.pos];
        self.pos = self.pos + 1;
        assert(self@.rest =~= old(self)@.rest.skip(1));
        Ok(b)
    }

    /// Reads a boolean.
    pub fn read_bool(&mut self) -> (r: Result<bool, DecodeError>)
        requires
            old(self).wf(),
        ensures
            final(self).wf(),
            match parse_bool(old(self)@.rest) {
                Some((v, n)) => r == Ok::<bool, DecodeError>(v) && final(self)@ == dropped(old(self)@, n),
                None => r is Err && final(self)@ == old(self)@,
            },
    {
        let b = self.read_u8()?;
        Ok(b != 0)
    }

    /// Reads an unsigned 32-bit variable-length integer.
    pub fn read_u32v(&mut self) -> (r: Result<u32, DecodeError>)
        requires
            old(self).wf(),
        ensures
            final(self).wf(),
            match parse_u32v(old(self)@.rest) {
                Some((v, n)) => r == Ok::<u32, DecodeError>(v) && final(self)@ == dropped(old(self)@, n),
                None => r is Err && final(self)@ == old(self)@,
            },
    {
        let (v, end) = read_u32v(&self.input, self.pos)?;
        let ghost n = parse_u32v(old(self)@.rest).unwrap().1;
        let len = self.input.len();
        proof {
            lemma_parse_uvarint_bounds(old(self)@.rest, 5);
        }
        self.pos = end;
        assert(self@.rest =~= old(self)@.rest.skip(n as int));
        assert(self@ == dropped(old(self)@, n));
        Ok(v)
    }

    /// Reads a zig-zag 32-bit variable-length integer.
    pub fn read_i32v(&mut self) -> (r: Result<i32, DecodeError>)
        requires
            old(self).wf(),
        ensures
            final(self).wf(),
            match parse_i32v(old(self)@.rest) {
                Some((v, n)) => r == Ok::<i32, DecodeError>(v) && final(self)@ == dropped(old(self)@, n),
                None => r is Err && final(self)@ == old(self)@,
            },
    {
        let u = self.read_u32v()?;
        Ok(zigzag_decode32(u))
    }

    /// Writes a byte.
    pub fn write_u8(&mut self, b: u8)
        requires
            old(self).wf(),
        ensures
            final(self).wf(),
            final(self)@ == put(old(self)@, ser_u8(b)),
    {
        write_u8(&mut self.out, b);
    }

    /// Writes a boolean.
    pub fn write_bool(&mut self, b: bool)
        requires
            old(self).wf(),
        ensures
            final(self).wf(),
            final(self)@ == put(old(self)@, ser_bool(b)),
    {
        write_bool(&mut self.out, b);
    }

    /// Writes an unsigned 32-bit variable-length integer.
    pub fn write_u32v(&mut self, v: u32)
        requires
            old(self).wf(),
        ensures
            final(self).wf(),
            final(self)@ == put(old(self)@, ser_u32v(v)),
    {
        write_u32v(&mut self.out, v);
    }

    /// Writes a zig-zag 32-bit variable-length integer.
    pub fn write_i32v(&mut self, v: i32)
        requires
            old(self).wf(),
        ensures
            final(self).wf(),
            final(self)@ == put(old(self)@, ser_i32v(v)),
    {
        write_i32v(&mut self.out, v);
    }

    /// Writes `n` zero bytes: the zero value of a fixed-width field.
    pub fn write_zeros(&mut self, n: usize)
        requires
            old(self).wf(),
        ensures
            final(self).wf(),
            final(self)@ == put(old(self)@, zeros(n as nat)),
    {
        write_zeros(&mut self.out, n);
    }

    /// Whether input is left unread.
    pub fn has_remaining(&self) -> (b: bool)
        requires
            self.wf(),
        ensures
            b == (self@.rest.len() > 0),
    {
        self.pos < self.input.len()
    }

    /// The number of input bytes not yet read.
    pub fn remaining_len(&self) -> (n: usize)
        requires
            self.wf(),
        ensures
            n == self@.rest.len(),
    {
        self.input.len() - self.pos
    }

    /// Reads an unsigned 64-bit variable-length integer.
    pub fn read_u64v(&mut self) -> (r: Result<u64, DecodeError>)
        requires
            old(self).wf(),
        ensures
            final(self).wf(),
            match take_u64v(old(self)@.rest) {
                Some((v, rest)) => r == Ok::<u64, DecodeError>(v) && final(self)@ == (WireState { rest, ..old(self)@ }),
                None => r is Err,
            },
    {
        let (v, end) = read_u64v(&self.input, self.pos)?;
        proof {
            lemma_parse_uvarint_bounds(old(self)@.rest, 10);
        }
        let len = self.input.len();
        self.pos = end;
        assert(self@.rest =~= take_u64v(old(self)@.rest).unwrap().1);
        Ok(v)
    }

    /// Writes an unsigned 64-bit variable-length integer.
    pub fn write_u64v(&mut self, v: u64)
        requires
            old(self).wf(),
        ensures
            final(self).wf(),
            final(self)@ == put(old(self)@, ser_u64v(v)),
    {
        write_u64v(&mut self.out, v);
    }

    /// Reads a zig-zag 64-bit variable-length integer.
    pub fn read_i64v(&mut self) -> (r: Result<i64, DecodeError>)
        requires
            old(self).wf(),
        ensures
            final(self).wf(),
            match take_i64v(old(self)@.rest) {
                Some((v, rest)) => r == Ok::<i64, DecodeError>(v) && final(self)@ == (WireState { rest, ..old(self)@ }),
                None => r is Err,
            },
    {
        let (v, end) = read_i64v(&self.input, self.pos)?;
        proof {
            lemma_parse_uvarint_bounds(old(self)@.rest, 10);
        }
        let len = self.input.len();
        self.pos = end;
        assert(self@.rest =~= take_i64v(old(self)@.rest).unwrap().1);
        Ok(v)
    }

    /// Reads a length-prefixed byte string.
    pub fn read_str(&mut self) -> (r: Result<Vec<u8>, DecodeError>)
        requires
            old(self).wf(),
        ensures
            final(self).wf(),
            match take_str(old(self)@.rest) {
                Some((v, rest)) => r matches Ok(b) && b@ == v && final(self)@ == (WireState { rest, ..old(self)@ }),
                None => r is Err,
            },
    {
        let (len, start) = crate::codec::read_u32v(&self.input, self.pos)?;
        proof {
            lemma_parse_uvarint_bounds(old(self)@.rest, 5);
        }
        if len as usize > self.input.len() - start {
            return Err(DecodeError);
        }
        let end = start + len as usize;
        let mut b: Vec<u8> = Vec::new();
        copy_range(&mut b, &self.input, start, end);
        self.pos = end;
        assert(b@ =~= take_str(old(self)@.rest).unwrap().0);
        assert(self@.rest =~= take_str(old(self)@.rest).unwrap().1);
        Ok(b)
    }

    /// Reads `k` raw bytes.
    pub fn read_fixed(&mut self, k: usize) -> (r: Result<Vec<u8>, DecodeError>)
        requires
            old(self).wf(),
        ensures
            final(self).wf(),
            match take_fixed(k as nat, old(self)@.rest) {
                Some((v, rest)) => r matches Ok(b) && b@ == v && final(self)@ == (WireState { rest, ..old(self)@ }),
                None => r is Err,
            },
    {
        if k > self.input.len() - self.pos {
            return Err(DecodeError);
        }
        let end = self.pos + k;
        let mut b: Vec<u8> = Vec::new();
        copy_range(&mut b, &self.input, self.pos, end);
        self.pos = end;
        assert(b@ =~= take_fixed(k as nat, old(self)@.rest).unwrap().0);
        assert(self@.rest =~= take_fixed(k as nat, old(self)@.rest).unwrap().1);
        Ok(b)
    }

    /// Writes a zig-zag 64-bit variable-length integer.
    pub fn write_i64v(&mut self, v: i64)
        requires
            old(self).wf(),
        ensures
            final(self).wf(),
            final(self)@ == put(old(self)@, ser_i64v(v)),
    {
        write_i64v(&mut self.out, v);
    }

    /// Writes a length-prefixed byte string.
    pub fn write_str(&mut self, bytes: &[u8])
        requires
            old(self).wf(),
            bytes@.len() < two32(),
        ensures
            final(self).wf(),
            final(self)@ == put(old(self)@, ser_str(bytes@)),
    {
        write_str(&mut self.out, bytes);
    }

    /// Writes raw bytes.
    pub fn write_bytes(&mut self, bytes: &[u8])
        requires
            old(self).wf(),
        ensures
            final(self).wf(),
            final(self)@ == put(old(self)@, bytes@),
    {
        copy_range(&mut self.out, bytes, 0, bytes.len());
        assert(bytes@.subrange(0, bytes@.len() as int) =~= bytes@);
    }

    /// How many bytes have been written.
    pub fn written_len(&self) -> (n: usize)
        ensures
            n == self@.out.len(),
    {
        self.out.len()
    }

    /// Takes back what was written after the first `n` bytes.
    pub fn truncate_written(&mut self, n: usize)
        requires
            old(self).wf(),
        ensures
            final(self).wf(),
            final(self)@ == (WireState { out: cut_back(old(self)@.out, n as nat), ..old(self)@ }),
    {
        let len = self.out.len();
        self.out.truncate(n);
        if n <= len {
            assert(self@.out =~= old(self)@.out.take(n as int));
        }
    }

    /// Consumes the rest of the input without writing it.
    pub fn skip_rest(&mut self)
        requires
            old(self).wf(),
        ensures
            final(self).wf(),
            final(self)@ == (WireState { rest: Seq::empty(), ..old(self)@ }),
    {
        self.pos = self.input.len();
        assert(self@.rest =~= Seq::<u8>::empty());
    }
}

} // verus!
