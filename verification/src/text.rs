//! Small text builders used by the library's messages: decimal numbers,
//! lower-case hex bytes, and appending characters to a `String`.
use vstd::prelude::*;

verus! {

/// The decimal digits of `n`, most significant first, with no leading zeros
/// (zero is the single digit `0`).
pub open spec fn decimal(n: nat) -> Seq<char>
    decreases n,
{
    if n < 10 {
        seq![digit_char(n)]
    } else {
        decimal(n / 10).push(digit_char(n % 10))
    }
}

/// The character of a decimal digit.
pub open spec fn digit_char(d: nat) -> char {
    if d == 0 { '0' }
    else if d == 1 { '1' }
    else if d == 2 { '2' }
    else if d == 3 { '3' }
    else if d == 4 { '4' }
    else if d == 5 { '5' }
    else if d == 6 { '6' }
    else if d == 7 { '7' }
    else if d == 8 { '8' }
    else { '9' }
}

/// The lower-case hex character of a nibble.
pub open spec fn hex_char(d: nat) -> char {
    if d < 10 { digit_char(d) }
    else if d == 10 { 'a' }
    else if d == 11 { 'b' }
    else if d == 12 { 'c' }
    else if d == 13 { 'd' }
    else if d == 14 { 'e' }
    else { 'f' }
}

/// Two lower-case hex digits of a byte, high nibble first.
pub open spec fn hex_byte(b: u8) -> Seq<char> {
    seq![hex_char((b / 16) as nat), hex_char((b % 16) as nat)]
}

/// Appends one character to a `String`: `String::push`.
#[verifier::external_body]
pub(crate) fn push_char(s: &mut String, c: char)
    ensures
        final(s)@ == old(s)@.push(c),
{
    s.push(c)
}

fn digit(d: u32) -> (c: char)
    requires
        d < 16,
    ensures
        c == hex_char(d as nat),
{
    if d == 0 { '0' }
    else if d == 1 { '1' }
    else if d == 2 { '2' }
    else if d == 3 { '3' }
    else if d == 4 { '4' }
    else if d == 5 { '5' }
    else if d == 6 { '6' }
    else if d == 7 { '7' }
    else if d == 8 { '8' }
    else if d == 9 { '9' }
    else if d == 10 { 'a' }
    else if d == 11 { 'b' }
    else if d == 12 { 'c' }
    else if d == 13 { 'd' }
    else if d == 14 { 'e' }
    else { 'f' }
}

/// Appends the decimal digits of `n` to `s`.
pub fn push_decimal(s: &mut String, n: u32)
    ensures
        final(s)@ == old(s)@ + decimal(n as nat),
    decreases n,
{
    if n < 10 {
        push_char(s, digit(n));
    } else {
        push_decimal(s, n / 10);
        push_char(s, digit(n % 10));
        assert(old(s)@ + decimal(n as nat) =~= old(s)@ + decimal((n / 10) as nat) + seq![
            hex_char((n % 10) as nat),
        ]);
    }
}

/// Appends the decimal digits of a 64-bit `n` to `s`.
pub fn push_decimal_u64(s: &mut String, n: u64)
    ensures
        final(s)@ == old(s)@ + decimal(n as nat),
    decreases n,
{
    if n < 10 {
        push_char(s, digit(n as u32));
    } else {
        push_decimal_u64(s, n / 10);
        push_char(s, digit((n % 10) as u32));
        assert(old(s)@ + decimal(n as nat) =~= old(s)@ + decimal((n / 10) as nat) + seq![
            hex_char((n % 10) as nat),
        ]);
    }
}

/// Bytes as a bracketed list of two-digit hex numbers separated by ", ".
pub open spec fn hex_list(b: Seq<u8>) -> Seq<char>
    decreases b.len(),
{
    "["@ + hex_items(b) + "]"@
}

/// The items of `hex_list`.
pub open spec fn hex_items(b: Seq<u8>) -> Seq<char>
    decreases b.len(),
{
    if b.len() == 0 {
        Seq::empty()
    } else if b.len() == 1 {
        hex_byte(b[0])
    } else {
        hex_items(b.drop_last()) + ", "@ + hex_byte(b.last())
    }
}

/// Appends `hex_list(b)` to `s`.
pub fn push_hex_list(s: &mut String, b: &[u8])
    ensures
        final(s)@ == old(s)@ + hex_list(b@),
{
    proof {
        reveal_strlit("[");
        reveal_strlit("]");
        reveal_strlit(", ");
    }
    let ghost s0 = s@;
    push_char(s, '[');
    let mut i: usize = 0;
    assert(b@.take(0) =~= Seq::<u8>::empty());
    while i < b.len()
        invariant
            i <= b@.len(),
            s@ == s0 + seq!['['] + hex_items(b@.take(i as int)),
        decreases b@.len() - i,
    {
        let ghost before = s@;
        if i > 0 {
            push_char(s, ',');
            push_char(s, ' ');
        }
        push_hex_byte(s, b[i]);
        proof {
            let t = b@.take(i + 1);
            assert(t.drop_last() =~= b@.take(i as int));
            assert(t.last() == b@[i as int]);
            if i > 0 {
                reveal_strlit(", ");
                assert(", "@ =~= seq![',', ' ']);
                assert(hex_items(t) == hex_items(b@.take(i as int)) + ", "@ + hex_byte(b@[i as int]));
                assert(s@ =~= s0 + seq!['['] + hex_items(t));
            } else {
                assert(t.len() == 1);
                assert(s@ =~= s0 + seq!['['] + hex_items(t));
            }
        }
        i = i + 1;
    }
    push_char(s, ']');
    assert(b@.take(b@.len() as int) =~= b@);
    assert("["@ =~= seq!['[']);
    assert("]"@ =~= seq![']']);
    assert(s@ =~= s0 + hex_list(b@));
}

/// Appends the two hex digits of `b` to `s`.
pub fn push_hex_byte(s: &mut String, b: u8)
    ensures
        final(s)@ == old(s)@ + hex_byte(b),
{
    push_char(s, digit((b / 16) as u32));
    push_char(s, digit((b % 16) as u32));
    assert(final(s)@ =~= old(s)@ + hex_byte(b));
}

} // verus!
