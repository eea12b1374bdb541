//! The settings a server operator gives as text: whether score packets are
//! translated, whether clients may keep the blob cache, and how often a
//! sound played toward protocol 2168 repeats.
use vstd::prelude::*;
use crate::sound_events::{chars_of, parse_id};
use crate::text::{decimal, push_char, push_decimal};

verus! {

/// The characters `str::trim` removes: those with the Unicode White_Space
/// property.
pub open spec fn is_ws(c: char) -> bool {
    ('\u{9}' <= c && c <= '\u{d}') || c == ' ' || c == '\u{85}' || c == '\u{a0}' || c == '\u{1680}'
        || ('\u{2000}' <= c && c <= '\u{200a}') || c == '\u{2028}' || c == '\u{2029}' || c == '\u{202f}'
        || c == '\u{205f}' || c == '\u{3000}'
}

fn char_is_ws(c: char) -> (b: bool)
    ensures
        b == is_ws(c),
{
    ('\u{9}' <= c && c <= '\u{d}') || c == ' ' || c == '\u{85}' || c == '\u{a0}' || c == '\u{1680}'
        || ('\u{2000}' <= c && c <= '\u{200a}') || c == '\u{2028}' || c == '\u{2029}' || c == '\u{202f}'
        || c == '\u{205f}' || c == '\u{3000}'
}

/// `s` without its leading white space.
pub open spec fn trim_start(s: Seq<char>) -> Seq<char>
    decreases s.len(),
{
    if s.len() > 0 && is_ws(s[0]) { trim_start(s.drop_first()) } else { s }
}

/// `s` without its trailing white space.
pub open spec fn trim_end(s: Seq<char>) -> Seq<char>
    decreases s.len(),
{
    if s.len() > 0 && is_ws(s.last()) { trim_end(s.drop_last()) } else { s }
}

/// A letter `A` to `Z` made lower case; every other character kept.
pub open spec fn ascii_lower(c: char) -> char {
    if 'A' <= c && c <= 'Z' { ((c as u32) + 32) as char } else { c }
}

/// A setting as it is compared: trimmed and lower-cased.
pub open spec fn normalized(s: Seq<char>) -> Seq<char> {
    trim_end(trim_start(s)).map_values(|c: char| ascii_lower(c))
}

proof fn lemma_trim_start(s: Seq<char>, k: int)
    requires
        0 <= k <= s.len(),
        forall|j: int| 0 <= j < k ==> is_ws(#[trigger] s[j]),
        k == s.len() || !is_ws(s[k]),
    ensures
        trim_start(s) == s.skip(k),
    decreases k,
{
    if k > 0 {
        lemma_trim_start(s.drop_first(), k - 1);
        assert(s.drop_first().skip(k - 1) =~= s.skip(k));
    } else {
        assert(s.skip(0) =~= s);
    }
}

proof fn lemma_trim_end(s: Seq<char>, e: int)
    requires
        0 <= e <= s.len(),
        forall|j: int| e <= j < s.len() ==> is_ws(#[trigger] s[j]),
        e == 0 || !is_ws(s[e - 1]),
    ensures
        trim_end(s) == s.take(e),
    decreases s.len() - e,
{
    if s.len() > e {
        assert(s.drop_last().take(e) =~= s.take(e));
        lemma_trim_end(s.drop_last(), e);
    } else {
        assert(s.take(e) =~= s);
    }
}

fn lower(c: char) -> (r: char)
    ensures
        r == ascii_lower(c),
{
    if 'A' <= c && c <= 'Z' {
        ((c as u8) + 32) as char
    } else {
        c
    }
}

/// The characters of `raw`, trimmed and lower-cased.
pub fn normalize(raw: &str) -> (v: Vec<char>)
    ensures
        v@ == normalized(raw@),
{
    let cs = chars_of(raw);
    let mut a: usize = 0;
    while a < cs.len() && char_is_ws(cs[a])
        invariant
            a <= cs@.len(),
            forall|j: int| 0 <= j < a ==> is_ws(#[trigger] cs@[j]),
        decreases cs@.len() - a,
    {
        a = a + 1;
    }
    proof {
        lemma_trim_start(cs@, a as int);
    }
    let ghost mid = cs@.skip(a as int);
    let mut e: usize = cs.len();
    while e > a && char_is_ws(cs[e - 1])
        invariant
            a <= e <= cs@.len(),
            mid == cs@.skip(a as int),
            forall|j: int| e - a <= j < mid.len() ==> is_ws(#[trigger] mid[j]),
        decreases e - a,
    {
        e = e - 1;
    }
    proof {
        lemma_trim_end(mid, e - a);
    }
    let mut v: Vec<char> = Vec::new();
    let mut i = a;
    while i < e
        invariant
            a <= i <= e <= cs@.len(),
            mid == cs@.skip(a as int),
            v@ == mid.take(i - a).map_values(|c: char| ascii_lower(c)),
        decreases e - i,
    {
        v.push(lower(cs[i]));
        i = i + 1;
        assert(v@ =~= mid.take(i - a).map_values(|c: char| ascii_lower(c)));
    }
    v
}

pub(crate) fn same_chars(a: &Vec<char>, b: &str) -> (r: bool)
    ensures
        r == (a@ == b@),
{
    let bs = chars_of(b);
    if a.len() != bs.len() {
        return false;
    }
    let mut i: usize = 0;
    while i < a.len()
        invariant
            a@.len() == bs@.len(),
            bs@ == b@,
            i <= a@.len(),
            forall|k: int| 0 <= k < i ==> a@[k] == bs@[k],
        decreases a@.len() - i,
    {
        if a[i] != bs[i] {
            return false;
        }
        i = i + 1;
    }
    assert(a@ =~= bs@);
    true
}

/// The words that switch score translation off.
pub open spec fn switches_scores_off(v: Seq<char>) -> bool {
    v == "off"@ || v == "0"@ || v == "false"@ || v == "drop"@ || v == "cancel"@
}

/// Whether score packets are translated toward protocol 2168: unless the
/// setting, trimmed and lower-cased, is one of the words that switch it
/// off.
pub fn parse_enabled(raw: Option<&str>) -> (b: bool)
    ensures
        b == match raw {
            None => true,
            Some(v) => !switches_scores_off(normalized(v@)),
        },
{
    match raw {
        None => true,
        Some(v) => {
            let n = normalize(v);
            !(same_chars(&n, "off") || same_chars(&n, "0") || same_chars(&n, "false")
                || same_chars(&n, "drop") || same_chars(&n, "cancel"))
        },
    }
}

/// The words that keep clients off the blob cache.
pub open spec fn switches_blob_cache_off(v: Seq<char>) -> bool {
    v == "off"@ || v == "0"@ || v == "false"@ || v == "no"@
}

/// Whether clients may keep the blob cache: unless the setting, trimmed
/// and lower-cased, is one of the words that switch it off (an absent
/// setting reads as empty).
pub fn blob_cache_enabled(raw: &str) -> (b: bool)
    ensures
        b == !switches_blob_cache_off(normalized(raw@)),
{
    let n = normalize(raw);
    !(same_chars(&n, "off") || same_chars(&n, "0") || same_chars(&n, "false") || same_chars(&n, "no"))
}

/// The line that tells an operator what happens to score packets.
pub fn describe_layout(enabled: bool) -> (s: String)
    ensures
        enabled ==> s@ == "SetScore/SetScoreboardIdentity toward v2168: translated (1.26.40 moved each score entry to a name-coded variant; set CROSSBIND_SET_SCORE=off to drop them instead)"@,
        !enabled ==> s@ == "SetScore/SetScoreboardIdentity toward v2168: dropped (CROSSBIND_SET_SCORE=off); a sidebar on a 1.26.40 client will show its title and no lines"@,
{
    if enabled {
        String::from_str("SetScore/SetScoreboardIdentity toward v2168: translated (1.26.40 moved each score entry to a name-coded variant; set CROSSBIND_SET_SCORE=off to drop them instead)")
    } else {
        String::from_str("SetScore/SetScoreboardIdentity toward v2168: dropped (CROSSBIND_SET_SCORE=off); a sidebar on a 1.26.40 client will show its title and no lines")
    }
}

/// A signed 32-bit decimal: an optional sign, then at least one digit,
/// and a value that fits.
pub open spec fn parse_signed(s: Seq<char>) -> Option<i32> {
    if s.len() > 0 && s[0] == '-' {
        let d = s.drop_first();
        if d.len() > 0 && d[0] != '+' && d[0] != '-' {
            match parse_id(d) {
                Some(v) => if v <= 0x8000_0000 { Some((0 - v) as i32) } else { None },
                None => None,
            }
        } else {
            None
        }
    } else {
        match parse_id(s) {
            Some(v) => if v <= 0x7fff_ffff { Some(v as i32) } else { None },
            None => None,
        }
    }
}

/// How often a sound played toward protocol 2168 repeats: the setting,
/// trimmed, as a signed decimal, or 0 (play once) when absent or not a
/// number.
pub fn parse_loop_count(raw: Option<&str>) -> (n: i32)
    ensures
        n == match raw {
            None => 0,
            Some(v) => match parse_signed(trim_end(trim_start(v@))) {
                Some(x) => x,
                None => 0,
            },
        },
{
    match raw {
        None => 0,
        Some(v) => {
            let cs = chars_of(v);
            let (a, e) = trimmed_range(&cs);
            let ghost t = cs@.subrange(a as int, e as int);
            if a < e && cs[a] == '-' {
                if a + 1 < e && cs[a + 1] != '+' && cs[a + 1] != '-' {
                    assert(t.drop_first() =~= cs@.subrange(a + 1, e as int));
                    match crate::sound_events::read_id(&cs, a + 1, e) {
                        Some(v) => if v <= 0x8000_0000 {
                            (0i64 - v as i64) as i32
                        } else {
                            0
                        },
                        None => 0,
                    }
                } else {
                    0
                }
            } else {
                match crate::sound_events::read_id(&cs, a, e) {
                    Some(v) => if v <= 0x7fff_ffff { v as i32 } else { 0 },
                    None => 0,
                }
            }
        },
    }
}

/// The loop count as an operator reads it.
pub open spec fn loop_label(count: i32) -> Seq<char> {
    if count < 0 {
        "-"@ + decimal((0 - count) as nat) + " (negative: every sound repeats forever)"@
    } else {
        decimal(count as nat)
    }
}

pub fn play_sound_loop_label(count: i32) -> (s: String)
    ensures
        s@ == loop_label(count),
{
    let mut s = String::new();
    if count < 0 {
        push_char(&mut s, '-');
        let m = (0i64 - count as i64) as u64;
        if m <= 0xffff_ffff {
            push_decimal(&mut s, m as u32);
        }
        s.append(" (negative: every sound repeats forever)");
        proof { reveal_strlit("-"); }
        assert(s@ =~= loop_label(count));
    } else {
        push_decimal(&mut s, count as u32);
    }
    s
}

/// Where the characters of `cs` remain once trimmed.
fn trimmed_range(cs: &Vec<char>) -> (r: (usize, usize))
    ensures
        r.0 <= r.1 <= cs@.len(),
        cs@.subrange(r.0 as int, r.1 as int) == trim_end(trim_start(cs@)),
{
    let mut a: usize = 0;
    while a < cs.len() && char_is_ws(cs[a])
        invariant
            a <= cs@.len(),
            forall|j: int| 0 <= j < a ==> is_ws(#[trigger] cs@[j]),
        decreases cs@.len() - a,
    {
        a = a + 1;
    }
    proof {
        lemma_trim_start(cs@, a as int);
    }
    let ghost mid = cs@.skip(a as int);
    let mut e: usize = cs.len();
    while e > a && char_is_ws(cs[e - 1])
        invariant
            a <= e <= cs@.len(),
            mid == cs@.skip(a as int),
            forall|j: int| e - a <= j < mid.len() ==> is_ws(#[trigger] mid[j]),
        decreases e - a,
    {
        e = e - 1;
    }
    proof {
        lemma_trim_end(mid, e - a);
        assert(mid.take(e - a) =~= cs@.subrange(a as int, e as int));
    }
    (a, e)
}

/// The words that turn packet tracing on.
pub open spec fn switches_trace_on(v: Seq<char>) -> bool {
    v == "1"@ || v == "true"@ || v == "on"@ || v == "yes"@
}

/// How many trace lines are written when tracing is on and no usable limit
/// is given.
pub const DEFAULT_TRACE_LIMIT: u32 = 200_000;

/// How many trace lines to write: none unless the switch, trimmed and
/// lower-cased, is one of the words that turn tracing on; then the limit,
/// trimmed, as an unsigned decimal when it is one and is not zero, else
/// the default.
pub open spec fn spec_trace_limit(switch: Option<Seq<char>>, limit: Option<Seq<char>>) -> u32 {
    if !(switch matches Some(v) && switches_trace_on(normalized(v))) {
        0
    } else {
        match limit {
            None => DEFAULT_TRACE_LIMIT,
            Some(l) => match parse_id(trim_end(trim_start(l))) {
                Some(n) => if n > 0 { n } else { DEFAULT_TRACE_LIMIT },
                None => DEFAULT_TRACE_LIMIT,
            },
        }
    }
}

/// How many trace lines to write, from the tracing switch and the limit
/// setting.
pub fn trace_limit_of(switch: Option<&str>, limit: Option<&str>) -> (n: u32)
    ensures
        n == spec_trace_limit(
            match switch {
                Some(v) => Some(v@),
                None => None,
            },
            match limit {
                Some(l) => Some(l@),
                None => None,
            },
        ),
{
    let on = match switch {
        None => false,
        Some(v) => {
            let n = normalize(v);
            same_chars(&n, "1") || same_chars(&n, "true") || same_chars(&n, "on") || same_chars(&n, "yes")
        },
    };
    if !on {
        return 0;
    }
    match limit {
        None => DEFAULT_TRACE_LIMIT,
        Some(l) => {
            let cs = chars_of(l);
            let (a, e) = trimmed_range(&cs);
            match crate::sound_events::read_id(&cs, a, e) {
                Some(v) => if v > 0 { v } else { DEFAULT_TRACE_LIMIT },
                None => DEFAULT_TRACE_LIMIT,
            }
        },
    }
}

} // verus!
