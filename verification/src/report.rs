//! What a server is told when translation starts, and how a Disconnect body
//! reads in a trace.
use vstd::prelude::*;
use crate::codec::{take_str, take_u8};
use crate::versions::{describe, is_translatable, spec_describe, translatable, translatable_table};

verus! {

/// The descriptions of `ps`, joined with ", ".
pub open spec fn joined_descriptions(ps: Seq<u32>) -> Seq<char>
    decreases ps.len(),
{
    if ps.len() == 0 {
        Seq::empty()
    } else if ps.len() == 1 {
        spec_describe(ps[0])
    } else {
        joined_descriptions(ps.drop_last()) + ", "@ + spec_describe(ps.last())
    }
}

/// What happens when translation starts on a server of `server` protocol:
/// whether it goes active, and the lines to log.
pub struct EnableReport {
    pub active: bool,
    pub lines: Vec<String>,
}

/// The lines a server of `server` protocol logs when translation starts.
pub open spec fn spec_enable_lines(server: u32) -> Seq<Seq<char>> {
    if translatable_table().contains(server) {
        seq!["server speaks "@ + spec_describe(server)]
    } else {
        seq![
            "server speaks "@ + spec_describe(server),
            spec_describe(server)
                + " is not a version crossbind can translate; staying inactive so clients still get a normal version-mismatch screen"@,
            "translatable server versions: "@ + joined_descriptions(translatable_table()),
        ]
    }
}

fn with_prefix(prefix: &str, rest: &String) -> (s: String)
    ensures
        s@ == prefix@ + rest@,
{
    let mut s = String::from_str(prefix);
    s.append(rest.as_str());
    s
}

/// Decides whether translation starts for a server of `server` protocol:
/// only a translatable protocol does; the lines say what was decided.
pub fn enable_report(server: u32) -> (r: EnableReport)
    ensures
        r.active == translatable_table().contains(server),
        r.lines@.len() == spec_enable_lines(server).len(),
        forall|i: int| 0 <= i < r.lines@.len() ==> (#[trigger] r.lines@[i])@ == spec_enable_lines(server)[i],
{
    let d = describe(server);
    let mut lines: Vec<String> = Vec::new();
    lines.push(with_prefix("server speaks ", &d));
    if is_translatable(server) {
        return EnableReport { active: true, lines };
    }
    let mut second = describe(server);
    second.append(" is not a version crossbind can translate; staying inactive so clients still get a normal version-mismatch screen");
    lines.push(second);
    let table = translatable();
    let mut list = String::new();
    let mut i: usize = 0;
    proof {
        reveal_strlit(", ");
    }
    while i < table.len()
        invariant
            table@ == translatable_table(),
            i <= table@.len(),
            list@ == joined_descriptions(table@.take(i as int)),
        decreases table@.len() - i,
    {
        if i > 0 {
            list.append(", ");
        }
        let item = describe(table[i]);
        list.append(item.as_str());
        proof {
            reveal_strlit(", ");
            assert(table@.take(i + 1).drop_last() =~= table@.take(i as int));
            if i == 0 {
                assert(list@ =~= joined_descriptions(table@.take(1)));
            } else {
                assert(list@ =~= joined_descriptions(table@.take(i + 1)));
            }
        }
        i = i + 1;
    }
    assert(table@.take(table@.len() as int) =~= table@);
    lines.push(with_prefix("translatable server versions: ", &list));
    EnableReport { active: false, lines }
}

/// A Disconnect body as a trace reads it: whether the screen is hidden,
/// then the message's bytes.
pub open spec fn spec_parse_disconnect(body: Seq<u8>) -> Option<(bool, Seq<u8>)> {
    match take_u8(body) {
        Some((hide, r)) => match take_str(r) {
            Some((msg, _)) => Some((hide != 0, msg)),
            None => None,
        },
        None => None,
    }
}

pub fn parse_disconnect(body: &[u8]) -> (r: Option<(bool, Vec<u8>)>)
    ensures
        match spec_parse_disconnect(body@) {
            Some((hide, msg)) => r matches Some((h, m)) && h == hide && m@ == msg,
            None => r is None,
        },
{
    let mut w = crate::wrapper::PacketWrapper::new(body);
    let hide = match w.read_bool() {
        Ok(b) => b,
        Err(_) => return None,
    };
    match w.read_str() {
        Ok(m) => Some((hide, m)),
        Err(_) => None,
    }
}

/// A byte as a trace shows it: printable ASCII and the space as
/// themselves, every other byte as a dot.
pub open spec fn shown_char(b: u8) -> char {
    if 0x20 <= b && b <= 0x7e { b as char } else { '.' }
}

/// The first 240 bytes of `body` as a trace shows them.
pub fn printable_head(body: &[u8]) -> (s: String)
    ensures
        s@ == body@.take(if body@.len() < 240 { body@.len() as int } else { 240 }).map_values(|b: u8| shown_char(b)),
{
    let n = if body.len() < 240 { body.len() } else { 240 };
    let mut s = String::new();
    let mut i: usize = 0;
    while i < n
        invariant
            n <= body@.len(),
            n == (if body@.len() < 240 { body@.len() } else { 240 }),
            i <= n,
            s@ == body@.take(i as int).map_values(|b: u8| shown_char(b)),
        decreases n - i,
    {
        let b = body[i];
        let c = if 0x20 <= b && b <= 0x7e { b as char } else { '.' };
        crate::text::push_char(&mut s, c);
        i = i + 1;
        assert(s@ =~= body@.take(i as int).map_values(|b: u8| shown_char(b)));
    }
    s
}

} // verus!
