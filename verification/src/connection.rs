//! What the translator keeps about one connection.
use vstd::prelude::*;

verus! {

/// The state of one client connection.
pub struct ConnState {
    /// The protocol the server speaks.
    pub server_protocol: u32,
    /// The protocol the client speaks, once known.
    pub client_protocol: u32,
    /// Whether the client's protocol is known.
    pub identified: bool,
    /// Whether the missing translation path was already reported.
    pub warned_unsupported: bool,
    /// Messages waiting to be reported with the next packet.
    pub notices: Vec<String>,
    /// The packet ids whose once-only message was already left.
    pub reported: Vec<u16>,
}

/// The texts of a list of messages.
pub open spec fn texts(v: Seq<String>) -> Seq<Seq<char>> {
    v.map_values(|s: String| s@)
}

/// The pending messages and the reported ids after a handler leaves `note`:
/// its text, and the id it is given once for (none when given every time).
/// A once-only note whose id was already reported is not left again.
pub open spec fn after_note(
    pending: Seq<Seq<char>>,
    reported: Seq<u16>,
    note: Option<(Option<u16>, Seq<char>)>,
) -> (Seq<Seq<char>>, Seq<u16>) {
    match note {
        None => (pending, reported),
        Some((None, text)) => (pending.push(text), reported),
        Some((Some(id), text)) => if reported.contains(id) {
            (pending, reported)
        } else {
            (pending.push(text), reported.push(id))
        },
    }
}

/// A once-only note is left at most once: after a note for `id`, another
/// note for the same id leaves the connection's messages as they were.
pub proof fn law_once_only_notes(pending: Seq<Seq<char>>, reported: Seq<u16>, id: u16, first: Seq<char>, second: Seq<char>)
    ensures
        ({
            let once = after_note(pending, reported, Some((Some(id), first)));
            &&& once.1.contains(id)
            &&& once.0.len() <= pending.len() + 1
            &&& after_note(once.0, once.1, Some((Some(id), second))) == once
        }),
{
    let once = after_note(pending, reported, Some((Some(id), first)));
    if !reported.contains(id) {
        assert(once.1[reported.len() as int] == id);
    }
}

/// Leaves the note `text` for the connection, once per `key` when there is
/// one.
pub fn leave_note(pending: &mut Vec<String>, reported: &mut Vec<u16>, key: Option<u16>, text: String)
    ensures
        (texts(final(pending)@), final(reported)@) == after_note(texts(old(pending)@), old(reported)@, Some((key, text@))),
{
    let ghost t = text@;
    match key {
        None => {
            pending.push(text);
            assert(texts(pending@) =~= texts(old(pending)@).push(t));
        },
        Some(id) => {
            let mut seen = false;
            let mut i: usize = 0;
            while i < reported.len()
                invariant
                    i <= reported@.len(),
                    seen == exists|j: int| 0 <= j < i && reported@[j] == id,
                decreases reported@.len() - i,
            {
                if reported[i] == id {
                    seen = true;
                }
                i = i + 1;
            }
            if !seen {
                assert(!reported@.contains(id));
                pending.push(text);
                reported.push(id);
                assert(texts(pending@) =~= texts(old(pending)@).push(t));
            } else {
                proof {
                    let j = choose|j: int| 0 <= j < reported@.len() && reported@[j] == id;
                    assert(reported@.contains(id));
                }
            }
        },
    }
}

impl ConnState {
    /// A new connection to a server speaking `server_protocol`, client not
    /// yet identified.
    pub fn new(server_protocol: u32) -> (s: ConnState)
        ensures
            s.server_protocol == server_protocol,
            s.client_protocol == server_protocol,
            !s.identified,
            !s.warned_unsupported,
            s.notices@.len() == 0,
            s.reported@.len() == 0,
    {
        ConnState {
            server_protocol,
            client_protocol: server_protocol,
            identified: false,
            warned_unsupported: false,
            notices: Vec::new(),
            reported: Vec::new(),
        }
    }

    /// Records that the client speaks `client_protocol`.
    pub fn identify(&mut self, client_protocol: u32)
        ensures
            final(self).client_protocol == client_protocol,
            final(self).identified,
            final(self).server_protocol == old(self).server_protocol,
            final(self).warned_unsupported == old(self).warned_unsupported,
            final(self).notices@ == old(self).notices@,
            final(self).reported@ == old(self).reported@,
    {
        self.client_protocol = client_protocol;
        self.identified = true;
    }

    /// Whether the client's protocol is known.
    pub fn is_identified(&self) -> (b: bool)
        ensures
            b == self.identified,
    {
        self.identified
    }

    /// Whether the client speaks the server's protocol.
    pub fn is_native(&self) -> (b: bool)
        ensures
            b == (self.client_protocol == self.server_protocol),
    {
        self.client_protocol == self.server_protocol
    }
}

} // verus!
