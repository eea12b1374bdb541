//! Protocol 859 and protocol 860 speak the same wire format: the step
//! between them changes nothing.
use vstd::prelude::*;
use crate::direction::Direction;
use crate::handler::Handler;
use crate::translator::Translator;

verus! {

/// Serves a protocol 860 client from a protocol 859 server.
pub fn downgrade() -> (t: Translator)
    ensures
        t.wf(),
        t.name@ == "v860->v859"@,
        t.server_protocol == 859,
        t.client_protocol == 860,
        forall|d: Direction| #[trigger] t.handlers(d) == Map::<u16, Handler>::empty(),
        forall|d: Direction| #[trigger] t.cancels(d) == Set::<u16>::empty(),
{
    Translator::new("v860->v859", 859, 860)
}

/// Serves a protocol 859 client from a protocol 860 server.
pub fn upgrade() -> (t: Translator)
    ensures
        t.wf(),
        t.name@ == "v859->v860"@,
        t.server_protocol == 860,
        t.client_protocol == 859,
        forall|d: Direction| #[trigger] t.handlers(d) == Map::<u16, Handler>::empty(),
        forall|d: Direction| #[trigger] t.cancels(d) == Set::<u16>::empty(),
{
    Translator::new("v859->v860", 860, 859)
}

} // verus!
