//! Protocol 2168 and protocol 2169 speak the same wire format: the step
//! between them changes nothing.
use vstd::prelude::*;
use crate::direction::Direction;
use crate::handler::Handler;
use crate::translator::Translator;

verus! {

/// Serves a protocol 2169 client from a protocol 2168 server.
pub fn downgrade() -> (t: Translator)
    ensures
        t.wf(),
        t.name@ == "v2169->v2168"@,
        t.server_protocol == 2168,
        t.client_protocol == 2169,
        forall|d: Direction| #[trigger] t.handlers(d) == Map::<u16, Handler>::empty(),
        forall|d: Direction| #[trigger] t.cancels(d) == Set::<u16>::empty(),
{
    Translator::new("v2169->v2168", 2168, 2169)
}

/// Serves a protocol 2168 client from a protocol 2169 server.
pub fn upgrade() -> (t: Translator)
    ensures
        t.wf(),
        t.name@ == "v2168->v2169"@,
        t.server_protocol == 2169,
        t.client_protocol == 2168,
        forall|d: Direction| #[trigger] t.handlers(d) == Map::<u16, Handler>::empty(),
        forall|d: Direction| #[trigger] t.cancels(d) == Set::<u16>::empty(),
{
    Translator::new("v2168->v2169", 2169, 2168)
}

} // verus!
