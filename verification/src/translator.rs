//! A translation step between two adjacent protocol versions: which
//! packets it rewrites, with what, and which it drops.
use vstd::prelude::*;
use crate::direction::Direction;
use crate::handler::{handler_wf, Handler};
use crate::table::IdTable;

verus! {

/// One step of translation: packets of a server speaking `server_protocol`
/// to a client speaking `client_protocol`.
pub struct Translator {
    pub name: &'static str,
    pub server_protocol: u32,
    pub client_protocol: u32,
    pub clientbound: IdTable<Handler>,
    pub serverbound: IdTable<Handler>,
    pub cancel_clientbound: IdTable<()>,
    pub cancel_serverbound: IdTable<()>,
}

impl Translator {
    /// The handlers registered for packets going `direction`, by packet id.
    pub closed spec fn handlers(&self, direction: Direction) -> Map<u16, Handler> {
        match direction {
            Direction::Clientbound => self.clientbound.view(),
            Direction::Serverbound => self.serverbound.view(),
        }
    }

    /// The packet ids dropped when going `direction`.
    pub closed spec fn cancels(&self, direction: Direction) -> Set<u16> {
        match direction {
            Direction::Clientbound => self.cancel_clientbound.view().dom(),
            Direction::Serverbound => self.cancel_serverbound.view().dom(),
        }
    }

    /// The tables are well formed and every handler's id shift is in range.
    pub closed spec fn wf(&self) -> bool {
        &&& self.clientbound.wf()
        &&& self.serverbound.wf()
        &&& self.cancel_clientbound.wf()
        &&& self.cancel_serverbound.wf()
        &&& forall|k: u16| #[trigger] self.clientbound.view().contains_key(k) ==> handler_wf(self.clientbound.view()[k])
        &&& forall|k: u16| #[trigger] self.serverbound.view().contains_key(k) ==> handler_wf(self.serverbound.view()[k])
    }

    /// A well-formed step has finitely many handlers and drops finitely many
    /// packets each way.
    pub proof fn lemma_finite(&self)
        requires
            self.wf(),
        ensures
            forall|d: Direction| #[trigger] self.handlers(d).dom().finite() && self.cancels(d).finite(),
    {
        self.clientbound.lemma_finite();
        self.serverbound.lemma_finite();
        self.cancel_clientbound.lemma_finite();
        self.cancel_serverbound.lemma_finite();
        assert forall|d: Direction| #[trigger] self.handlers(d).dom().finite() && self.cancels(d).finite() by {
            match d {
                Direction::Clientbound => {},
                Direction::Serverbound => {},
            }
        }
    }

    /// A step with no handlers and nothing dropped.
    pub fn new(name: &'static str, server_protocol: u32, client_protocol: u32) -> (t: Translator)
        ensures
            t.wf(),
            t.name == name,
            t.server_protocol == server_protocol,
            t.client_protocol == client_protocol,
            forall|d: Direction| #[trigger] t.handlers(d) == Map::<u16, Handler>::empty(),
            forall|d: Direction| #[trigger] t.cancels(d) == Set::<u16>::empty(),
    {
        let t = Translator {
            name,
            server_protocol,
            client_protocol,
            clientbound: IdTable::new(),
            serverbound: IdTable::new(),
            cancel_clientbound: IdTable::new(),
            cancel_serverbound: IdTable::new(),
        };
        assert(t.cancel_clientbound.view().dom() =~= Set::<u16>::empty());
        assert(t.cancel_serverbound.view().dom() =~= Set::<u16>::empty());
        t
    }

    /// The same step with `handler` for packet `packet_id` going
    /// `direction`; the packet must not have a handler yet that way.
    pub fn register(self, direction: Direction, packet_id: u16, handler: Handler) -> (t: Translator)
        requires
            self.wf(),
            handler_wf(handler),
            !self.handlers(direction).contains_key(packet_id),
        ensures
            t.wf(),
            t.name == self.name,
            t.server_protocol == self.server_protocol,
            t.client_protocol == self.client_protocol,
            t.handlers(direction) == self.handlers(direction).insert(packet_id, handler),
            t.handlers(direction).dom().len() == self.handlers(direction).dom().len() + 1,
            forall|d: Direction| d != direction ==> #[trigger] t.handlers(d) == self.handlers(d),
            forall|d: Direction| #[trigger] t.cancels(d) == self.cancels(d),
    {
        let mut t = self;
        match direction {
            Direction::Clientbound => t.clientbound.insert(packet_id, handler),
            Direction::Serverbound => t.serverbound.insert(packet_id, handler),
        }
        t
    }

    /// `register` for clientbound packets.
    pub fn clientbound(self, packet_id: u16, handler: Handler) -> (t: Translator)
        requires
            self.wf(),
            handler_wf(handler),
            !self.handlers(Direction::Clientbound).contains_key(packet_id),
        ensures
            t.wf(),
            t.name == self.name,
            t.server_protocol == self.server_protocol,
            t.client_protocol == self.client_protocol,
            t.handlers(Direction::Clientbound) == self.handlers(Direction::Clientbound).insert(packet_id, handler),
            t.handlers(Direction::Serverbound) == self.handlers(Direction::Serverbound),
            forall|d: Direction| #[trigger] t.cancels(d) == self.cancels(d),
    {
        self.register(Direction::Clientbound, packet_id, handler)
    }

    /// `register` for serverbound packets.
    pub fn serverbound(self, packet_id: u16, handler: Handler) -> (t: Translator)
        requires
            self.wf(),
            handler_wf(handler),
            !self.handlers(Direction::Serverbound).contains_key(packet_id),
        ensures
            t.wf(),
            t.name == self.name,
            t.server_protocol == self.server_protocol,
            t.client_protocol == self.client_protocol,
            t.handlers(Direction::Serverbound) == self.handlers(Direction::Serverbound).insert(packet_id, handler),
            t.handlers(Direction::Clientbound) == self.handlers(Direction::Clientbound),
            forall|d: Direction| #[trigger] t.cancels(d) == self.cancels(d),
    {
        self.register(Direction::Serverbound, packet_id, handler)
    }

    /// The same step, dropping packet `packet_id` going `direction`.
    pub fn cancel(self, direction: Direction, packet_id: u16) -> (t: Translator)
        requires
            self.wf(),
        ensures
            t.wf(),
            t.name == self.name,
            t.server_protocol == self.server_protocol,
            t.client_protocol == self.client_protocol,
            t.cancels(direction) == self.cancels(direction).insert(packet_id),
            forall|d: Direction| d != direction ==> #[trigger] t.cancels(d) == self.cancels(d),
            forall|d: Direction| #[trigger] t.handlers(d) == self.handlers(d),
    {
        let mut t = self;
        match direction {
            Direction::Clientbound => {
                if !t.cancel_clientbound.contains(packet_id) {
                    t.cancel_clientbound.insert(packet_id, ());
                }
                assert(t.cancel_clientbound.view().dom() =~= self.cancel_clientbound.view().dom().insert(packet_id));
            },
            Direction::Serverbound => {
                if !t.cancel_serverbound.contains(packet_id) {
                    t.cancel_serverbound.insert(packet_id, ());
                }
                assert(t.cancel_serverbound.view().dom() =~= self.cancel_serverbound.view().dom().insert(packet_id));
            },
        }
        t
    }

    /// The same step, dropping each of `packet_ids` going `direction`.
    pub fn cancel_all(self, direction: Direction, packet_ids: &[u16]) -> (t: Translator)
        requires
            self.wf(),
        ensures
            t.wf(),
            t.name == self.name,
            t.server_protocol == self.server_protocol,
            t.client_protocol == self.client_protocol,
            t.cancels(direction) == self.cancels(direction) + packet_ids@.to_set(),
            forall|d: Direction| d != direction ==> #[trigger] t.cancels(d) == self.cancels(d),
            forall|d: Direction| #[trigger] t.handlers(d) == self.handlers(d),
    {
        let mut t = self;
        let mut i: usize = 0;
        while i < packet_ids.len()
            invariant
                t.wf(),
                i <= packet_ids@.len(),
                t.name == self.name,
                t.server_protocol == self.server_protocol,
                t.client_protocol == self.client_protocol,
                t.cancels(direction) == self.cancels(direction) + packet_ids@.take(i as int).to_set(),
                forall|d: Direction| d != direction ==> #[trigger] t.cancels(d) == self.cancels(d),
                forall|d: Direction| #[trigger] t.handlers(d) == self.handlers(d),
            decreases packet_ids@.len() - i,
        {
            t = t.cancel(direction, packet_ids[i]);
            proof {
                let a = packet_ids@.take(i as int);
                let b = packet_ids@.take(i + 1);
                let v = packet_ids@[i as int];
                assert(b =~= a.push(v));
                assert forall|x: u16| b.contains(x) <==> (a.contains(x) || x == v) by {
                    if a.contains(x) {
                        let j = choose|j: int| 0 <= j < a.len() && a[j] == x;
                        assert(b[j] == x);
                    }
                    if x == v {
                        assert(b[i as int] == v);
                    }
                    if b.contains(x) {
                        let j = choose|j: int| 0 <= j < b.len() && b[j] == x;
                        if j < i {
                            assert(a[j] == x);
                        }
                    }
                }
                assert(packet_ids@.take(i + 1).to_set() =~= packet_ids@.take(i as int).to_set().insert(packet_ids@[i as int]));
                assert(t.cancels(direction) =~= self.cancels(direction) + packet_ids@.take(i + 1).to_set());
            }
            i = i + 1;
        }
        assert(packet_ids@.take(packet_ids@.len() as int) =~= packet_ids@);
        t
    }

    /// Whether packet `packet_id` going `direction` is dropped.
    pub fn is_cancelled(&self, direction: Direction, packet_id: u16) -> (b: bool)
        requires
            self.wf(),
        ensures
            b == self.cancels(direction).contains(packet_id),
    {
        match direction {
            Direction::Clientbound => self.cancel_clientbound.contains(packet_id),
            Direction::Serverbound => self.cancel_serverbound.contains(packet_id),
        }
    }

    /// The handler of packet `packet_id` going `direction`, if it has one.
    pub fn handler(&self, direction: Direction, packet_id: u16) -> (r: Option<Handler>)
        requires
            self.wf(),
        ensures
            r == (if self.handlers(direction).contains_key(packet_id) {
                Some(self.handlers(direction)[packet_id])
            } else {
                None::<Handler>
            }),
            r matches Some(h) ==> handler_wf(h),
    {
        match direction {
            Direction::Clientbound => self.clientbound.get(packet_id),
            Direction::Serverbound => self.serverbound.get(packet_id),
        }
    }

    /// Whether this step does anything to packet `packet_id` going
    /// `direction`: drops it or rewrites it.
    pub fn touches(&self, direction: Direction, packet_id: u16) -> (b: bool)
        requires
            self.wf(),
        ensures
            b == (self.cancels(direction).contains(packet_id) || self.handlers(direction).contains_key(packet_id)),
    {
        self.is_cancelled(direction, packet_id) || self.handler(direction, packet_id).is_some()
    }

    /// How many handlers the step has, both ways together.
    pub fn handler_count(&self) -> (n: usize)
        requires
            self.wf(),
        ensures
            n == self.handlers(Direction::Clientbound).dom().len() + self.handlers(Direction::Serverbound).dom().len(),
    {
        self.clientbound.len() + self.serverbound.len()
    }

    /// How many packets the step drops, both ways together.
    pub fn cancel_count(&self) -> (n: usize)
        requires
            self.wf(),
        ensures
            n == self.cancels(Direction::Clientbound).len() + self.cancels(Direction::Serverbound).len(),
    {
        self.cancel_clientbound.len() + self.cancel_serverbound.len()
    }
}

} // verus!
