//! The steps a server uses, and the chain of steps that serves each client
//! protocol.
use vstd::prelude::*;
use crate::sound_events::SoundTable;
use crate::translator::Translator;
use crate::versions::{translatable, translatable_table};

verus! {

/// The steps that serve clients of one protocol, by index into the
/// registry's steps: in the order clientbound packets pass them (from the
/// server's side) and serverbound packets pass them (from the client's
/// side).
pub struct Chain {
    pub client_protocol: u32,
    pub clientbound: Vec<usize>,
    pub serverbound: Vec<usize>,
}

/// Every index is below `n`.
pub open spec fn indices_below(v: Seq<usize>, n: nat) -> bool {
    forall|i: int| 0 <= i < v.len() ==> #[trigger] v[i] < n
}

/// Both orders of a chain name steps below `n`.
pub open spec fn chain_below(c: Chain, n: nat) -> bool {
    indices_below(c.clientbound@, n) && indices_below(c.serverbound@, n)
}

/// Every step a server uses: the steps run on every packet, a chain per
/// client protocol, and the table of named sounds the steps consult.
pub struct Registry {
    pub steps: Vec<Translator>,
    pub sounds: SoundTable,
    pub base: Vec<usize>,
    pub chains: Vec<Chain>,
}

impl Registry {
    /// Every step is well formed and every index names a step.
    pub open spec fn wf(&self) -> bool {
        &&& forall|i: int| 0 <= i < self.steps@.len() ==> (#[trigger] self.steps@[i]).wf()
        &&& self.sounds.wf()
        &&& indices_below(self.base@, self.steps@.len())
        &&& forall|c: int| 0 <= c < self.chains@.len() ==> #[trigger] chain_below(self.chains@[c], self.steps@.len())
    }

    /// The index of the first chain for client protocol `protocol`.
    pub open spec fn spec_chain(&self, protocol: u32) -> Option<int> {
        if exists|c: int| self.is_first_chain(c, protocol) {
            Some(choose|c: int| self.is_first_chain(c, protocol))
        } else {
            None
        }
    }

    /// Chain `c` is the first for client protocol `protocol`.
    pub open spec fn is_first_chain(&self, c: int, protocol: u32) -> bool {
        &&& 0 <= c < self.chains@.len()
        &&& self.chains@[c].client_protocol == protocol
        &&& forall|e: int| 0 <= e < c ==> self.chains@[e].client_protocol != protocol
    }

    /// The first chain for client protocol `protocol`, if there is one.
    pub fn chain(&self, protocol: u32) -> (r: Option<&Chain>)
        ensures
            match self.spec_chain(protocol) {
                Some(c) => r == Some(&self.chains@[c]),
                None => r is None,
            },
    {
        let mut i: usize = 0;
        while i < self.chains.len()
            invariant
                i <= self.chains@.len(),
                forall|e: int| 0 <= e < i ==> self.chains@[e].client_protocol != protocol,
            decreases self.chains@.len() - i,
        {
            if self.chains[i].client_protocol == protocol {
                proof {
                    assert(self.is_first_chain(i as int, protocol));
                    let c = choose|c: int| self.is_first_chain(c, protocol);
                    if c < i {
                    } else if c > i {
                        assert(self.chains@[i as int].client_protocol != protocol);
                    }
                }
                return Some(&self.chains[i]);
            }
            i = i + 1;
        }
        assert(!exists|c: int| self.is_first_chain(c, protocol));
        None
    }
}

/// The protocols met going from table index `i` to table index `j` of `t`,
/// both ends included.
pub open spec fn hop_path(t: Seq<u32>, i: int, j: int) -> Seq<u32> {
    if i <= j {
        Seq::new((j - i + 1) as nat, |k: int| t[i + k])
    } else {
        Seq::new((i - j + 1) as nat, |k: int| t[i - k])
    }
}

/// Step `steps[k]` serves a `client` from a `server`.
pub open spec fn serves(steps: Seq<Translator>, k: int, server: u32, client: u32) -> bool {
    0 <= k < steps.len() && steps[k].server_protocol == server && steps[k].client_protocol == client
}

/// The steps `order` take a packet hop by hop along `path`: the k-th serves
/// the protocol `path[k + 1]` from `path[k]`.
pub open spec fn links(steps: Seq<Translator>, order: Seq<usize>, path: Seq<u32>) -> bool {
    &&& order.len() + 1 == path.len()
    &&& forall|k: int| 0 <= k < order.len() ==> serves(steps, #[trigger] order[k] as int, path[k], path[k + 1])
}

/// Every hop along `path` has a step.
pub open spec fn hops_available(steps: Seq<Translator>, path: Seq<u32>) -> bool {
    forall|k: int| 0 <= k < path.len() - 1 ==> #[trigger] hop_served(steps, path, k)
}

/// The hop from `path[k]` to `path[k + 1]` has a step.
pub open spec fn hop_served(steps: Seq<Translator>, path: Seq<u32>, k: int) -> bool {
    exists|s: int| #[trigger] serves(steps, s, path[k], path[k + 1])
}

/// The index of a step that serves `client` from `server`.
fn find_step(steps: &Vec<Translator>, server: u32, client: u32) -> (r: Option<usize>)
    ensures
        match r {
            Some(k) => serves(steps@, k as int, server, client),
            None => !exists|s: int| #[trigger] serves(steps@, s, server, client),
        },
{
    let mut k: usize = 0;
    while k < steps.len()
        invariant
            k <= steps@.len(),
            forall|s: int| 0 <= s < k ==> !#[trigger] serves(steps@, s, server, client),
        decreases steps@.len() - k,
    {
        if steps[k].server_protocol == server && steps[k].client_protocol == client {
            return Some(k);
        }
        k = k + 1;
    }
    None
}

/// The steps from table index `i` to table index `j`, if every hop has one.
fn build_chain(steps: &Vec<Translator>, table: &Vec<u32>, i: usize, j: usize) -> (r: Option<Vec<usize>>)
    requires
        i < table@.len(),
        j < table@.len(),
    ensures
        match r {
            Some(order) => links(steps@, order@, hop_path(table@, i as int, j as int)),
            None => !hops_available(steps@, hop_path(table@, i as int, j as int)),
        },
{
    let ghost path = hop_path(table@, i as int, j as int);
    let dist = if i <= j { j - i } else { i - j };
    let mut order: Vec<usize> = Vec::new();
    let mut k: usize = 0;
    while k < dist
        invariant
            i < table@.len(),
            j < table@.len(),
            path == hop_path(table@, i as int, j as int),
            dist + 1 == path.len(),
            k <= dist,
            order@.len() == k,
            forall|m: int| 0 <= m < k ==> serves(steps@, #[trigger] order@[m] as int, path[m], path[m + 1]),
        decreases dist - k,
    {
        let (a, b) = if i <= j { (table[i + k], table[i + k + 1]) } else { (table[i - k], table[i - k - 1]) };
        assert(a == path[k as int] && b == path[k + 1]);
        match find_step(steps, a, b) {
            Some(s) => {
                order.push(s);
            },
            None => {
                assert(!hops_available(steps@, path)) by {
                    assert(0 <= k < path.len() - 1);
                    assert(!hop_served(steps@, path, k as int));
                }
                return None;
            },
        }
        k = k + 1;
    }
    Some(order)
}

/// The steps of `order`, last first.
fn reversed(order: &Vec<usize>) -> (r: Vec<usize>)
    ensures
        r@ == order@.reverse(),
{
    let mut r: Vec<usize> = Vec::new();
    let mut k = order.len();
    while k > 0
        invariant
            k <= order@.len(),
            r@ == order@.subrange(k as int, order@.len() as int).reverse(),
        decreases k,
    {
        k = k - 1;
        r.push(order[k]);
        assert(r@ =~= order@.subrange(k as int, order@.len() as int).reverse());
    }
    assert(order@.subrange(0, order@.len() as int) =~= order@);
    r
}

/// What a registry's chains are for a server whose protocol is at index
/// `i` of the translatable protocols: each serves another translatable
/// client protocol, taking clientbound packets hop by hop from the
/// server's protocol to the client's and serverbound packets the other way.
pub open spec fn chains_sound(reg: Registry, i: int) -> bool {
    forall|c: int| #![trigger reg.chains@[c]] 0 <= c < reg.chains@.len() ==> exists|j: int| {
        &&& 0 <= j < translatable_table().len()
        &&& i != j
        &&& #[trigger] translatable_table()[j] == reg.chains@[c].client_protocol
        &&& links(reg.steps@, reg.chains@[c].clientbound@, hop_path(translatable_table(), i, j))
        &&& reg.chains@[c].serverbound@ == reg.chains@[c].clientbound@.reverse()
    }
}

impl Registry {
    /// The registry of a server that speaks `server`: the `base` steps run
    /// on every packet, and there is a chain for every other translatable
    /// client protocol whose every hop has a step among `steps`.
    pub fn build(server: u32, steps: Vec<Translator>, base: Vec<usize>, sounds: SoundTable) -> (reg: Registry)
        requires
            forall|i: int| 0 <= i < steps@.len() ==> (#[trigger] steps@[i]).wf(),
            indices_below(base@, steps@.len()),
            sounds.wf(),
        ensures
            reg.wf(),
            reg.steps@ == steps@,
            reg.base@ == base@,
            reg.sounds == sounds,
            forall|i: int| 0 <= i < translatable_table().len() && translatable_table()[i] == server
                ==> chains_sound(reg, i),
            forall|i: int, j: int| 0 <= i < translatable_table().len() && 0 <= j < translatable_table().len()
                && i != j && translatable_table()[i] == server
                && #[trigger] hops_available(steps@, hop_path(translatable_table(), i, j))
                ==> reg.spec_chain(translatable_table()[j]) is Some,
            !translatable_table().contains(server) ==> reg.chains@.len() == 0,
    {
        let table = translatable();
        let mut chains: Vec<Chain> = Vec::new();
        let mut i: usize = 0;
        while i < table.len() && table[i] != server
            invariant
                table@ == translatable_table(),
                i <= table@.len(),
                forall|k: int| 0 <= k < i ==> table@[k] != server,
            decreases table@.len() - i,
        {
            i = i + 1;
        }
        if i == table.len() {
            let reg = Registry { steps, sounds, base, chains };
            return reg;
        }
        let mut j: usize = 0;
        while j < table.len()
            invariant
                table@ == translatable_table(),
                i < table@.len(),
                table@[i as int] == server,
                forall|k: int| 0 <= k < i ==> table@[k] != server,
                j <= table@.len(),
                forall|c: int| 0 <= c < chains@.len() ==> chain_below(#[trigger] chains@[c], steps@.len()),
                forall|c: int| #![trigger chains@[c]] 0 <= c < chains@.len() ==> exists|jj: int| {
                    &&& 0 <= jj < j
                    &&& jj != i
                    &&& #[trigger] table@[jj] == chains@[c].client_protocol
                    &&& links(steps@, chains@[c].clientbound@, hop_path(table@, i as int, jj))
                    &&& chains@[c].serverbound@ == chains@[c].clientbound@.reverse()
                },
                forall|jj: int| 0 <= jj < j && jj != i && hops_available(steps@, hop_path(table@, i as int, jj))
                    ==> exists|c: int| 0 <= c < chains@.len() && #[trigger] chains@[c].client_protocol == table@[jj],
            decreases table@.len() - j,
        {
            if j != i {
                match build_chain(&steps, &table, i, j) {
                    Some(clientbound) => {
                        let serverbound = reversed(&clientbound);
                        let ghost path = hop_path(table@, i as int, j as int);
                        proof {
                            assert forall|m: int| 0 <= m < clientbound@.len() implies #[trigger] clientbound@[m] < steps@.len() by {
                                assert(serves(steps@, clientbound@[m] as int, path[m], path[m + 1]));
                            }
                            assert forall|m: int| 0 <= m < serverbound@.len() implies #[trigger] serverbound@[m] < steps@.len() by {
                                assert(serverbound@[m] == clientbound@[clientbound@.len() - 1 - m]);
                                assert(serves(steps@, clientbound@[clientbound@.len() - 1 - m] as int, path[clientbound@.len() - 1 - m], path[clientbound@.len() - m]));
                            }
                        }
                        let ghost before = chains@;
                        chains.push(Chain { client_protocol: table[j], clientbound, serverbound });
                        proof {
                            assert forall|c: int| #![trigger chains@[c]] 0 <= c < chains@.len() implies exists|jj: int| {
                                &&& 0 <= jj < j + 1
                                &&& jj != i
                                &&& #[trigger] table@[jj] == chains@[c].client_protocol
                                &&& links(steps@, chains@[c].clientbound@, hop_path(table@, i as int, jj))
                                &&& chains@[c].serverbound@ == chains@[c].clientbound@.reverse()
                            } by {
                                if c < before.len() {
                                    assert(chains@[c] == before[c]);
                                } else {
                                    assert(table@[j as int] == chains@[c].client_protocol);
                                }
                            }
                            assert forall|jj: int| 0 <= jj < j + 1 && jj != i && hops_available(steps@, hop_path(table@, i as int, jj))
                                implies exists|c: int| 0 <= c < chains@.len() && #[trigger] chains@[c].client_protocol == table@[jj] by {
                                if jj < j {
                                    let c = choose|c: int| 0 <= c < before.len() && #[trigger] before[c].client_protocol == table@[jj];
                                    assert(chains@[c] == before[c]);
                                } else {
                                    assert(chains@[before.len() as int].client_protocol == table@[jj]);
                                }
                            }
                        }
                    },
                    None => {},
                }
            }
            j = j + 1;
        }
        let reg = Registry { steps, sounds, base, chains };
        proof {
            assert forall|ii: int| 0 <= ii < translatable_table().len() && translatable_table()[ii] == server
                implies chains_sound(reg, ii) by {
                lemma_table_unique(ii, i as int);
            }
            assert forall|ii: int, jj: int| 0 <= ii < translatable_table().len() && 0 <= jj < translatable_table().len()
                && ii != jj && translatable_table()[ii] == server
                && #[trigger] hops_available(steps@, hop_path(translatable_table(), ii, jj))
                implies reg.spec_chain(translatable_table()[jj]) is Some by {
                lemma_table_unique(ii, i as int);
                let c = choose|c: int| 0 <= c < chains@.len() && #[trigger] chains@[c].client_protocol == table@[jj];
                lemma_first_chain_exists(reg, c, table@[jj]);
            }
        }
        reg
    }
}

proof fn lemma_table_unique(a: int, b: int)
    requires
        0 <= a < translatable_table().len(),
        0 <= b < translatable_table().len(),
        translatable_table()[a] == translatable_table()[b],
    ensures
        a == b,
{
}

proof fn lemma_first_chain_exists(reg: Registry, c: int, protocol: u32)
    requires
        0 <= c < reg.chains@.len(),
        reg.chains@[c].client_protocol == protocol,
    ensures
        reg.spec_chain(protocol) is Some,
    decreases c,
{
    if exists|e: int| 0 <= e < c && reg.chains@[e].client_protocol == protocol {
        let e = choose|e: int| 0 <= e < c && reg.chains@[e].client_protocol == protocol;
        lemma_first_chain_exists(reg, e, protocol);
    } else {
        assert(reg.is_first_chain(c, protocol));
    }
}

} // verus!
