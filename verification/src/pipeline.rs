//! One packet through the steps that apply to it: the base steps, then the
//! chain for the client's protocol.
use vstd::prelude::*;
use crate::connection::{after_note, texts, ConnState};
use crate::direction::Direction;
use crate::handler::{apply, spec_apply, spec_note};
use crate::manager::{Registry, chain_below, indices_below};
use crate::sound_events::SoundTable;
use crate::text::{decimal, hex_byte, push_char, push_decimal, push_hex_byte};
use crate::translator::Translator;
use crate::versions::{describe, spec_describe};
use crate::wrapper::{finished, start, PacketWrapper};

verus! {

/// What becomes of a packet.
#[derive(Debug, Clone, PartialEq, Eq)]
pub enum Outcome {
    /// Forwarded as it came.
    Unchanged,
    /// Forwarded with this body.
    Rewritten(Vec<u8>),
    /// Not forwarded.
    Drop,
}

/// What becomes of a packet, as values.
pub enum OutcomeView {
    Unchanged,
    Rewritten(Seq<u8>),
    Drop,
}

impl Outcome {
    pub open spec fn view(&self) -> OutcomeView {
        match self {
            Outcome::Unchanged => OutcomeView::Unchanged,
            Outcome::Rewritten(b) => OutcomeView::Rewritten(b@),
            Outcome::Drop => OutcomeView::Drop,
        }
    }
}

/// The outcome of a packet and the messages to report with it.
pub struct Translation {
    pub outcome: Outcome,
    pub notices: Vec<String>,
}


impl Translation {
    /// An outcome with nothing to report.
    pub fn plain(outcome: Outcome) -> (t: Translation)
        ensures
            t.outcome == outcome,
            t.notices@.len() == 0,
    {
        Translation { outcome, notices: Vec::new() }
    }
}

/// The first `n` bytes of `bytes` in lower-case hex, separated by spaces.
pub open spec fn spec_hex_head(bytes: Seq<u8>, n: nat) -> Seq<char>
    decreases n,
{
    let k = if n < bytes.len() { n } else { bytes.len() };
    if k == 0 {
        Seq::empty()
    } else if k == 1 {
        hex_byte(bytes[0])
    } else {
        spec_hex_head(bytes, (k - 1) as nat) + " "@ + hex_byte(bytes[k - 1])
    }
}

/// The first `n` bytes of `bytes` in lower-case hex, separated by spaces.
pub fn hex_head(bytes: &[u8], n: usize) -> (s: String)
    ensures
        s@ == spec_hex_head(bytes@, n as nat),
{
    let k = if n < bytes.len() { n } else { bytes.len() };
    let mut s = String::new();
    let mut i: usize = 0;
    proof {
        reveal_strlit(" ");
    }
    while i < k
        invariant
            k <= bytes@.len(),
            k <= n,
            i <= k,
            s@ == spec_hex_head(bytes@, i as nat),
        decreases k - i,
    {
        if i > 0 {
            push_char(&mut s, ' ');
        }
        push_hex_byte(&mut s, bytes[i]);
        proof {
            reveal_strlit(" ");
            if i > 0 {
                assert(s@ =~= spec_hex_head(bytes@, i as nat) + " "@ + hex_byte(bytes@[i as int]));
            } else {
                assert(s@ =~= hex_byte(bytes@[0]));
            }
        }
        i = i + 1;
    }
    proof {
        if k < n {
            assert(spec_hex_head(bytes@, n as nat) == spec_hex_head(bytes@, k as nat));
        }
    }
    s
}

/// How a run of steps ends.
pub enum RunResult {
    /// Every step let the packet through; the body so far, if rewritten.
    Continue(Option<Seq<u8>>),
    /// A step dropped the packet.
    Dropped,
    /// The step at this index could not rewrite the packet.
    Failed(int),
}

/// The body a step sees: the last rewrite, or the original.
pub open spec fn input_of(original: Seq<u8>, current: Option<Seq<u8>>) -> Seq<u8> {
    match current {
        Some(b) => b,
        None => original,
    }
}

/// The steps `order` (indices into `steps`) run in turn on a packet going
/// `d` with id `id`: a step that cancels the id drops the packet; a step
/// with a handler for it rewrites the body, and fails when the body is
/// malformed or drops it when the handler cancels; other steps pass it on.
pub open spec fn spec_run(
    steps: Seq<Translator>,
    sounds: Seq<(u32, Seq<char>)>,
    order: Seq<usize>,
    d: Direction,
    id: u16,
    original: Seq<u8>,
    current: Option<Seq<u8>>,
) -> RunResult
    decreases order.len(),
{
    if order.len() == 0 {
        RunResult::Continue(current)
    } else {
        let t = steps[order[0] as int];
        if t.cancels(d).contains(id) {
            RunResult::Dropped
        } else if !t.handlers(d).contains_key(id) {
            spec_run(steps, sounds, order.drop_first(), d, id, original, current)
        } else {
            match spec_apply(t.handlers(d)[id], start(input_of(original, current)), sounds) {
                None => RunResult::Failed(order[0] as int),
                Some(st) => if st.cancelled {
                    RunResult::Dropped
                } else {
                    spec_run(steps, sounds, order.drop_first(), d, id, original, Some(finished(st)))
                },
            }
        }
    }
}

/// The messages the handlers met by `spec_run` leave for the connection,
/// and the ids of the once-only ones, starting from `notes`.
pub open spec fn spec_run_notes(
    steps: Seq<Translator>,
    sounds: Seq<(u32, Seq<char>)>,
    order: Seq<usize>,
    d: Direction,
    id: u16,
    original: Seq<u8>,
    current: Option<Seq<u8>>,
    notes: (Seq<Seq<char>>, Seq<u16>),
) -> (Seq<Seq<char>>, Seq<u16>)
    decreases order.len(),
{
    if order.len() == 0 {
        notes
    } else {
        let t = steps[order[0] as int];
        if t.cancels(d).contains(id) {
            notes
        } else if !t.handlers(d).contains_key(id) {
            spec_run_notes(steps, sounds, order.drop_first(), d, id, original, current, notes)
        } else {
            let h = t.handlers(d)[id];
            let st0 = start(input_of(original, current));
            let noted = after_note(notes.0, notes.1, spec_note(h, st0));
            match spec_apply(h, st0, sounds) {
                None => noted,
                Some(st) => if st.cancelled {
                    noted
                } else {
                    spec_run_notes(steps, sounds, order.drop_first(), d, id, original, Some(finished(st)), noted)
                },
            }
        }
    }
}

/// The message of a step that could not rewrite a packet.
pub open spec fn failure_notice(step_name: Seq<char>, d: Direction, id: u16) -> Seq<char> {
    step_name + ": failed to translate "@ + (match d {
        Direction::Clientbound => "clientbound"@,
        Direction::Serverbound => "serverbound"@,
    }) + " packet "@ + decimal(id as nat) + ": malformed body"@
}

/// The message of a client whose protocol no chain serves.
pub open spec fn no_path_notice(client: u32, server: u32) -> Seq<char> {
    "no translation path from "@ + spec_describe(client) + " to "@ + spec_describe(server)
        + "; forwarding untranslated"@
}

fn push_failure_notice(notices: &mut Vec<String>, step_name: &'static str, d: Direction, id: u16)
    ensures
        final(notices)@.len() == old(notices)@.len() + 1,
        texts(final(notices)@) == texts(old(notices)@).push(failure_notice(step_name@, d, id)),
{
    let mut s = String::new();
    s.append(step_name);
    s.append(": failed to translate ");
    s.append(d.as_str());
    s.append(" packet ");
    push_decimal(&mut s, id as u32);
    s.append(": malformed body");
    assert(s@ =~= failure_notice(step_name@, d, id));
    notices.push(s);
    assert(texts(final(notices)@) =~= texts(old(notices)@).push(failure_notice(step_name@, d, id)));
}

pub open spec fn opt_view(o: Option<Vec<u8>>) -> Option<Seq<u8>> {
    match o {
        Some(v) => Some(v@),
        None => None,
    }
}

/// What `run_steps` reports.
#[derive(Debug, Clone, Copy, PartialEq, Eq)]
pub enum StepFlow {
    Continue,
    Drop,
    Failed,
}

/// Runs the steps `order` on a packet; `current` holds the body as last
/// rewritten, and a failing step adds its message to `notices`. Messages
/// the handlers leave for the connection go to `pending`, and `reported`
/// keeps the ids of the once-only ones.
pub fn run_steps(
    steps: &Vec<Translator>,
    sounds: &SoundTable,
    order: &Vec<usize>,
    direction: Direction,
    packet_id: u16,
    original: &[u8],
    current: &mut Option<Vec<u8>>,
    notices: &mut Vec<String>,
    pending: &mut Vec<String>,
    reported: &mut Vec<u16>,
) -> (r: StepFlow)
    requires
        forall|i: int| 0 <= i < steps@.len() ==> (#[trigger] steps@[i]).wf(),
        indices_below(order@, steps@.len()),
        sounds.wf(),
    ensures
        match spec_run(steps@, sounds@, order@, direction, packet_id, original@, opt_view(*old(current))) {
            RunResult::Continue(c) => r == StepFlow::Continue && opt_view(*final(current)) == c
                && final(notices)@ == old(notices)@,
            RunResult::Dropped => r == StepFlow::Drop && final(notices)@ == old(notices)@,
            RunResult::Failed(k) => r == StepFlow::Failed && texts(final(notices)@) == texts(
                old(notices)@,
            ).push(failure_notice(steps@[k].name@, direction, packet_id)),
        },
        (texts(final(pending)@), final(reported)@) == spec_run_notes(
            steps@,
            sounds@,
            order@,
            direction,
            packet_id,
            original@,
            opt_view(*old(current)),
            (texts(old(pending)@), old(reported)@),
        ),
{
    let ghost goal = spec_run(steps@, sounds@, order@, direction, packet_id, original@, opt_view(*current));
    let ghost goal_notes = spec_run_notes(
        steps@,
        sounds@,
        order@,
        direction,
        packet_id,
        original@,
        opt_view(*current),
        (texts(pending@), reported@),
    );
    let mut i: usize = 0;
    assert(order@.skip(0) =~= order@);
    while i < order.len()
        invariant
            forall|j: int| 0 <= j < steps@.len() ==> (#[trigger] steps@[j]).wf(),
            indices_below(order@, steps@.len()),
            sounds.wf(),
            i <= order@.len(),
            goal == spec_run(steps@, sounds@, order@, direction, packet_id, original@, opt_view(*old(current))),
            goal == spec_run(steps@, sounds@, order@.skip(i as int), direction, packet_id, original@, opt_view(*current)),
            goal_notes == spec_run_notes(
                steps@,
                sounds@,
                order@,
                direction,
                packet_id,
                original@,
                opt_view(*old(current)),
                (texts(old(pending)@), old(reported)@),
            ),
            goal_notes == spec_run_notes(
                steps@,
                sounds@,
                order@.skip(i as int),
                direction,
                packet_id,
                original@,
                opt_view(*current),
                (texts(pending@), reported@),
            ),
            notices@ == old(notices)@,
        decreases order@.len() - i,
    {
        let ghost tail = order@.skip(i as int);
        assert(tail[0] == order@[i as int]);
        assert(tail.drop_first() =~= order@.skip(i + 1));
        let k = order[i];
        assert(order@[i as int] < steps@.len());
        let step = &steps[k];
        if step.is_cancelled(direction, packet_id) {
            return StepFlow::Drop;
        }
        match step.handler(direction, packet_id) {
            None => {},
            Some(h) => {
                let produced = {
                    let input: &[u8] = match current {
                        Some(v) => v.as_slice(),
                        None => original,
                    };
                    let mut w = PacketWrapper::new(input);
                    match apply(h, &mut w, sounds, pending, reported) {
                        Ok(()) => {
                            if w.is_cancelled() {
                                return StepFlow::Drop;
                            }
                            w.finish()
                        },
                        Err(_) => {
                            push_failure_notice(notices, step.name, direction, packet_id);
                            return StepFlow::Failed;
                        },
                    }
                };
                *current = Some(produced);
            },
        }
        i = i + 1;
    }
    assert(order@.skip(order@.len() as int) =~= Seq::<usize>::empty());
    StepFlow::Continue
}

/// What `translate_inner` makes of a packet: the outcome, the messages, and
/// whether the connection has been told of a missing path; the messages
/// `left` pending on the connection for a later packet, and the ids whose
/// once-only message has been given.
pub struct TranslateResult {
    pub outcome: OutcomeView,
    pub notices: Seq<Seq<char>>,
    pub warned: bool,
    pub left: Seq<Seq<char>>,
    pub reported: Seq<u16>,
}

/// The end of a translation that every step let through: the pending
/// messages `notes.0` follow the translation's own.
pub open spec fn spec_finish(
    current: Option<Seq<u8>>,
    notices: Seq<Seq<char>>,
    notes: (Seq<Seq<char>>, Seq<u16>),
    warned: bool,
) -> TranslateResult {
    TranslateResult {
        outcome: match current {
            Some(b) => OutcomeView::Rewritten(b),
            None => OutcomeView::Unchanged,
        },
        notices: notices + notes.0,
        warned,
        left: Seq::empty(),
        reported: notes.1,
    }
}

/// The end of a translation that a step stopped; the pending messages stay
/// on the connection.
pub open spec fn spec_stopped(
    steps: Seq<Translator>,
    r: RunResult,
    d: Direction,
    id: u16,
    warned: bool,
    notes: (Seq<Seq<char>>, Seq<u16>),
) -> TranslateResult {
    match r {
        RunResult::Failed(k) => TranslateResult {
            outcome: OutcomeView::Unchanged,
            notices: seq![failure_notice(steps[k].name@, d, id)],
            warned,
            left: notes.0,
            reported: notes.1,
        },
        _ => TranslateResult {
            outcome: OutcomeView::Drop,
            notices: Seq::empty(),
            warned,
            left: notes.0,
            reported: notes.1,
        },
    }
}

/// The steps of chain `c` for packets going `d`.
pub open spec fn chain_order(reg: Registry, c: int, d: Direction) -> Seq<usize> {
    match d {
        Direction::Clientbound => reg.chains@[c].clientbound@,
        Direction::Serverbound => reg.chains@[c].serverbound@,
    }
}

/// One packet through a registry: first the base steps; then, for an
/// identified client that speaks another protocol than the server, the
/// chain for its protocol, or, when there is none, a message the first
/// time; then the connection's pending messages, with those the handlers
/// left, are appended. A packet that a step stops leaves them pending.
pub open spec fn spec_translate_inner(
    reg: Registry,
    client_protocol: u32,
    server_protocol: u32,
    identified: bool,
    warned: bool,
    pending: Seq<Seq<char>>,
    reported: Seq<u16>,
    d: Direction,
    id: u16,
    body: Seq<u8>,
) -> TranslateResult {
    let n1 = spec_run_notes(reg.steps@, reg.sounds@, reg.base@, d, id, body, None, (pending, reported));
    match spec_run(reg.steps@, reg.sounds@, reg.base@, d, id, body, None) {
        RunResult::Continue(c1) => if identified && client_protocol != server_protocol {
            match reg.spec_chain(client_protocol) {
                Some(c) => {
                    let n2 = spec_run_notes(reg.steps@, reg.sounds@, chain_order(reg, c, d), d, id, body, c1, n1);
                    match spec_run(reg.steps@, reg.sounds@, chain_order(reg, c, d), d, id, body, c1) {
                        RunResult::Continue(c2) => spec_finish(c2, Seq::empty(), n2, warned),
                        r => spec_stopped(reg.steps@, r, d, id, warned, n2),
                    }
                },
                None => if !warned {
                    spec_finish(c1, seq![no_path_notice(client_protocol, server_protocol)], n1, true)
                } else {
                    spec_finish(c1, Seq::empty(), n1, true)
                },
            }
        } else {
            spec_finish(c1, Seq::empty(), n1, warned)
        },
        r => spec_stopped(reg.steps@, r, d, id, warned, n1),
    }
}

/// Translates one packet body through the registry's steps.
pub fn translate_inner(
    registry: &Registry,
    state: &mut ConnState,
    direction: Direction,
    packet_id: u16,
    body: &[u8],
) -> (t: Translation)
    requires
        registry.wf(),
    ensures
        ({
            let r = spec_translate_inner(
                *registry,
                old(state).client_protocol,
                old(state).server_protocol,
                old(state).identified,
                old(state).warned_unsupported,
                texts(old(state).notices@),
                old(state).reported@,
                direction,
                packet_id,
                body@,
            );
            &&& t.outcome@ == r.outcome
            &&& texts(t.notices@) == r.notices
            &&& final(state).warned_unsupported == r.warned
            &&& texts(final(state).notices@) == r.left
            &&& final(state).reported@ == r.reported
            &&& final(state).client_protocol == old(state).client_protocol
            &&& final(state).server_protocol == old(state).server_protocol
            &&& final(state).identified == old(state).identified
        }),
{
    let mut current: Option<Vec<u8>> = None;
    let mut notices: Vec<String> = Vec::new();
    assert(texts(notices@) =~= Seq::<Seq<char>>::empty());

    match run_steps(
        &registry.steps,
        &registry.sounds,
        &registry.base,
        direction,
        packet_id,
        body,
        &mut current,
        &mut notices,
        &mut state.notices,
        &mut state.reported,
    ) {
        StepFlow::Continue => {},
        StepFlow::Drop => {
            return Translation { outcome: Outcome::Drop, notices };
        },
        StepFlow::Failed => {
            return Translation { outcome: Outcome::Unchanged, notices };
        },
    }
    let ghost c1 = opt_view(current);

    if state.is_identified() && !state.is_native() {
        match registry.chain(state.client_protocol) {
            Some(chain) => {
                let ghost ci = registry.spec_chain(state.client_protocol).unwrap();
                let steps = match direction {
                    Direction::Serverbound => &chain.serverbound,
                    Direction::Clientbound => &chain.clientbound,
                };
                assert(chain_below(registry.chains@[ci], registry.steps@.len()));
                assert(steps@ == chain_order(*registry, ci, direction));
                match run_steps(
                    &registry.steps,
                    &registry.sounds,
                    steps,
                    direction,
                    packet_id,
                    body,
                    &mut current,
                    &mut notices,
                    &mut state.notices,
                    &mut state.reported,
                ) {
                    StepFlow::Continue => {},
                    StepFlow::Drop => {
                        return Translation { outcome: Outcome::Drop, notices };
                    },
                    StepFlow::Failed => {
                        return Translation { outcome: Outcome::Unchanged, notices };
                    },
                }
            },
            None => {
                if !state.warned_unsupported {
                    state.warned_unsupported = true;
                    let mut s = String::new();
                    s.append("no translation path from ");
                    let client = describe(state.client_protocol);
                    s.append(client.as_str());
                    s.append(" to ");
                    let server = describe(state.server_protocol);
                    s.append(server.as_str());
                    s.append("; forwarding untranslated");
                    assert(s@ =~= no_path_notice(state.client_protocol, state.server_protocol));
                    notices.push(s);
                    assert(texts(notices@) =~= seq![no_path_notice(state.client_protocol, state.server_protocol)]);
                } else {
                    state.warned_unsupported = true;
                }
            },
        }
    }

    let ghost before = notices@;
    let ghost left = state.notices@;
    if state.notices.len() > 0 {
        notices.append(&mut state.notices);
    }
    assert(texts(notices@) =~= texts(before) + texts(left));
    assert(texts(state.notices@) =~= Seq::<Seq<char>>::empty());

    match current {
        Some(bytes) => Translation { outcome: Outcome::Rewritten(bytes), notices },
        None => {
            if notices.len() == 0 {
                Translation::plain(Outcome::Unchanged)
            } else {
                Translation { outcome: Outcome::Unchanged, notices }
            }
        },
    }
}

/// A packet that no step of `order` cancels or rewrites comes through as
/// it went in.
pub proof fn law_untouched_packets_pass(
    steps: Seq<Translator>,
    sounds: Seq<(u32, Seq<char>)>,
    order: Seq<usize>,
    d: Direction,
    id: u16,
    original: Seq<u8>,
    current: Option<Seq<u8>>,
)
    requires
        forall|k: int| 0 <= k < order.len() ==> !(#[trigger] steps[order[k] as int]).cancels(d).contains(id)
            && !steps[order[k] as int].handlers(d).contains_key(id),
    ensures
        spec_run(steps, sounds, order, d, id, original, current) == RunResult::Continue(current),
    decreases order.len(),
{
    if order.len() > 0 {
        assert forall|k: int| 0 <= k < order.drop_first().len() implies !(#[trigger] steps[order.drop_first()[k] as int]).cancels(d).contains(id)
            && !steps[order.drop_first()[k] as int].handlers(d).contains_key(id) by {
            assert(order.drop_first()[k] == order[k + 1]);
        }
        let t = steps[order[0] as int];
        assert(!t.cancels(d).contains(id));
        law_untouched_packets_pass(steps, sounds, order.drop_first(), d, id, original, current);
    }
}

/// A packet is dropped by the first step of `order` that touches its id,
/// when that step cancels it.
pub proof fn law_cancelled_packets_drop(
    steps: Seq<Translator>,
    sounds: Seq<(u32, Seq<char>)>,
    order: Seq<usize>,
    d: Direction,
    id: u16,
    original: Seq<u8>,
    current: Option<Seq<u8>>,
    k: int,
)
    requires
        0 <= k < order.len(),
        steps[order[k] as int].cancels(d).contains(id),
        forall|j: int| 0 <= j < k ==> !(#[trigger] steps[order[j] as int]).cancels(d).contains(id)
            && !steps[order[j] as int].handlers(d).contains_key(id),
    ensures
        spec_run(steps, sounds, order, d, id, original, current) == RunResult::Dropped,
    decreases k,
{
    if k > 0 {
        let rest = order.drop_first();
        assert(rest[k - 1] == order[k]);
        assert forall|j: int| 0 <= j < k - 1 implies !(#[trigger] steps[rest[j] as int]).cancels(d).contains(id)
            && !steps[rest[j] as int].handlers(d).contains_key(id) by {
            assert(rest[j] == order[j + 1]);
        }
        let t = steps[order[0] as int];
        assert(!t.cancels(d).contains(id));
        law_cancelled_packets_drop(steps, sounds, rest, d, id, original, current, k - 1);
    }
}

/// A client that speaks the server's protocol, or has not said which it
/// speaks, only meets the base steps.
pub proof fn law_native_clients_meet_only_the_base_steps(
    reg: Registry,
    client_protocol: u32,
    server_protocol: u32,
    identified: bool,
    warned: bool,
    pending: Seq<Seq<char>>,
    reported: Seq<u16>,
    d: Direction,
    id: u16,
    body: Seq<u8>,
)
    requires
        !identified || client_protocol == server_protocol,
    ensures
        ({
            let n = spec_run_notes(reg.steps@, reg.sounds@, reg.base@, d, id, body, None, (pending, reported));
            spec_translate_inner(reg, client_protocol, server_protocol, identified, warned, pending, reported, d, id, body)
                == match spec_run(reg.steps@, reg.sounds@, reg.base@, d, id, body, None) {
                    RunResult::Continue(c) => spec_finish(c, Seq::empty(), n, warned),
                    r => spec_stopped(reg.steps@, r, d, id, warned, n),
                }
        }),
{
}

} // verus!
