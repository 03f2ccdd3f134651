//! Deterministic virtual BGP event engine.
//!
//! * the virtual event queue is ordered by tick and, within a tick, by the order of
//!   scheduling, so that replaying the same scenario always yields the same convergence
//!   trace fingerprint;
//! * non-convergence is only announced when a recurring global-state signature proves a
//!   cycle; hitting the iteration cap produces an `inconclusive` verdict instead.

use crate::fingerprint::{fingerprint, fingerprint_and_id, ENGINE_VERSION};
use crate::json::{has_member, has_size, JsonView, Members, ToJson};
use crate::model::{
    Announcement, AnnouncementView, EventSpec, EventSpecView, NodeId, NodeSpec, NodeSpecView,
    Prefix, Provenance, Route, RouteView, ScenarioInput, ScenarioInputView, Session, SessionView,
};
use crate::ordmap::{in_order, OrdMap};
use crate::queue::{due, pop, schedule, scheduled, MsgKind, Scheduled, ScheduledView};
use crate::rib::{find_link, fresh, fresh_node, link, lookup, RtNode, RtNodeView};
use crate::signature::{signature, state_signature};
use crate::step::{
    all_deliverable, current_tick, deliverable, dispatch, known_egress,
    law_processing_keeps_state_sound, lemma_scheduled_deliverable, now, processed, restartable,
    served, sound, State, StateView,
};
use crate::text::{decimal, usize_text, Chars};
use crate::value::{append, Value};
use vstd::prelude::*;

pub use crate::evidence::{
    AdvertisedRoute, AdvertisedRouteView, BestEntry, BestEntryView, CycleProof, CycleProofView,
    ExportRecord, ExportRecordView, LoopEvidence, LoopEvidenceView, NodeState, NodeStateView,
    ReceiveRecord, ReceiveRecordView, RunResult, RunResultView, RunStatus, Step, StepKind, StepView,
    SuppressionEvidence, SuppressionEvidenceView,
};

verus! {

// ---------- start ----------

/// Whether a scenario can run: what its sessions, announcements and restarts name is there.
pub open spec fn runnable(input: ScenarioInputView) -> bool {
    let nodes = input.nodes.dom();
    &&& served(nodes, input.sessions)
    &&& forall|i: int|
        0 <= i < input.announcements.len() ==> nodes.contains(
            (#[trigger] input.announcements[i]).node,
        )
    &&& forall|i: int|
        0 <= i < input.events.len() ==> match #[trigger] input.events[i] {
            EventSpecView::Withdraw { .. } => true,
            EventSpecView::Restart { node, .. } => restartable(nodes, input.sessions, node),
        }
}

/// The nodes before anything has happened.
pub open spec fn idle_nodes(nodes: Map<Chars, NodeSpecView>) -> Map<Chars, RtNodeView> {
    nodes.map_values(|spec: NodeSpecView| fresh(spec))
}

/// The message that injects an announcement at tick 0.
pub open spec fn injection(
    ann: AnnouncementView,
    nodes: Map<Chars, NodeSpecView>,
) -> ScheduledView {
    ScheduledView {
        tick: 0,
        kind: MsgKind::OriginInject,
        node: ann.node,
        session: None,
        prefix: Some(ann.prefix),
        route: Some(
            RouteView {
                prefix: ann.prefix,
                as_path: Seq::empty(),
                local_pref: ann.local_pref,
                med: ann.med,
                communities: ann.communities,
                provenance: Provenance::Origin,
                ingress_session: None,
                first_as: Some(nodes[ann.node].asn),
            },
        ),
        stale: false,
    }
}

/// The first announcement with an id.
pub open spec fn announcement_of(
    announcements: Seq<AnnouncementView>,
    id: Chars,
) -> Option<AnnouncementView>
    decreases announcements.len(),
{
    if announcements.len() == 0 {
        None
    } else if announcements[0].id == id {
        Some(announcements[0])
    } else {
        announcement_of(announcements.drop_first(), id)
    }
}

/// The message of an event; a withdrawal of an unknown announcement has none.
pub open spec fn event_message(
    event: EventSpecView,
    announcements: Seq<AnnouncementView>,
) -> Option<ScheduledView> {
    match event {
        EventSpecView::Withdraw { announcement, tick, .. } => match announcement_of(
            announcements,
            announcement,
        ) {
            Some(ann) => Some(
                ScheduledView {
                    tick,
                    kind: MsgKind::OriginWithdraw,
                    node: ann.node,
                    session: None,
                    prefix: Some(ann.prefix),
                    route: None,
                    stale: false,
                },
            ),
            None => None,
        },
        EventSpecView::Restart { node, tick, .. } => Some(
            ScheduledView {
                tick,
                kind: MsgKind::Restart,
                node,
                session: None,
                prefix: None,
                route: None,
                stale: false,
            },
        ),
    }
}

/// The queue with the injections of some announcements.
pub open spec fn injections(
    announcements: Seq<AnnouncementView>,
    nodes: Map<Chars, NodeSpecView>,
) -> Seq<ScheduledView>
    decreases announcements.len(),
{
    if announcements.len() == 0 {
        Seq::empty()
    } else {
        scheduled(
            injections(announcements.drop_last(), nodes),
            injection(announcements.last(), nodes),
        )
    }
}

/// The queue with the messages of some events behind what it holds.
pub open spec fn with_events(
    events: Seq<EventSpecView>,
    announcements: Seq<AnnouncementView>,
    queue: Seq<ScheduledView>,
) -> Seq<ScheduledView>
    decreases events.len(),
{
    if events.len() == 0 {
        queue
    } else {
        let before = with_events(events.drop_last(), announcements, queue);
        match event_message(events.last(), announcements) {
            Some(m) => scheduled(before, m),
            None => before,
        }
    }
}

/// The global state that a scenario starts from: all announcements queued at tick 0, and
/// behind them the exogenous events.
pub open spec fn start(input: ScenarioInputView) -> StateView {
    StateView {
        nodes: idle_nodes(input.nodes),
        queue: with_events(
            input.events,
            input.announcements,
            injections(input.announcements, input.nodes),
        ),
        steps: Seq::empty(),
    }
}

/// Finds an announcement by its id.
pub fn find_announcement<'a>(announcements: &'a Vec<Announcement>, id: &String) -> (r: Option<
    &'a Announcement,
>)
    ensures
        r is Some <==> announcement_of(announcements.deep_view(), id@) is Some,
        r matches Some(a) ==> announcement_of(announcements.deep_view(), id@) == Some(a@),
{
    let ghost all = announcements.deep_view();
    let mut i: usize = 0;
    assert(all.skip(0) =~= all);
    while i < announcements.len()
        invariant
            i <= announcements@.len(),
            all == announcements.deep_view(),
            announcement_of(all, id@) == announcement_of(all.skip(i as int), id@),
        decreases announcements.len() - i,
    {
        assert(all.skip(i as int)[0] == announcements@[i as int]@);
        assert(all.skip(i as int).drop_first() =~= all.skip(i + 1));
        if announcements[i].id.same(id) {
            return Some(&announcements[i]);
        }
        i += 1;
    }
    None
}

/// An announcement that was found is there, under its id.
pub proof fn lemma_announcement_of(announcements: Seq<AnnouncementView>, id: Chars)
    requires
        announcement_of(announcements, id) is Some,
    ensures
        announcements.contains(announcement_of(announcements, id)->0),
        (announcement_of(announcements, id)->0).id == id,
    decreases announcements.len(),
{
    if announcements[0].id == id {
        assert(announcements.contains(announcements[0]));
    } else {
        let rest = announcements.drop_first();
        lemma_announcement_of(rest, id);
        let a = announcement_of(rest, id)->0;
        let i = choose|i: int| 0 <= i < rest.len() && rest[i] == a;
        assert(announcements[i + 1] == a);
    }
}

fn inject_all(input: &ScenarioInput) -> (queue: Vec<Scheduled>)
    requires
        runnable(input@),
    ensures
        queue.deep_view() == injections(input@.announcements, input@.nodes),
{
    let ghost all = input@.announcements;
    let mut queue: Vec<Scheduled> = Vec::new();
    let mut i: usize = 0;
    assert(queue.deep_view() =~= injections(all.take(0), input@.nodes));
    while i < input.announcements.len()
        invariant
            i <= input.announcements@.len(),
            all == input@.announcements,
            runnable(input@),
            queue.deep_view() == injections(all.take(i as int), input@.nodes),
        decreases input.announcements.len() - i,
    {
        let ann = &input.announcements[i];
        proof {
            assert(all[i as int] == ann@);
            assert(all.take(i + 1).drop_last() =~= all.take(i as int));
            assert(input@.nodes.dom().contains(input@.announcements[i as int].node));
        }
        if let Some(spec) = input.nodes.get(&ann.node) {
            let as_path: Vec<u32> = Vec::new();
            assert(as_path.deep_view() =~= Seq::empty());
            let route = Route {
                prefix: ann.prefix.clone(),
                as_path,
                local_pref: ann.local_pref,
                med: ann.med,
                communities: ann.communities.copy(),
                provenance: Provenance::Origin,
                ingress_session: None,
                first_as: Some(spec.asn),
            };
            let m = Scheduled {
                tick: 0,
                kind: MsgKind::OriginInject,
                node: ann.node.clone(),
                session: None,
                prefix: Some(ann.prefix.clone()),
                route: Some(route),
                stale: false,
            };
            assert(m@ =~= injection(ann@, input@.nodes));
            schedule(&mut queue, m);
        }
        i += 1;
    }
    assert(all.take(i as int) =~= all);
    queue
}

fn event_scheduled(event: &EventSpec, announcements: &Vec<Announcement>) -> (r: Option<Scheduled>)
    ensures
        r.deep_view() == event_message(event@, announcements.deep_view()),
{
    match event {
        EventSpec::Withdraw { announcement, tick, .. } => match find_announcement(
            announcements,
            announcement,
        ) {
            Some(ann) => Some(
                Scheduled {
                    tick: *tick,
                    kind: MsgKind::OriginWithdraw,
                    node: ann.node.clone(),
                    session: None,
                    prefix: Some(ann.prefix.clone()),
                    route: None,
                    stale: false,
                },
            ),
            None => None,
        },
        EventSpec::Restart { node, tick, .. } => Some(
            Scheduled {
                tick: *tick,
                kind: MsgKind::Restart,
                node: node.clone(),
                session: None,
                prefix: None,
                route: None,
                stale: false,
            },
        ),
    }
}

fn schedule_events(input: &ScenarioInput, queue: &mut Vec<Scheduled>)
    ensures
        final(queue).deep_view() == with_events(
            input@.events,
            input@.announcements,
            old(queue).deep_view(),
        ),
{
    let ghost all = input@.events;
    let ghost before = queue.deep_view();
    let mut i: usize = 0;
    while i < input.events.len()
        invariant
            i <= input.events@.len(),
            all == input@.events,
            queue.deep_view() == with_events(all.take(i as int), input@.announcements, before),
        decreases input.events.len() - i,
    {
        proof {
            assert(all.take(i + 1).last() == input.events@[i as int]@);
            assert(all.take(i + 1).drop_last() =~= all.take(i as int));
        }
        if let Some(m) = event_scheduled(&input.events[i], &input.announcements) {
            schedule(queue, m);
        }
        i += 1;
    }
    assert(all.take(i as int) =~= all);
}

fn idle(nodes: &OrdMap<NodeId, NodeSpec>) -> (r: OrdMap<NodeId, RtNode>)
    ensures
        r@ == idle_nodes(nodes@),
{
    let ghost keys = in_order::<String>(nodes@.dom());
    let mut out: OrdMap<NodeId, RtNode> = OrdMap::new();
    let n = nodes.len();
    let mut i: usize = 0;
    while i < n
        invariant
            i <= n,
            n == keys.len(),
            keys == in_order::<String>(nodes@.dom()),
            keys.to_set() == nodes@.dom(),
            forall|k: Chars| #[trigger]
                out@.dom().contains(k) <==> exists|j: int| 0 <= j < i && #[trigger] keys[j] == k,
            forall|k: Chars| #[trigger]
                out@.dom().contains(k) ==> nodes@.dom().contains(k) && out@[k] == fresh(nodes@[k]),
        decreases n - i,
    {
        let ghost before = out@;
        out.insert(nodes.key_at(i).clone(), fresh_node(nodes.value_at(i)));
        proof {
            assert forall|k: Chars| #[trigger] out@.dom().contains(k) <==> exists|j: int|
                0 <= j < i + 1 && #[trigger] keys[j] == k by {
                if before.dom().contains(k) {
                    let j = choose|j: int| 0 <= j < i && #[trigger] keys[j] == k;
                    assert(0 <= j < i + 1 && keys[j] == k);
                }
                if k == keys[i as int] {
                    assert(0 <= i < i + 1 && keys[i as int] == k);
                }
            }
        }
        i += 1;
    }
    proof {
        assert forall|k: Chars| nodes@.dom().contains(k) implies out@.dom().contains(k) by {
            assert(keys.to_set().contains(k));
            let j = choose|j: int| 0 <= j < keys.len() && keys[j] == k;
            assert(0 <= j < i && keys[j] == k);
        }
        assert(out@ =~= idle_nodes(nodes@));
    }
    out
}

// ---------- run ----------

/// How a run ended: the state, the number of messages processed, the verdict and its
/// evidence.
#[verifier::ext_equal]
pub struct Ending {
    pub state: StateView,
    pub messages: usize,
    pub status: RunStatus,
    pub cycle: Option<CycleProofView>,
    pub reason: Option<Chars>,
}

/// Why a run that reached the safety cap is not called non-convergent.
pub open spec fn cap_reason(cap: usize) -> Chars {
    "safety cap of "@ + decimal(cap as int)
        + " messages reached without stability or a recurring-state proof; this is NOT declared non-convergence"@
}

/// The nodes of the steps in an interval.
pub open spec fn involved_nodes(steps: Seq<StepView>, after: usize, upto: usize) -> Set<Chars>
    decreases steps.len(),
{
    if steps.len() == 0 {
        Set::empty()
    } else {
        let before = involved_nodes(steps.drop_last(), after, upto);
        if after < steps.last().seq <= upto {
            before.insert(steps.last().node)
        } else {
            before
        }
    }
}

/// The prefixes of the steps in an interval.
pub open spec fn involved_prefixes(steps: Seq<StepView>, after: usize, upto: usize) -> Set<Chars>
    decreases steps.len(),
{
    if steps.len() == 0 {
        Set::empty()
    } else {
        let before = involved_prefixes(steps.drop_last(), after, upto);
        match steps.last().prefix {
            Some(p) => if after < steps.last().seq <= upto {
                before.insert(p)
            } else {
                before
            },
            None => before,
        }
    }
}

/// The numbers of the steps in an interval.
pub open spec fn cycle_numbers(steps: Seq<StepView>, after: usize, upto: usize) -> Seq<usize>
    decreases steps.len(),
{
    if steps.len() == 0 {
        Seq::empty()
    } else {
        let before = cycle_numbers(steps.drop_last(), after, upto);
        if after < steps.last().seq <= upto {
            before.push(steps.last().seq)
        } else {
            before
        }
    }
}

/// The proof that a global state recurred: its signature, where it was seen, and what
/// happened in between.
pub open spec fn recurrence(
    steps: Seq<StepView>,
    sig: Chars,
    first: (usize, u64),
    again: (usize, u64),
) -> CycleProofView {
    CycleProofView {
        state_signature: sig,
        first_seen_at_step: first.0,
        recurred_at_step: again.0,
        first_seen_tick: first.1,
        recurred_tick: again.1,
        involved_prefixes: in_order::<String>(involved_prefixes(steps, first.0, again.0)),
        involved_nodes: in_order::<String>(involved_nodes(steps, first.0, again.0)),
        cycle_steps: cycle_numbers(steps, first.0, again.0),
    }
}

/// The run from a state on. `seen` says at which step and tick each signature was first
/// met. A superseded message is dropped without a trace.
pub open spec fn run_from(
    links: Seq<SessionView>,
    cap: usize,
    st: StateView,
    messages: usize,
    seen: Map<Chars, (usize, u64)>,
) -> Ending
    decreases cap - messages, st.queue.len(),
{
    if st.queue.len() == 0 {
        Ending { state: st, messages, status: RunStatus::Stable, cycle: None, reason: None }
    } else {
        let m = st.queue[due(st.queue)];
        let rest = StateView { queue: st.queue.remove(due(st.queue)), ..st };
        proof {
            crate::queue::law_due_is_earliest(st.queue);
        }
        if m.stale {
            run_from(links, cap, rest, messages, seen)
        } else if messages >= cap {
            Ending {
                state: rest,
                messages,
                status: RunStatus::Inconclusive,
                cycle: None,
                reason: Some(cap_reason(cap)),
            }
        } else {
            let count = (messages + 1) as usize;
            let next = processed(rest, links, m, count);
            let sig = signature(next.nodes, next.queue);
            if next.queue.len() == 0 {
                Ending {
                    state: next,
                    messages: count,
                    status: RunStatus::Stable,
                    cycle: None,
                    reason: None,
                }
            } else if seen.dom().contains(sig) {
                Ending {
                    state: next,
                    messages: count,
                    status: RunStatus::Oscillation,
                    cycle: Some(
                        recurrence(next.steps, sig, seen[sig], (count, now(next.steps))),
                    ),
                    reason: None,
                }
            } else {
                run_from(links, cap, next, count, seen.insert(sig, (count, now(next.steps))))
            }
        }
    }
}

/// The run of a scenario.
pub open spec fn ending(input: ScenarioInputView) -> Ending {
    run_from(input.sessions, input.max_iterations, start(input), 0, Map::empty())
}

proof fn lemma_injections_deliverable(
    announcements: Seq<AnnouncementView>,
    input: ScenarioInputView,
)
    requires
        forall|i: int|
            0 <= i < announcements.len() ==> input.nodes.dom().contains(
                (#[trigger] announcements[i]).node,
            ),
    ensures
        all_deliverable(
            input.nodes.dom(),
            input.sessions,
            injections(announcements, input.nodes),
        ),
    decreases announcements.len(),
{
    if announcements.len() > 0 {
        let init = announcements.drop_last();
        assert forall|i: int| 0 <= i < init.len() implies input.nodes.dom().contains(
            (#[trigger] init[i]).node,
        ) by {
            assert(init[i] == announcements[i]);
        }
        lemma_injections_deliverable(init, input);
        assert(announcements.last() == announcements[announcements.len() - 1]);
        lemma_scheduled_deliverable(
            input.nodes.dom(),
            input.sessions,
            injections(init, input.nodes),
            injection(announcements.last(), input.nodes),
        );
    }
}

proof fn lemma_events_deliverable(
    events: Seq<EventSpecView>,
    input: ScenarioInputView,
    queue: Seq<ScheduledView>,
)
    requires
        runnable(input),
        forall|i: int|
            0 <= i < events.len() ==> match #[trigger] events[i] {
                EventSpecView::Withdraw { .. } => true,
                EventSpecView::Restart { node, .. } => restartable(
                    input.nodes.dom(),
                    input.sessions,
                    node,
                ),
            },
        all_deliverable(input.nodes.dom(), input.sessions, queue),
    ensures
        all_deliverable(
            input.nodes.dom(),
            input.sessions,
            with_events(events, input.announcements, queue),
        ),
    decreases events.len(),
{
    if events.len() > 0 {
        let init = events.drop_last();
        assert forall|i: int| 0 <= i < init.len() implies match #[trigger] init[i] {
            EventSpecView::Withdraw { .. } => true,
            EventSpecView::Restart { node, .. } => restartable(
                input.nodes.dom(),
                input.sessions,
                node,
            ),
        } by {
            assert(init[i] == events[i]);
        }
        lemma_events_deliverable(init, input, queue);
        let event = events.last();
        assert(event == events[events.len() - 1]);
        if let Some(m) = event_message(event, input.announcements) {
            if let EventSpecView::Withdraw { announcement, .. } = event {
                lemma_announcement_of(input.announcements, announcement);
                let ann = announcement_of(input.announcements, announcement)->0;
                let i = choose|i: int|
                    0 <= i < input.announcements.len() && input.announcements[i] == ann;
                assert(input.nodes.dom().contains(input.announcements[i].node));
            }
            lemma_scheduled_deliverable(
                input.nodes.dom(),
                input.sessions,
                with_events(init, input.announcements, queue),
                m,
            );
        }
    }
}

/// A scenario that can run starts from a sound state.
pub proof fn law_start_is_sound(input: ScenarioInputView)
    requires
        runnable(input),
    ensures
        sound(start(input), input.sessions),
{
    let st = start(input);
    assert(st.nodes.dom() =~= input.nodes.dom());
    lemma_injections_deliverable(input.announcements, input);
    lemma_events_deliverable(
        input.events,
        input,
        injections(input.announcements, input.nodes),
    );
}

fn cycle_proof(steps: &Vec<Step>, sig: String, first: (usize, u64), again: (usize, u64)) -> (r:
    CycleProof)
    ensures
        r@ == recurrence(steps.deep_view(), sig@, first, again),
{
    let ghost all = steps.deep_view();
    let mut prefixes: OrdMap<Prefix, ()> = OrdMap::new();
    let mut nodes: OrdMap<NodeId, ()> = OrdMap::new();
    let mut numbers: Vec<usize> = Vec::new();
    let mut i: usize = 0;
    proof {
        assert(prefixes@.dom() =~= Set::empty());
        assert(nodes@.dom() =~= Set::empty());
    }
    while i < steps.len()
        invariant
            i <= steps@.len(),
            all == steps.deep_view(),
            prefixes@.dom() == involved_prefixes(all.take(i as int), first.0, again.0),
            nodes@.dom() == involved_nodes(all.take(i as int), first.0, again.0),
            numbers@ == cycle_numbers(all.take(i as int), first.0, again.0),
        decreases steps.len() - i,
    {
        let step = &steps[i];
        proof {
            assert(all.take(i + 1).last() == step@);
            assert(all.take(i + 1).drop_last() =~= all.take(i as int));
        }
        if step.seq > first.0 && step.seq <= again.0 {
            numbers.push(step.seq);
            let ghost before = nodes@;
            nodes.insert(step.node.clone(), ());
            assert(nodes@.dom() =~= before.dom().insert(step.node@));
            if let Some(p) = &step.prefix {
                let ghost before = prefixes@;
                prefixes.insert(p.clone(), ());
                assert(prefixes@.dom() =~= before.dom().insert(p@));
            }
        }
        i += 1;
    }
    assert(all.take(i as int) =~= all);
    let r = CycleProof {
        state_signature: sig,
        first_seen_at_step: first.0,
        recurred_at_step: again.0,
        first_seen_tick: first.1,
        recurred_tick: again.1,
        involved_prefixes: keys_of(prefixes),
        involved_nodes: keys_of(nodes),
        cycle_steps: numbers,
    };
    assert(r.cycle_steps.deep_view() =~= r.cycle_steps@);
    assert(r@ =~= recurrence(all, sig@, first, again));
    r
}

/// The keys of a map in ascending order.
fn keys_of(m: OrdMap<String, ()>) -> (r: Vec<String>)
    ensures
        r.deep_view() == in_order::<String>(m@.dom()),
{
    let ghost keys = in_order::<String>(m@.dom());
    let mut out: Vec<String> = Vec::new();
    let n = m.len();
    let mut i: usize = 0;
    while i < n
        invariant
            i <= n,
            n == keys.len(),
            keys == in_order::<String>(m@.dom()),
            out@.len() == i,
            forall|k: int| 0 <= k < i ==> (#[trigger] out@[k])@ == keys[k],
        decreases n - i,
    {
        out.push(m.key_at(i).clone());
        i += 1;
    }
    assert(out.deep_view() =~= keys);
    out
}

/// How a run ended, in values.
struct End {
    state: State,
    messages: usize,
    status: RunStatus,
    cycle: Option<CycleProof>,
    reason: Option<String>,
}

impl View for End {
    type V = Ending;

    closed spec fn view(&self) -> Ending {
        Ending {
            state: self.state@,
            messages: self.messages,
            status: self.status,
            cycle: self.cycle.deep_view(),
            reason: self.reason.deep_view(),
        }
    }
}

/// Runs a state to stability, to a proof of oscillation or to the safety cap.
fn drive(state: State, links: &Vec<Session>, cap: usize) -> (r: End)
    requires
        sound(state@, links.deep_view()),
    ensures
        r@ == run_from(links.deep_view(), cap, state@, 0, Map::empty()),
        sound(r@.state, links.deep_view()),
{
    let ghost views = links.deep_view();
    let ghost outcome = run_from(views, cap, state@, 0, Map::empty());
    let mut st = state;
    let mut messages: usize = 0;
    let mut seen: OrdMap<String, (usize, u64)> = OrdMap::new();
    loop
        invariant
            views == links.deep_view(),
            messages <= cap,
            sound(st@, views),
            outcome == run_from(views, cap, state@, 0, Map::empty()),
            outcome == run_from(views, cap, st@, messages, seen@),
        decreases cap - messages, st.queue@.len(),
    {
        let ghost before = st@;
        let ghost size = st.queue@.len();
        let m = match pop(&mut st.queue) {
            Some(m) => m,
            None => {
                assert(st@ =~= before);
                return End {
                    state: st,
                    messages,
                    status: RunStatus::Stable,
                    cycle: None,
                    reason: None,
                };
            },
        };
        let ghost rest = StateView { queue: before.queue.remove(due(before.queue)), ..before };
        proof {
            assert(st@ =~= rest);
            lemma_removed_sound(before, views);
            assert(rest.queue.len() == size - 1);
            assert(deliverable(before.nodes.dom(), views, before.queue[due(before.queue)]));
        }
        if m.stale {
            continue ;
        }
        if messages >= cap {
            let reason = "safety cap of ".to_owned().concat(usize_text(cap).as_str()).concat(
                " messages reached without stability or a recurring-state proof; this is NOT declared non-convergence",
            );
            return End {
                state: st,
                messages,
                status: RunStatus::Inconclusive,
                cycle: None,
                reason: Some(reason),
            };
        }
        messages += 1;
        proof {
            law_processing_keeps_state_sound(rest, views, m@, messages);
        }
        dispatch(&mut st, links, m, messages);
        if st.queue.len() == 0 {
            return End {
                state: st,
                messages,
                status: RunStatus::Stable,
                cycle: None,
                reason: None,
            };
        }
        let sig = state_signature(&st.nodes, &st.queue);
        let tick = current_tick(&st.steps);
        if let Some(first) = seen.get(&sig) {
            let cycle = cycle_proof(&st.steps, sig, (first.0, first.1), (messages, tick));
            return End {
                state: st,
                messages,
                status: RunStatus::Oscillation,
                cycle: Some(cycle),
                reason: None,
            };
        }
        seen.insert(sig, (messages, tick));
    }
}

/// Taking the message that is due out of the queue keeps the state sound.
pub proof fn lemma_removed_sound(st: StateView, links: Seq<SessionView>)
    requires
        sound(st, links),
        st.queue.len() > 0,
    ensures
        sound(StateView { queue: st.queue.remove(due(st.queue)), ..st }, links),
        0 <= due(st.queue) < st.queue.len(),
{
    crate::queue::law_due_is_earliest(st.queue);
    let d = due(st.queue);
    let left = st.queue.remove(d);
    assert forall|i: int| 0 <= i < left.len() implies deliverable(
        st.nodes.dom(),
        links,
        #[trigger] left[i],
    ) by {
        let j = if i < d { i } else { i + 1 };
        assert(left[i] == st.queue[j]);
    }
}

// ---------- result ----------

/// What stands advertised by a node, keyed by session and prefix.
pub open spec fn advertised_map(
    keys: Seq<(Chars, Chars)>,
    advertised: Map<(Chars, Chars), Option<RouteView>>,
) -> Map<Chars, RouteView>
    decreases keys.len(),
{
    if keys.len() == 0 {
        Map::empty()
    } else {
        let before = advertised_map(keys.drop_last(), advertised);
        match advertised[keys.last()] {
            Some(route) => before.insert(keys.last().0 + "|"@ + keys.last().1, route),
            None => before,
        }
    }
}

/// What stands advertised by a node, in the order of sessions and prefixes.
pub open spec fn advertised_list(
    keys: Seq<(Chars, Chars)>,
    advertised: Map<(Chars, Chars), Option<RouteView>>,
    name: Chars,
    links: Seq<SessionView>,
) -> Seq<AdvertisedRouteView>
    decreases keys.len(),
{
    if keys.len() == 0 {
        Seq::empty()
    } else {
        let before = advertised_list(keys.drop_last(), advertised, name, links);
        match advertised[keys.last()] {
            Some(route) => before.push(
                AdvertisedRouteView {
                    session: keys.last().0,
                    from: name,
                    to: (link(links, keys.last().0)->0).remote,
                    prefix: keys.last().1,
                    route,
                },
            ),
            None => before,
        }
    }
}

/// The best routes of a node, in the order of prefixes.
pub open spec fn best_list(name: Chars, node: RtNodeView) -> Seq<BestEntryView> {
    in_order::<String>(node.best.dom()).map_values(
        |p: Chars|
            BestEntryView {
                node: name,
                prefix: p,
                route: node.best[p],
                equal_peer: lookup(node.equal_peer, p),
            },
    )
}

/// The state of a node in a result.
pub open spec fn node_state(name: Chars, node: RtNodeView) -> NodeStateView {
    NodeStateView {
        node: name,
        best: node.best,
        equal_peer: node.equal_peer,
        advertised: advertised_map(
            in_order::<(String, String)>(node.advertised.dom()),
            node.advertised,
        ),
    }
}

/// The best routes of some nodes, one node after the other.
pub open spec fn all_best(
    names: Seq<Chars>,
    nodes: Map<Chars, RtNodeView>,
) -> Seq<BestEntryView>
    decreases names.len(),
{
    if names.len() == 0 {
        Seq::empty()
    } else {
        all_best(names.drop_last(), nodes) + best_list(names.last(), nodes[names.last()])
    }
}

/// What stands advertised by some nodes, one node after the other.
pub open spec fn all_advertised(
    names: Seq<Chars>,
    nodes: Map<Chars, RtNodeView>,
    links: Seq<SessionView>,
) -> Seq<AdvertisedRouteView>
    decreases names.len(),
{
    if names.len() == 0 {
        Seq::empty()
    } else {
        let node = nodes[names.last()];
        all_advertised(names.drop_last(), nodes, links) + advertised_list(
            in_order::<(String, String)>(node.advertised.dom()),
            node.advertised,
            names.last(),
            links,
        )
    }
}

/// What the trace fingerprint is taken of.
pub open spec fn trace_json(e: Ending) -> JsonView {
    JsonView::Object(
        Seq::empty().push(("engine_version"@, u32::json(ENGINE_VERSION))).push(
            ("status"@, RunStatus::json(e.status)),
        ).push(("messages_processed"@, usize::json(e.messages))).push(
            ("steps"@, Vec::<Step>::json(e.state.steps)),
        ).push(
            ("final_state"@, String::json(signature(e.state.nodes, e.state.queue))),
        ),
    )
}

/// The result of a run that ended so.
pub open spec fn result(e: Ending, links: Seq<SessionView>) -> RunResultView {
    let nodes = e.state.nodes;
    let names = in_order::<String>(nodes.dom());
    RunResultView {
        status: e.status,
        steps: e.state.steps,
        states: names.map_values(|n: Chars| node_state(n, nodes[n])),
        best: all_best(names, nodes),
        advertised: all_advertised(names, nodes, links),
        trace_fingerprint: fingerprint(trace_json(e)),
        final_state_signature: signature(nodes, e.state.queue),
        messages_processed: e.messages,
        ticks: now(e.state.steps),
        cycle: e.cycle,
        inconclusive_reason: e.reason,
    }
}

/// The result of simulating a scenario.
pub open spec fn simulation(input: ScenarioInputView) -> RunResultView {
    result(ending(input), input.sessions)
}

fn collect_advertised(name: &String, node: &RtNode, links: &Vec<Session>) -> (r: (
    OrdMap<String, Route>,
    Vec<AdvertisedRoute>,
))
    requires
        known_egress(node@, links.deep_view()),
    ensures
        r.0@ == advertised_map(
            in_order::<(String, String)>(node@.advertised.dom()),
            node@.advertised,
        ),
        r.1.deep_view() == advertised_list(
            in_order::<(String, String)>(node@.advertised.dom()),
            node@.advertised,
            name@,
            links.deep_view(),
        ),
{
    let ghost views = links.deep_view();
    let ghost adv = node@.advertised;
    let ghost keys = in_order::<(String, String)>(adv.dom());
    let mut map: OrdMap<String, Route> = OrdMap::new();
    let mut list: Vec<AdvertisedRoute> = Vec::new();
    let n = node.advertised.len();
    let mut i: usize = 0;
    assert(list.deep_view() =~= Seq::empty());
    while i < n
        invariant
            i <= n,
            n == keys.len(),
            views == links.deep_view(),
            adv == node@.advertised,
            adv == node.advertised@,
            keys == in_order::<(String, String)>(adv.dom()),
            known_egress(node@, views),
            map@ == advertised_map(keys.take(i as int), adv),
            list.deep_view() == advertised_list(keys.take(i as int), adv, name@, views),
        decreases n - i,
    {
        let k = node.advertised.key_at(i);
        proof {
            assert(keys.take(i + 1).last() == keys[i as int]);
            assert(keys.take(i + 1).drop_last() =~= keys.take(i as int));
            assert(k.deep_view() == (k.0@, k.1@));
            assert(node@.advertised.dom().contains(keys[i as int]));
        }
        if let Some(route) = node.advertised.value_at(i) {
            map.insert(k.0.clone().concat("|").concat(k.1.as_str()), route.copy());
            if let Some(sess) = find_link(links, k.0.as_str()) {
                let ghost before = list.deep_view();
                let entry = AdvertisedRoute {
                    session: k.0.clone(),
                    from: name.clone(),
                    to: sess.remote.clone(),
                    prefix: k.1.clone(),
                    route: route.copy(),
                };
                list.push(entry);
                assert(list.deep_view() =~= before.push(entry@));
            }
        }
        i += 1;
    }
    assert(keys.take(i as int) =~= keys);
    (map, list)
}

fn collect_best(name: &String, node: &RtNode) -> (r: Vec<BestEntry>)
    ensures
        r.deep_view() == best_list(name@, node@),
{
    let ghost keys = in_order::<String>(node@.best.dom());
    let mut out: Vec<BestEntry> = Vec::new();
    let n = node.best.len();
    let mut i: usize = 0;
    while i < n
        invariant
            i <= n,
            n == keys.len(),
            keys == in_order::<String>(node.best@.dom()),
            out@.len() == i,
            forall|k: int| 0 <= k < i ==> (#[trigger] out@[k])@ == best_list(name@, node@)[k],
        decreases n - i,
    {
        let p = node.best.key_at(i);
        let equal_peer = match node.equal_peer.get(p) {
            Some(peer) => Some(peer.clone()),
            None => None,
        };
        let entry = BestEntry {
            node: name.clone(),
            prefix: p.clone(),
            route: node.best.value_at(i).copy(),
            equal_peer,
        };
        assert(entry@ =~= best_list(name@, node@)[i as int]);
        out.push(entry);
        i += 1;
    }
    assert(out.deep_view() =~= best_list(name@, node@));
    out
}

fn finish(end: End, links: &Vec<Session>) -> (r: RunResult)
    requires
        sound(end@.state, links.deep_view()),
    ensures
        r@ == result(end@, links.deep_view()),
{
    let ghost views = links.deep_view();
    let ghost nodes = end@.state.nodes;
    let ghost names = in_order::<String>(nodes.dom());
    let mut states: Vec<NodeState> = Vec::new();
    let mut best: Vec<BestEntry> = Vec::new();
    let mut advertised: Vec<AdvertisedRoute> = Vec::new();
    let n = end.state.nodes.len();
    let mut i: usize = 0;
    proof {
        assert(best.deep_view() =~= Seq::empty());
        assert(advertised.deep_view() =~= Seq::empty());
    }
    while i < n
        invariant
            i <= n,
            n == names.len(),
            views == links.deep_view(),
            nodes == end.state.nodes@,
            nodes == end@.state.nodes,
            names == in_order::<String>(nodes.dom()),
            sound(end@.state, views),
            states@.len() == i,
            forall|k: int|
                0 <= k < i ==> (#[trigger] states@[k])@ == node_state(names[k], nodes[names[k]]),
            best.deep_view() == all_best(names.take(i as int), nodes),
            advertised.deep_view() == all_advertised(names.take(i as int), nodes, views),
        decreases n - i,
    {
        let name = end.state.nodes.key_at(i);
        let node = end.state.nodes.value_at(i);
        proof {
            assert(names.take(i + 1).last() == names[i as int]);
            assert(names.take(i + 1).drop_last() =~= names.take(i as int));
            assert(nodes.dom().contains(names[i as int]));
        }
        let (map, list) = collect_advertised(name, node, links);
        append(&mut advertised, &list);
        append(&mut best, &collect_best(name, node));
        states.push(
            NodeState {
                node: name.clone(),
                best: node.best.copy(),
                equal_peer: node.equal_peer.copy(),
                advertised: map,
            },
        );
        i += 1;
    }
    proof {
        assert(names.take(i as int) =~= names);
        assert(states.deep_view() =~= names.map_values(|n: Chars| node_state(n, nodes[n])));
    }
    let final_sig = state_signature(&end.state.nodes, &end.state.queue);
    let mut m = Members::new();
    let version: u32 = ENGINE_VERSION;
    m.put("engine_version", &version);
    m.put("status", &end.status);
    m.put("messages_processed", &end.messages);
    m.put("steps", &end.state.steps);
    m.put("final_state", &final_sig);
    let trace_fingerprint = fingerprint_and_id(&m.object()).0;
    let ticks = current_tick(&end.state.steps);
    let r = RunResult {
        status: end.status,
        steps: end.state.steps,
        states,
        best,
        advertised,
        trace_fingerprint,
        final_state_signature: final_sig,
        messages_processed: end.messages,
        ticks,
        cycle: end.cycle,
        inconclusive_reason: end.reason,
    };
    assert(r@ =~= result(end@, views));
    r
}

// ---------- engine ----------

/// A simulation that is ready to run.
pub struct Engine<'a> {
    input: &'a ScenarioInput,
}

impl<'a> Engine<'a> {
    /// The scenario that the engine runs.
    pub closed spec fn scenario(&self) -> ScenarioInputView {
        self.input@
    }

    /// Prepares a scenario.
    pub fn new(input: &'a ScenarioInput) -> (r: Self)
        ensures
            r.scenario() == input@,
    {
        Engine { input }
    }

    /// Runs to convergence, oscillation proof, or safety cap.
    pub fn run(self) -> (r: RunResult)
        requires
            runnable(self.scenario()),
        ensures
            r@ == simulation(self.scenario()),
    {
        let input = self.input;
        let nodes = idle(&input.nodes);
        let mut queue = inject_all(input);
        schedule_events(input, &mut queue);
        let state = State { nodes, queue, steps: Vec::new() };
        proof {
            assert(state@ =~= start(input@));
            law_start_is_sound(input@);
        }
        finish(drive(state, &input.sessions, input.max_iterations), &input.sessions)
    }
}

/// Simulates a scenario.
pub fn simulate(input: &ScenarioInput) -> (r: RunResult)
    requires
        runnable(input@),
    ensures
        r@ == simulation(input@),
{
    Engine::new(input).run()
}

// ---------- laws ----------

/// The state without the superseded messages that are due before anything else.
pub open spec fn pruned(st: StateView) -> StateView
    decreases st.queue.len(),
{
    if st.queue.len() == 0 {
        st
    } else {
        proof {
            crate::queue::law_due_is_earliest(st.queue);
        }
        if st.queue[due(st.queue)].stale {
            pruned(StateView { queue: st.queue.remove(due(st.queue)), ..st })
        } else {
            st
        }
    }
}

/// The state once the next message that is not superseded has been processed.
#[verifier::opaque]
pub open spec fn advanced(links: Seq<SessionView>, st: StateView, seq: usize) -> StateView {
    let ready = pruned(st);
    if ready.queue.len() == 0 {
        ready
    } else {
        processed(
            StateView { queue: ready.queue.remove(due(ready.queue)), ..ready },
            links,
            ready.queue[due(ready.queue)],
            seq,
        )
    }
}

/// The state after a number of messages, whatever the safety cap.
pub open spec fn state_after(links: Seq<SessionView>, st: StateView, count: nat) -> StateView
    decreases count,
{
    if count == 0 {
        st
    } else {
        advanced(links, state_after(links, st, (count - 1) as nat), count as usize)
    }
}

/// Whether steps are numbered from one on.
pub open spec fn numbered(steps: Seq<StepView>) -> bool {
    forall|i: int| 0 <= i < steps.len() ==> (#[trigger] steps[i]).seq == i + 1
}

/// Whether a cycle proof says what it should: the state after the first step that it names
/// and the state after the last have one signature, the one that it gives, and the steps
/// in between are exactly those that it lists.
pub open spec fn verifiable(
    c: CycleProofView,
    links: Seq<SessionView>,
    st: StateView,
) -> bool {
    let first = state_after(links, st, c.first_seen_at_step as nat);
    let again = state_after(links, st, c.recurred_at_step as nat);
    &&& 0 < c.first_seen_at_step < c.recurred_at_step
    &&& c.state_signature == signature(first.nodes, first.queue)
    &&& c.state_signature == signature(again.nodes, again.queue)
    &&& c.first_seen_tick == now(first.steps)
    &&& c.recurred_tick == now(again.steps)
    &&& c.cycle_steps == Seq::new(
        (c.recurred_at_step - c.first_seen_at_step) as nat,
        |i: int| (c.first_seen_at_step + 1 + i) as usize,
    )
    &&& c.involved_nodes == in_order::<String>(
        involved_nodes(again.steps, c.first_seen_at_step, c.recurred_at_step),
    )
    &&& c.involved_prefixes == in_order::<String>(
        involved_prefixes(again.steps, c.first_seen_at_step, c.recurred_at_step),
    )
}

/// What holds of every ending.
pub open spec fn well_ended(
    e: Ending,
    links: Seq<SessionView>,
    cap: usize,
    st: StateView,
) -> bool {
    &&& e.messages <= cap
    &&& e.state.steps.len() == e.messages
    &&& numbered(e.state.steps)
    &&& e.status == RunStatus::Oscillation <==> e.cycle is Some
    &&& e.status == RunStatus::Inconclusive <==> e.reason is Some
    &&& e.status == RunStatus::Stable ==> e.state.queue.len() == 0
    &&& e.status == RunStatus::Inconclusive ==> e.messages == cap
    &&& e.status == RunStatus::Oscillation ==> {
        &&& verifiable(e.cycle->0, links, st)
        &&& (e.cycle->0).recurred_at_step == e.messages
        &&& e.state == state_after(links, st, e.messages as nat)
    }
}

proof fn lemma_cycle_numbers(steps: Seq<StepView>, after: usize, upto: usize)
    requires
        numbered(steps),
        after <= steps.len() <= upto,
    ensures
        cycle_numbers(steps, after, upto) == Seq::new(
            (steps.len() - after) as nat,
            |i: int| (after + 1 + i) as usize,
        ),
    decreases steps.len(),
{
    if steps.len() > after {
        let init = steps.drop_last();
        assert(numbered(init)) by {
            assert forall|i: int| 0 <= i < init.len() implies (#[trigger] init[i]).seq == i + 1 by {
                assert(init[i] == steps[i]);
            }
        }
        lemma_cycle_numbers(init, after, upto);
        assert(steps.last() == steps[steps.len() - 1]);
        assert(cycle_numbers(steps, after, upto) =~= Seq::new(
            (steps.len() - after) as nat,
            |i: int| (after + 1 + i) as usize,
        ));
    } else {
        lemma_no_cycle_numbers(steps, after, upto);
        assert(Seq::new(0, |i: int| (after + 1 + i) as usize) =~= Seq::empty());
    }
}

proof fn lemma_no_cycle_numbers(steps: Seq<StepView>, after: usize, upto: usize)
    requires
        numbered(steps),
        steps.len() <= after,
    ensures
        cycle_numbers(steps, after, upto) == Seq::<usize>::empty(),
    decreases steps.len(),
{
    if steps.len() > 0 {
        let init = steps.drop_last();
        assert(numbered(init)) by {
            assert forall|i: int| 0 <= i < init.len() implies (#[trigger] init[i]).seq == i + 1 by {
                assert(init[i] == steps[i]);
            }
        }
        lemma_no_cycle_numbers(init, after, upto);
        assert(steps.last() == steps[steps.len() - 1]);
    }
}

/// Whether the signatures that were seen are those of the states so far.
spec fn witnessed(
    seen: Map<Chars, (usize, u64)>,
    links: Seq<SessionView>,
    st: StateView,
    messages: usize,
) -> bool {
    forall|sig: Chars| #[trigger]
        seen.dom().contains(sig) ==> {
            let past = state_after(links, st, seen[sig].0 as nat);
            &&& 0 < seen[sig].0 <= messages
            &&& sig == signature(past.nodes, past.queue)
            &&& seen[sig].1 == now(past.steps)
        }
}

proof fn lemma_run(
    links: Seq<SessionView>,
    cap: usize,
    s0: StateView,
    st: StateView,
    messages: usize,
    seen: Map<Chars, (usize, u64)>,
)
    requires
        sound(st, links),
        messages <= cap,
        st.steps.len() == messages,
        numbered(st.steps),
        pruned(st) == pruned(state_after(links, s0, messages as nat)),
        witnessed(seen, links, s0, messages),
    ensures
        well_ended(run_from(links, cap, st, messages, seen), links, cap, s0),
    decreases cap - messages, st.queue.len(),
{
    if st.queue.len() > 0 {
        lemma_removed_sound(st, links);
        let m = st.queue[due(st.queue)];
        let rest = StateView { queue: st.queue.remove(due(st.queue)), ..st };
        if m.stale {
            lemma_run(links, cap, s0, rest, messages, seen);
        } else if messages < cap {
            let count = (messages + 1) as usize;
            let next = processed(rest, links, m, count);
            assert(deliverable(st.nodes.dom(), links, m));
            law_processing_keeps_state_sound(rest, links, m, count);
            assert(pruned(st) == st);
            assert(next == state_after(links, s0, count as nat)) by {
                reveal(advanced);
            }
            assert(numbered(next.steps)) by {
                assert forall|i: int| 0 <= i < next.steps.len() implies (
                #[trigger] next.steps[i]).seq == i + 1 by {
                    if i < st.steps.len() {
                        assert(next.steps.drop_last()[i] == next.steps[i]);
                        assert(st.steps[i].seq == i + 1);
                    } else {
                        assert(next.steps[i] == next.steps.last());
                    }
                }
            }
            let sig = signature(next.nodes, next.queue);
            if next.queue.len() > 0 {
                if seen.dom().contains(sig) {
                    lemma_cycle_numbers(next.steps, seen[sig].0, count);
                } else {
                    let more = seen.insert(sig, (count, now(next.steps)));
                    assert(witnessed(more, links, s0, count)) by {
                        assert forall|x: Chars| #[trigger] more.dom().contains(x) implies {
                            let past = state_after(links, s0, more[x].0 as nat);
                            &&& 0 < more[x].0 <= count
                            &&& x == signature(past.nodes, past.queue)
                            &&& more[x].1 == now(past.steps)
                        } by {
                            if x != sig {
                                assert(seen.dom().contains(x));
                            }
                        }
                    }
                    lemma_run(links, cap, s0, next, count, more);
                }
            }
        }
    }
}

/// Every run ends with a verdict that its evidence bears out. It is stable only once the
/// queue has drained; it oscillates only with a proof that can be checked against the
/// states of the run; reaching the safety cap is inconclusive, and says why, and never
/// comes with a cycle. Every processed message leaves one step, numbered from one on, and
/// never more messages are processed than the cap allows.
pub proof fn law_verdict_is_borne_out(input: ScenarioInputView)
    requires
        runnable(input),
    ensures
        well_ended(ending(input), input.sessions, input.max_iterations, start(input)),
{
    law_start_is_sound(input);
    lemma_run(
        input.sessions,
        input.max_iterations,
        start(input),
        start(input),
        0,
        Map::empty(),
    );
}

/// The same of the result that a simulation hands out.
pub proof fn law_result_is_borne_out(input: ScenarioInputView)
    requires
        runnable(input),
    ensures
        ({
            let r = simulation(input);
            &&& r.messages_processed <= input.max_iterations
            &&& r.steps.len() == r.messages_processed
            &&& numbered(r.steps)
            &&& r.status == RunStatus::Oscillation <==> r.cycle is Some
            &&& r.status == RunStatus::Inconclusive <==> r.inconclusive_reason is Some
            &&& r.status == RunStatus::Inconclusive ==> r.messages_processed
                == input.max_iterations && r.inconclusive_reason == Some(
                cap_reason(input.max_iterations),
            )
            &&& r.status == RunStatus::Oscillation ==> {
                &&& verifiable(r.cycle->0, input.sessions, start(input))
                &&& (r.cycle->0).recurred_at_step == r.messages_processed
                &&& (r.cycle->0).state_signature == r.final_state_signature
            }
        }),
{
    law_verdict_is_borne_out(input);
    lemma_reason(
        input.sessions,
        input.max_iterations,
        start(input),
        0,
        Map::empty(),
    );
}

proof fn lemma_reason(
    links: Seq<SessionView>,
    cap: usize,
    st: StateView,
    messages: usize,
    seen: Map<Chars, (usize, u64)>,
)
    ensures
        run_from(links, cap, st, messages, seen).reason matches Some(r) ==> r == cap_reason(cap),
    decreases cap - messages, st.queue.len(),
{
    if st.queue.len() > 0 {
        crate::queue::law_due_is_earliest(st.queue);
        let m = st.queue[due(st.queue)];
        let rest = StateView { queue: st.queue.remove(due(st.queue)), ..st };
        if m.stale {
            lemma_reason(links, cap, rest, messages, seen);
        } else if messages < cap {
            let count = (messages + 1) as usize;
            let next = processed(rest, links, m, count);
            let sig = signature(next.nodes, next.queue);
            if next.queue.len() > 0 && !seen.dom().contains(sig) {
                lemma_reason(
                    links,
                    cap,
                    next,
                    count,
                    seen.insert(sig, (count, now(next.steps))),
                );
            }
        }
    }
}

/// A superseded message changes nothing: the run goes on as if it had not been queued.
pub proof fn law_superseded_message_is_dropped(
    links: Seq<SessionView>,
    cap: usize,
    st: StateView,
    messages: usize,
    seen: Map<Chars, (usize, u64)>,
)
    requires
        st.queue.len() > 0,
        st.queue[due(st.queue)].stale,
    ensures
        run_from(links, cap, st, messages, seen) == run_from(
            links,
            cap,
            StateView { queue: st.queue.remove(due(st.queue)), ..st },
            messages,
            seen,
        ),
{
}

/// The name and the description of a scenario have no influence on its simulation.
pub proof fn law_presentation_does_not_count(
    input: ScenarioInputView,
    name: Chars,
    description: Chars,
)
    ensures
        simulation(ScenarioInputView { name, description, ..input }) == simulation(input),
{
}

/// The safety cap only cuts a run off: a run that reached a verdict within one cap reaches
/// the same within every larger one.
pub proof fn law_larger_cap_keeps_verdict(input: ScenarioInputView, cap: usize)
    requires
        ending(input).status != RunStatus::Inconclusive,
        cap >= input.max_iterations,
    ensures
        ending(ScenarioInputView { max_iterations: cap, ..input }) == ending(input),
{
    lemma_larger_cap(
        input.sessions,
        input.max_iterations,
        cap,
        start(input),
        0,
        Map::empty(),
    );
}

proof fn lemma_larger_cap(
    links: Seq<SessionView>,
    cap: usize,
    larger: usize,
    st: StateView,
    messages: usize,
    seen: Map<Chars, (usize, u64)>,
)
    requires
        cap <= larger,
        run_from(links, cap, st, messages, seen).status != RunStatus::Inconclusive,
    ensures
        run_from(links, larger, st, messages, seen) == run_from(links, cap, st, messages, seen),
    decreases cap - messages, st.queue.len(),
{
    if st.queue.len() > 0 {
        crate::queue::law_due_is_earliest(st.queue);
        let m = st.queue[due(st.queue)];
        let rest = StateView { queue: st.queue.remove(due(st.queue)), ..st };
        if m.stale {
            lemma_larger_cap(links, cap, larger, rest, messages, seen);
        } else if messages < cap {
            let count = (messages + 1) as usize;
            let next = processed(rest, links, m, count);
            let sig = signature(next.nodes, next.queue);
            if next.queue.len() > 0 && !seen.dom().contains(sig) {
                lemma_larger_cap(
                    links,
                    cap,
                    larger,
                    next,
                    count,
                    seen.insert(sig, (count, now(next.steps))),
                );
            }
        }
    }
}

// ---------- start and result ----------

proof fn lemma_injections(
    announcements: Seq<AnnouncementView>,
    nodes: Map<Chars, NodeSpecView>,
)
    ensures
        injections(announcements, nodes).len() == announcements.len(),
        forall|i: int|
            0 <= i < announcements.len() ==> #[trigger] injections(announcements, nodes)[i]
                == injection(announcements[i], nodes),
    decreases announcements.len(),
{
    if announcements.len() > 0 {
        let init = announcements.drop_last();
        lemma_injections(init, nodes);
        let before = injections(init, nodes);
        let all = injections(announcements, nodes);
        assert forall|i: int| 0 <= i < announcements.len() implies #[trigger] all[i] == injection(
            announcements[i],
            nodes,
        ) by {
            if i < init.len() {
                assert(before[i] == injection(init[i], nodes));
                assert(all[i] =~= before[i]);
            }
        }
    }
}

/// The number of events that become messages.
pub open spec fn heard(events: Seq<EventSpecView>, announcements: Seq<AnnouncementView>) -> nat
    decreases events.len(),
{
    if events.len() == 0 {
        0
    } else {
        let before = heard(events.drop_last(), announcements);
        let known = match events.last() {
            EventSpecView::Restart { .. } => true,
            EventSpecView::Withdraw { announcement, .. } => exists|i: int|
                0 <= i < announcements.len() && (#[trigger] announcements[i]).id == announcement,
        };
        if known {
            before + 1
        } else {
            before
        }
    }
}

proof fn lemma_announcement_known(announcements: Seq<AnnouncementView>, id: Chars)
    ensures
        announcement_of(announcements, id) is Some <==> exists|i: int|
            0 <= i < announcements.len() && (#[trigger] announcements[i]).id == id,
        announcement_of(announcements, id) matches Some(a) ==> exists|i: int|
            0 <= i < announcements.len() && (#[trigger] announcements[i]) == a && a.id == id && (
            forall|k: int| 0 <= k < i ==> (#[trigger] announcements[k]).id != id),
    decreases announcements.len(),
{
    if announcements.len() > 0 {
        let rest = announcements.drop_first();
        lemma_announcement_known(rest, id);
        if announcements[0].id == id {
            assert(announcements[0].id == id);
        } else {
            if announcement_of(rest, id) is Some {
                let a = announcement_of(rest, id)->0;
                let i = choose|i: int|
                    0 <= i < rest.len() && (#[trigger] rest[i]) == a && a.id == id && (forall|
                        k: int,
                    | 0 <= k < i ==> (#[trigger] rest[k]).id != id);
                assert(announcements[i + 1] == a);
                assert forall|k: int| 0 <= k < i + 1 implies (#[trigger] announcements[k]).id
                    != id by {
                    if k > 0 {
                        assert(rest[k - 1].id != id);
                    }
                }
            }
            if exists|i: int| 0 <= i < announcements.len() && (#[trigger] announcements[i]).id
                == id {
                let i = choose|i: int|
                    0 <= i < announcements.len() && (#[trigger] announcements[i]).id == id;
                assert(rest[i - 1].id == id);
            }
        }
    }
}

proof fn lemma_with_events(
    events: Seq<EventSpecView>,
    announcements: Seq<AnnouncementView>,
    queue: Seq<ScheduledView>,
)
    ensures
        ({
            let all = with_events(events, announcements, queue);
            &&& all.len() == queue.len() + heard(events, announcements)
            &&& all.take(queue.len() as int) == queue
            &&& forall|i: int|
                0 <= i < events.len() && event_message(#[trigger] events[i], announcements)
                    is Some ==> all.contains(event_message(events[i], announcements)->0)
        }),
    decreases events.len(),
{
    let all = with_events(events, announcements, queue);
    if events.len() == 0 {
        assert(all.take(queue.len() as int) =~= queue);
    } else {
        let init = events.drop_last();
        lemma_with_events(init, announcements, queue);
        let before = with_events(init, announcements, queue);
        if let EventSpecView::Withdraw { announcement, .. } = events.last() {
            lemma_announcement_known(announcements, announcement);
        }
        assert forall|i: int| 0 <= i < before.len() implies all[i] == #[trigger] before[i] by {
            if event_message(events.last(), announcements) is Some {
                assert(all[i] =~= before[i]);
            }
        }
        assert(all.take(queue.len() as int) =~= before.take(queue.len() as int));
        assert forall|i: int|
            0 <= i < events.len() && event_message(#[trigger] events[i], announcements)
                is Some implies all.contains(event_message(events[i], announcements)->0) by {
            if i < init.len() {
                assert(init[i] == events[i]);
                let m = event_message(events[i], announcements)->0;
                assert(before.contains(m));
                let j = choose|j: int| 0 <= j < before.len() && before[j] == m;
                assert(all[j] == m);
            } else {
                assert(all[all.len() - 1] == event_message(events[i], announcements)->0);
            }
        }
    }
}

proof fn lemma_staged(input: ScenarioInputView)
    ensures
        ({
            let queue = start(input).queue;
            let n = input.announcements.len() as int;
            &&& queue.len() == n + heard(input.events, input.announcements)
            &&& forall|i: int|
                0 <= i < n ==> (#[trigger] queue[i]) == injection(
                    input.announcements[i],
                    input.nodes,
                )
            &&& forall|i: int|
                0 <= i < input.events.len() && event_message(
                    #[trigger] input.events[i],
                    input.announcements,
                ) is Some ==> queue.contains(
                    event_message(input.events[i], input.announcements)->0,
                )
        }),
{
    let all = input.announcements;
    let n = all.len() as int;
    let first = injections(all, input.nodes);
    let queue = start(input).queue;
    lemma_injections(all, input.nodes);
    lemma_with_events(input.events, all, first);
    assert forall|i: int| 0 <= i < n implies (#[trigger] queue[i]) == injection(
        all[i],
        input.nodes,
    ) by {
        assert(queue.take(n)[i] == first[i]);
    }
}

/// A scenario starts with nodes that know nothing, and without steps. First in the queue stand
/// its announcements, in order, at tick 0: each makes its node originate a route with the
/// attributes of the announcement and an empty AS_PATH.
pub proof fn law_announcements_are_staged(input: ScenarioInputView, i: int)
    requires
        0 <= i < input.announcements.len(),
    ensures
        ({
            let st = start(input);
            let m = st.queue[i];
            let a = input.announcements[i];
            let r = m.route->0;
            &&& st.queue.len() == input.announcements.len() + heard(
                input.events,
                input.announcements,
            )
            &&& m.kind == MsgKind::OriginInject
            &&& m.tick == 0
            &&& !m.stale
            &&& m.node == a.node
            &&& m.prefix == Some(a.prefix)
            &&& m.route is Some
            &&& r.prefix == a.prefix
            &&& r.as_path.len() == 0
            &&& r.local_pref == a.local_pref
            &&& r.med == a.med
            &&& r.communities == a.communities
            &&& r.provenance == Provenance::Origin
            &&& r.ingress_session is None
            &&& r.first_as == Some(input.nodes[a.node].asn)
        }),
{
    lemma_staged(input);
    assert(start(input).queue[i] == injection(input.announcements[i], input.nodes));
}

/// Every node of a scenario is there from the start, as specified, and knows nothing yet.
pub proof fn law_nodes_start_out_empty(input: ScenarioInputView, name: Chars)
    ensures
        ({
            let st = start(input);
            let node = st.nodes[name];
            &&& st.steps.len() == 0
            &&& st.nodes.dom().contains(name) <==> input.nodes.dom().contains(name)
            &&& input.nodes.dom().contains(name) ==> {
                &&& node.spec == input.nodes[name]
                &&& node.up
                &&& node.origins.dom() == Set::<Chars>::empty()
                &&& node.rib_in.dom() == Set::<(Chars, Chars)>::empty()
                &&& node.best.dom() == Set::<Chars>::empty()
                &&& node.equal_peer.dom() == Set::<Chars>::empty()
                &&& node.advertised.dom() == Set::<(Chars, Chars)>::empty()
            }
        }),
{
}

/// Behind the announcements comes one message for each event, at its tick: the withdrawal of
/// the first announcement of an id by its node, or the restart of a node. A withdrawal of an
/// announcement that there is not is left out.
pub proof fn law_events_are_staged(input: ScenarioInputView, i: int)
    requires
        0 <= i < input.events.len(),
    ensures
        ({
            let queue = start(input).queue;
            let all = input.announcements;
            match input.events[i] {
                EventSpecView::Restart { node, tick, .. } => exists|k: int|
                    all.len() <= k < queue.len() && (#[trigger] queue[k]).kind == MsgKind::Restart
                        && queue[k].node == node && queue[k].tick == tick && !queue[k].stale,
                EventSpecView::Withdraw { announcement, tick, .. } => forall|j: int|
                    0 <= j < all.len() && (#[trigger] all[j]).id == announcement && (forall|x: int|
                        0 <= x < j ==> (#[trigger] all[x]).id != announcement) ==> exists|k: int|
                        all.len() <= k < queue.len() && (#[trigger] queue[k]).kind
                            == MsgKind::OriginWithdraw && queue[k].node == all[j].node
                            && queue[k].prefix == Some(all[j].prefix) && queue[k].tick == tick
                            && !queue[k].stale,
            }
        }),
{
    lemma_staged(input);
    let queue = start(input).queue;
    let all = input.announcements;
    let event = input.events[i];
    match event {
        EventSpecView::Restart { .. } => {
            let m = event_message(event, all)->0;
            let k = choose|k: int| 0 <= k < queue.len() && queue[k] == m;
            lemma_behind(input, k);
            assert(queue[k].kind == MsgKind::Restart);
        },
        EventSpecView::Withdraw { announcement, tick, .. } => {
            lemma_announcement_known(all, announcement);
            assert forall|j: int|
                0 <= j < all.len() && (#[trigger] all[j]).id == announcement && (forall|x: int|
                    0 <= x < j ==> (#[trigger] all[x]).id != announcement) implies exists|k: int|
                all.len() <= k < queue.len() && (#[trigger] queue[k]).kind
                    == MsgKind::OriginWithdraw && queue[k].node == all[j].node && queue[k].prefix
                    == Some(all[j].prefix) && queue[k].tick == tick && !queue[k].stale by {
                let a = announcement_of(all, announcement)->0;
                let y = choose|y: int|
                    0 <= y < all.len() && (#[trigger] all[y]) == a && a.id == announcement && (
                    forall|k: int| 0 <= k < y ==> (#[trigger] all[k]).id != announcement);
                if y < j {
                    assert(all[y].id != announcement);
                }
                if j < y {
                    assert(all[j].id != announcement);
                }
                let m = event_message(event, all)->0;
                let k = choose|k: int| 0 <= k < queue.len() && queue[k] == m;
                lemma_behind(input, k);
                assert(queue[k].kind == MsgKind::OriginWithdraw);
            }
        },
    }
}

/// What is no announcement stands behind them.
proof fn lemma_behind(input: ScenarioInputView, k: int)
    requires
        0 <= k < start(input).queue.len(),
        start(input).queue[k].kind != MsgKind::OriginInject,
    ensures
        k >= input.announcements.len(),
{
    lemma_staged(input);
    if k < input.announcements.len() {
        assert(start(input).queue[k] == injection(input.announcements[k], input.nodes));
    }
}

proof fn lemma_all_best_lists(
    names: Seq<Chars>,
    nodes: Map<Chars, RtNodeView>,
    entry: BestEntryView,
)
    requires
        forall|k: int|
            0 <= k < names.len() ==> nodes[#[trigger] names[k]].best.dom().finite(),
    ensures
        all_best(names, nodes).contains(entry) <==> {
            let node = nodes[entry.node];
            &&& names.contains(entry.node)
            &&& node.best.dom().contains(entry.prefix)
            &&& entry.route == node.best[entry.prefix]
            &&& entry.equal_peer == lookup(node.equal_peer, entry.prefix)
        },
    decreases names.len(),
{
    let all = all_best(names, nodes);
    let node = nodes[entry.node];
    let good = node.best.dom().contains(entry.prefix) && entry.route == node.best[entry.prefix]
        && entry.equal_peer == lookup(node.equal_peer, entry.prefix);
    if names.len() > 0 {
        let init = names.drop_last();
        let last = names.last();
        assert(names[names.len() - 1] == last);
        assert forall|k: int| 0 <= k < init.len() implies nodes[
            #[trigger] init[k]
        ].best.dom().finite() by {
            assert(init[k] == names[k]);
        }
        lemma_all_best_lists(init, nodes, entry);
        let before = all_best(init, nodes);
        let list = best_list(last, nodes[last]);
        let keys = in_order::<String>(nodes[last].best.dom());
        crate::ordmap::lemma_in_order_exists::<String>(nodes[last].best.dom());
        if all.contains(entry) {
            let i = choose|i: int| 0 <= i < all.len() && all[i] == entry;
            if i < before.len() {
                assert(before[i] == entry);
                let k = choose|k: int| 0 <= k < init.len() && init[k] == entry.node;
                assert(names[k] == entry.node);
            } else {
                let j = i - before.len();
                assert(list[j] == entry);
                assert(keys.to_set().contains(keys[j]));
            }
        }
        if names.contains(entry.node) && good {
            if entry.node == last {
                assert(keys.to_set().contains(entry.prefix));
                let j = choose|j: int| 0 <= j < keys.len() && keys[j] == entry.prefix;
                assert(list[j] =~= entry);
                assert(all[before.len() + j] == entry);
            } else {
                let k = choose|k: int| 0 <= k < names.len() && names[k] == entry.node;
                assert(init[k] == entry.node);
                let i = choose|i: int| 0 <= i < before.len() && before[i] == entry;
                assert(all[i] == entry);
            }
        }
    }
}

proof fn lemma_advertised_list(
    keys: Seq<(Chars, Chars)>,
    advertised: Map<(Chars, Chars), Option<RouteView>>,
    name: Chars,
    links: Seq<SessionView>,
    a: AdvertisedRouteView,
)
    ensures
        advertised_list(keys, advertised, name, links).contains(a) <==> {
            &&& keys.contains((a.session, a.prefix))
            &&& advertised[(a.session, a.prefix)] == Some(a.route)
            &&& a.from == name
            &&& a.to == (link(links, a.session)->0).remote
        },
    decreases keys.len(),
{
    let all = advertised_list(keys, advertised, name, links);
    if keys.len() > 0 {
        let init = keys.drop_last();
        let last = keys.last();
        assert(keys[keys.len() - 1] == last);
        lemma_advertised_list(init, advertised, name, links, a);
        let before = advertised_list(init, advertised, name, links);
        let k = (a.session, a.prefix);
        if all.contains(a) {
            let i = choose|i: int| 0 <= i < all.len() && all[i] == a;
            if i < before.len() {
                assert(before[i] == a);
                let j = choose|j: int| 0 <= j < init.len() && init[j] == k;
                assert(keys[j] == k);
            }
        }
        if keys.contains(k) && advertised[k] == Some(a.route) && a.from == name && a.to == (link(
            links,
            a.session,
        )->0).remote {
            if k == last {
                assert(all.last() =~= a);
                assert(all[all.len() - 1] == a);
            } else {
                let j = choose|j: int| 0 <= j < keys.len() && keys[j] == k;
                assert(init[j] == k);
                let i = choose|i: int| 0 <= i < before.len() && before[i] == a;
                assert(all[i] == a);
            }
        }
    }
}

proof fn lemma_all_advertised_lists(
    names: Seq<Chars>,
    nodes: Map<Chars, RtNodeView>,
    links: Seq<SessionView>,
    a: AdvertisedRouteView,
)
    requires
        forall|k: int|
            0 <= k < names.len() ==> nodes[#[trigger] names[k]].advertised.dom().finite(),
    ensures
        all_advertised(names, nodes, links).contains(a) <==> {
            let said = nodes[a.from].advertised;
            &&& names.contains(a.from)
            &&& said.dom().contains((a.session, a.prefix))
            &&& said[(a.session, a.prefix)] == Some(a.route)
            &&& a.to == (link(links, a.session)->0).remote
        },
    decreases names.len(),
{
    let all = all_advertised(names, nodes, links);
    if names.len() > 0 {
        let init = names.drop_last();
        let last = names.last();
        assert(names[names.len() - 1] == last);
        assert forall|k: int| 0 <= k < init.len() implies nodes[
            #[trigger] init[k]
        ].advertised.dom().finite() by {
            assert(init[k] == names[k]);
        }
        lemma_all_advertised_lists(init, nodes, links, a);
        let before = all_advertised(init, nodes, links);
        let said = nodes[last].advertised;
        let keys = in_order::<(String, String)>(said.dom());
        crate::ordmap::lemma_in_order_exists::<(String, String)>(said.dom());
        let list = advertised_list(keys, said, last, links);
        lemma_advertised_list(keys, said, last, links, a);
        assert(keys.contains((a.session, a.prefix)) == keys.to_set().contains(
            (a.session, a.prefix),
        ));
        if all.contains(a) {
            let i = choose|i: int| 0 <= i < all.len() && all[i] == a;
            if i < before.len() {
                assert(before[i] == a);
                let k = choose|k: int| 0 <= k < init.len() && init[k] == a.from;
                assert(names[k] == a.from);
            } else {
                assert(list[i - before.len()] == a);
            }
        }
        if names.contains(a.from) && nodes[a.from].advertised.dom().contains(
            (a.session, a.prefix),
        ) && nodes[a.from].advertised[(a.session, a.prefix)] == Some(a.route) && a.to == (link(
            links,
            a.session,
        )->0).remote {
            if a.from == last {
                assert(list.contains(a));
                let j = choose|j: int| 0 <= j < list.len() && list[j] == a;
                assert(all[before.len() + j] == a);
            } else {
                let k = choose|k: int| 0 <= k < names.len() && names[k] == a.from;
                assert(init[k] == a.from);
                let i = choose|i: int| 0 <= i < before.len() && before[i] == a;
                assert(all[i] == a);
            }
        }
    }
}

/// A result shows the state in which the run ended: a best route for a node and a prefix
/// exactly where the node has one, an advertisement exactly where one stands, and the state of
/// every node. Its steps, verdict and evidence are those of the run.
pub proof fn law_result_shows_the_end(
    e: Ending,
    links: Seq<SessionView>,
    entry: BestEntryView,
    a: AdvertisedRouteView,
)
    requires
        e.state.nodes.dom().finite(),
        forall|n: Chars| #[trigger]
            e.state.nodes.dom().contains(n) ==> e.state.nodes[n].best.dom().finite()
                && e.state.nodes[n].advertised.dom().finite(),
    ensures
        ({
            let r = result(e, links);
            let nodes = e.state.nodes;
            &&& r.best.contains(entry) <==> {
                let node = nodes[entry.node];
                &&& nodes.dom().contains(entry.node)
                &&& node.best.dom().contains(entry.prefix)
                &&& entry.route == node.best[entry.prefix]
                &&& entry.equal_peer is Some <==> node.equal_peer.dom().contains(entry.prefix)
                &&& entry.equal_peer matches Some(n) ==> node.equal_peer[entry.prefix] == n
            }
            &&& r.advertised.contains(a) <==> {
                let said = nodes[a.from].advertised;
                &&& nodes.dom().contains(a.from)
                &&& said.dom().contains((a.session, a.prefix))
                &&& said[(a.session, a.prefix)] == Some(a.route)
                &&& a.to == (link(links, a.session)->0).remote
            }
            &&& forall|n: Chars| #[trigger]
                nodes.dom().contains(n) ==> exists|i: int|
                    0 <= i < r.states.len() && (#[trigger] r.states[i]).node == n
                        && r.states[i].best == nodes[n].best && r.states[i].equal_peer
                        == nodes[n].equal_peer
            &&& forall|i: int|
                0 <= i < r.states.len() ==> nodes.dom().contains((#[trigger] r.states[i]).node)
            &&& r.status == e.status
            &&& r.steps == e.state.steps
            &&& r.messages_processed == e.messages
            &&& r.cycle == e.cycle
            &&& r.inconclusive_reason == e.reason
            &&& r.final_state_signature == signature(nodes, e.state.queue)
        }),
{
    let r = result(e, links);
    let nodes = e.state.nodes;
    let names = in_order::<String>(nodes.dom());
    crate::ordmap::lemma_in_order_exists::<String>(nodes.dom());
    assert forall|k: int| 0 <= k < names.len() implies nodes.dom().contains(#[trigger] names[k])
        && nodes[names[k]].best.dom().finite() && nodes[names[k]].advertised.dom().finite() by {
        assert(names.to_set().contains(names[k]));
    }
    lemma_all_best_lists(names, nodes, entry);
    lemma_all_advertised_lists(names, nodes, links, a);
    assert(names.contains(entry.node) == names.to_set().contains(entry.node));
    assert(names.contains(a.from) == names.to_set().contains(a.from));
    assert forall|n: Chars| #[trigger] nodes.dom().contains(n) implies exists|i: int|
        0 <= i < r.states.len() && (#[trigger] r.states[i]).node == n && r.states[i].best
            == nodes[n].best && r.states[i].equal_peer == nodes[n].equal_peer by {
        assert(names.to_set().contains(n));
        let i = choose|i: int| 0 <= i < names.len() && names[i] == n;
        assert(r.states[i].node == n);
    }
    assert forall|i: int| 0 <= i < r.states.len() implies nodes.dom().contains(
        (#[trigger] r.states[i]).node,
    ) by {
        assert(names.to_set().contains(names[i]));
    }
}

// ---------- recurrence ----------

/// The signature of the state after a number of messages.
pub open spec fn signature_after(links: Seq<SessionView>, st: StateView, count: nat) -> Chars {
    signature(state_after(links, st, count).nodes, state_after(links, st, count).queue)
}

proof fn lemma_pruned_keeps(st: StateView)
    ensures
        pruned(st).nodes == st.nodes,
        pruned(st).steps == st.steps,
    decreases st.queue.len(),
{
    if st.queue.len() > 0 {
        crate::queue::law_due_is_earliest(st.queue);
        if st.queue[due(st.queue)].stale {
            lemma_pruned_keeps(StateView { queue: st.queue.remove(due(st.queue)), ..st });
        }
    }
}

/// Whether the signatures after the messages so far all differ, and all have been seen.
spec fn recorded(
    seen: Map<Chars, (usize, u64)>,
    links: Seq<SessionView>,
    st: StateView,
    messages: int,
) -> bool {
    &&& forall|k: nat|
        0 < k <= messages ==> seen.dom().contains(#[trigger] signature_after(links, st, k))
    &&& forall|a: nat, b: nat|
        0 < a < b <= messages ==> #[trigger] signature_after(links, st, a)
            != #[trigger] signature_after(links, st, b)
}

/// Whether a run has found every recurrence there was to find.
spec fn alert(e: Ending, links: Seq<SessionView>, s0: StateView) -> bool {
    &&& e.state.nodes == state_after(links, s0, e.messages as nat).nodes
    &&& e.state.steps == state_after(links, s0, e.messages as nat).steps
    &&& forall|a: nat, b: nat|
        0 < a < b < e.messages ==> #[trigger] signature_after(links, s0, a)
            != #[trigger] signature_after(links, s0, b)
    &&& e.status != RunStatus::Oscillation && state_after(
        links,
        s0,
        e.messages as nat,
    ).queue.len() > 0 ==> forall|a: nat|
        0 < a < e.messages ==> #[trigger] signature_after(links, s0, a) != signature_after(
            links,
            s0,
            e.messages as nat,
        )
}

proof fn lemma_recorded_more(
    seen: Map<Chars, (usize, u64)>,
    links: Seq<SessionView>,
    s0: StateView,
    messages: int,
    at: (usize, u64),
)
    requires
        messages >= 0,
        recorded(seen, links, s0, messages),
        !seen.dom().contains(signature_after(links, s0, (messages + 1) as nat)),
    ensures
        recorded(
            seen.insert(signature_after(links, s0, (messages + 1) as nat), at),
            links,
            s0,
            messages + 1,
        ),
{
    let more = seen.insert(signature_after(links, s0, (messages + 1) as nat), at);
    assert forall|k: nat| 0 < k <= messages + 1 implies more.dom().contains(
        #[trigger] signature_after(links, s0, k),
    ) by {
        if k <= messages {
            assert(seen.dom().contains(signature_after(links, s0, k)));
        }
    }
    assert forall|a: nat, b: nat| 0 < a < b <= messages + 1 implies #[trigger] signature_after(
        links,
        s0,
        a,
    ) != #[trigger] signature_after(links, s0, b) by {
        if b == messages + 1 {
            assert(seen.dom().contains(signature_after(links, s0, a)));
        }
    }
}

/// Processing the message that is due leads to the state after one message more.
proof fn lemma_one_more(links: Seq<SessionView>, s0: StateView, st: StateView, messages: usize)
    requires
        messages < usize::MAX,
        st.queue.len() > 0,
        !st.queue[due(st.queue)].stale,
        pruned(st) == pruned(state_after(links, s0, messages as nat)),
    ensures
        processed(
            StateView { queue: st.queue.remove(due(st.queue)), ..st },
            links,
            st.queue[due(st.queue)],
            (messages + 1) as usize,
        ) == state_after(links, s0, (messages + 1) as nat),
{
    reveal(advanced);
    assert(pruned(st) == st);
}

proof fn lemma_run_alert(
    links: Seq<SessionView>,
    cap: usize,
    s0: StateView,
    st: StateView,
    messages: usize,
    seen: Map<Chars, (usize, u64)>,
)
    requires
        sound(st, links),
        pruned(st) == pruned(state_after(links, s0, messages as nat)),
        recorded(seen, links, s0, messages as int),
    ensures
        alert(run_from(links, cap, st, messages, seen), links, s0),
    decreases cap - messages, st.queue.len(),
{
    lemma_pruned_keeps(st);
    lemma_pruned_keeps(state_after(links, s0, messages as nat));
    if st.queue.len() > 0 {
        lemma_removed_sound(st, links);
        let m = st.queue[due(st.queue)];
        let rest = StateView { queue: st.queue.remove(due(st.queue)), ..st };
        if m.stale {
            lemma_run_alert(links, cap, s0, rest, messages, seen);
        } else if messages < cap {
            let count = (messages + 1) as usize;
            let next = processed(rest, links, m, count);
            assert(deliverable(st.nodes.dom(), links, m));
            law_processing_keeps_state_sound(rest, links, m, count);
            lemma_one_more(links, s0, st, messages);
            let sig = signature_after(links, s0, count as nat);
            assert(sig == signature(next.nodes, next.queue));
            if next.queue.len() > 0 && !seen.dom().contains(sig) {
                let at = (count, now(next.steps));
                lemma_recorded_more(seen, links, s0, messages as int, at);
                lemma_run_alert(links, cap, s0, next, count, seen.insert(sig, at));
            } else {
                assert forall|a: nat, b: nat| 0 < a < b < count implies
                    #[trigger] signature_after(links, s0, a)
                    != #[trigger] signature_after(links, s0, b) by {}
            }
        }
    }
}

/// No recurrence goes unnoticed: while a run has not ended, no signature of its states comes
/// twice, and one that did not end as an oscillation has met none twice at all, unless the
/// queue had drained. A run ends in the state that its messages lead to, one after the other
/// as they fall due.
pub proof fn law_first_recurrence_ends_the_run(input: ScenarioInputView, a: nat, b: nat)
    requires
        runnable(input),
        0 < a < b <= ending(input).messages,
    ensures
        ({
            let e = ending(input);
            let s0 = start(input);
            let links = input.sessions;
            &&& e.state.nodes == state_after(links, s0, e.messages as nat).nodes
            &&& e.state.steps == state_after(links, s0, e.messages as nat).steps
            &&& b < e.messages || (e.status != RunStatus::Oscillation && state_after(
                links,
                s0,
                b,
            ).queue.len() > 0) ==> signature_after(links, s0, a) != signature_after(links, s0, b)
        }),
{
    law_start_is_sound(input);
    lemma_run_alert(
        input.sessions,
        input.max_iterations,
        start(input),
        start(input),
        0,
        Map::empty(),
    );
    let e = ending(input);
    let s0 = start(input);
    let links = input.sessions;
    if b < e.messages {
        assert(signature_after(links, s0, a) != signature_after(links, s0, b));
    }
}

/// The next message of a state is the first of the lowest tick that is not superseded; what
/// comes before it in that order, superseded, is dropped.
pub proof fn law_messages_are_taken_as_they_fall_due(
    links: Seq<SessionView>,
    st: StateView,
    seq: usize,
)
    requires
        st.queue.len() > 0,
    ensures
        ({
            let d = due(st.queue);
            let rest = StateView { queue: st.queue.remove(d), ..st };
            &&& 0 <= d < st.queue.len()
            &&& forall|k: int| 0 <= k < st.queue.len() ==> st.queue[d].tick <= (
                #[trigger] st.queue[k]).tick
            &&& st.queue[d].stale ==> advanced(links, st, seq) == advanced(links, rest, seq)
            &&& !st.queue[d].stale ==> advanced(links, st, seq) == processed(
                rest,
                links,
                st.queue[d],
                seq,
            )
        }),
{
    reveal(advanced);
    crate::queue::law_due_is_earliest(st.queue);
}

proof fn lemma_involved_nodes(steps: Seq<StepView>, after: usize, upto: usize, n: Chars)
    ensures
        involved_nodes(steps, after, upto).finite(),
        involved_nodes(steps, after, upto).contains(n) <==> exists|i: int|
            0 <= i < steps.len() && after < (#[trigger] steps[i]).seq <= upto && steps[i].node
                == n,
    decreases steps.len(),
{
    if steps.len() > 0 {
        let init = steps.drop_last();
        lemma_involved_nodes(init, after, upto, n);
        assert(steps[steps.len() - 1] == steps.last());
        if exists|i: int|
            0 <= i < steps.len() && after < (#[trigger] steps[i]).seq <= upto && steps[i].node
                == n {
            let i = choose|i: int|
                0 <= i < steps.len() && after < (#[trigger] steps[i]).seq <= upto && steps[i].node
                    == n;
            if i < init.len() {
                assert(init[i] == steps[i]);
            }
        }
        if involved_nodes(init, after, upto).contains(n) {
            let i = choose|i: int|
                0 <= i < init.len() && after < (#[trigger] init[i]).seq <= upto && init[i].node
                    == n;
            assert(steps[i] == init[i]);
        }
    }
}

proof fn lemma_involved_prefixes(steps: Seq<StepView>, after: usize, upto: usize, p: Chars)
    ensures
        involved_prefixes(steps, after, upto).finite(),
        involved_prefixes(steps, after, upto).contains(p) <==> exists|i: int|
            0 <= i < steps.len() && after < (#[trigger] steps[i]).seq <= upto && steps[i].prefix
                == Some(p),
    decreases steps.len(),
{
    if steps.len() > 0 {
        let init = steps.drop_last();
        lemma_involved_prefixes(init, after, upto, p);
        assert(steps[steps.len() - 1] == steps.last());
        if exists|i: int|
            0 <= i < steps.len() && after < (#[trigger] steps[i]).seq <= upto && steps[i].prefix
                == Some(p) {
            let i = choose|i: int|
                0 <= i < steps.len() && after < (#[trigger] steps[i]).seq <= upto
                    && steps[i].prefix == Some(p);
            if i < init.len() {
                assert(init[i] == steps[i]);
            }
        }
        if involved_prefixes(init, after, upto).contains(p) {
            let i = choose|i: int|
                0 <= i < init.len() && after < (#[trigger] init[i]).seq <= upto && init[i].prefix
                    == Some(p);
            assert(steps[i] == init[i]);
        }
    }
}

/// A cycle proof names exactly the nodes and the prefixes of the steps between the two
/// occurrences of its state.
pub proof fn law_cycle_names_who_took_part(
    steps: Seq<StepView>,
    sig: Chars,
    first: (usize, u64),
    again: (usize, u64),
    x: Chars,
)
    ensures
        ({
            let c = recurrence(steps, sig, first, again);
            &&& c.involved_nodes.contains(x) <==> exists|i: int|
                0 <= i < steps.len() && first.0 < (#[trigger] steps[i]).seq <= again.0
                    && steps[i].node == x
            &&& c.involved_prefixes.contains(x) <==> exists|i: int|
                0 <= i < steps.len() && first.0 < (#[trigger] steps[i]).seq <= again.0
                    && steps[i].prefix == Some(x)
            &&& c.state_signature == sig
            &&& c.first_seen_at_step == first.0
            &&& c.first_seen_tick == first.1
            &&& c.recurred_at_step == again.0
            &&& c.recurred_tick == again.1
        }),
{
    let c = recurrence(steps, sig, first, again);
    let nodes = involved_nodes(steps, first.0, again.0);
    let prefixes = involved_prefixes(steps, first.0, again.0);
    lemma_involved_nodes(steps, first.0, again.0, x);
    lemma_involved_prefixes(steps, first.0, again.0, x);
    crate::ordmap::lemma_in_order_exists::<String>(nodes);
    crate::ordmap::lemma_in_order_exists::<String>(prefixes);
    assert(c.involved_nodes.contains(x) == c.involved_nodes.to_set().contains(x));
    assert(c.involved_prefixes.contains(x) == c.involved_prefixes.to_set().contains(x));
}

/// Whether a route stands advertised under a name made of its session and its prefix.
pub open spec fn stands_as(
    advertised: Map<(Chars, Chars), Option<RouteView>>,
    at: (Chars, Chars),
    name: Chars,
    route: RouteView,
) -> bool {
    &&& advertised.dom().contains(at)
    &&& advertised[at] == Some(route)
    &&& name == at.0 + "|"@ + at.1
}

proof fn lemma_advertised_named(
    keys: Seq<(Chars, Chars)>,
    advertised: Map<(Chars, Chars), Option<RouteView>>,
    name: Chars,
    at: (Chars, Chars),
)
    requires
        forall|i: int| 0 <= i < keys.len() ==> advertised.dom().contains(#[trigger] keys[i]),
    ensures
        advertised_map(keys, advertised).dom().contains(name) ==> exists|k: (Chars, Chars)|
            #[trigger] stands_as(advertised, k, name, advertised_map(keys, advertised)[name]),
        keys.contains(at) && advertised[at] is Some ==> advertised_map(
            keys,
            advertised,
        ).dom().contains(at.0 + "|"@ + at.1),
    decreases keys.len(),
{
    if keys.len() > 0 {
        let init = keys.drop_last();
        let last = keys.last();
        assert forall|i: int| 0 <= i < init.len() implies advertised.dom().contains(
            #[trigger] init[i],
        ) by {
            assert(init[i] == keys[i]);
        }
        lemma_advertised_named(init, advertised, name, at);
        assert(advertised.dom().contains(keys[keys.len() - 1]));
        let all = advertised_map(keys, advertised);
        if all.dom().contains(name) && advertised[last] is Some && name == last.0 + "|"@ + last.1 {
            assert(stands_as(advertised, last, name, all[name]));
        } else if all.dom().contains(name) {
            let before = advertised_map(init, advertised);
            assert(before.dom().contains(name) && before[name] == all[name]);
            let k = choose|k: (Chars, Chars)| #[trigger]
                stands_as(advertised, k, name, before[name]);
            assert(stands_as(advertised, k, name, all[name]));
        }
        if keys.contains(at) && at != last {
            let i = choose|i: int| 0 <= i < keys.len() && keys[i] == at;
            assert(init[i] == at);
        }
    }
}

/// The state of a node in a result names what the node stands by: every route that stands
/// advertised has an entry under its session and prefix, and no entry is anything else.
pub proof fn law_node_state_shows_publications(
    name: Chars,
    node: RtNodeView,
    at: (Chars, Chars),
    entry: Chars,
)
    requires
        node.advertised.dom().finite(),
    ensures
        ({
            let shown = node_state(name, node).advertised;
            &&& node.advertised.dom().contains(at) && node.advertised[at] is Some
                ==> shown.dom().contains(at.0 + "|"@ + at.1)
            &&& shown.dom().contains(entry) ==> exists|k: (Chars, Chars)| #[trigger]
                stands_as(node.advertised, k, entry, shown[entry])
        }),
{
    let keys = in_order::<(String, String)>(node.advertised.dom());
    crate::ordmap::lemma_in_order_exists::<(String, String)>(node.advertised.dom());
    assert forall|i: int| 0 <= i < keys.len() implies node.advertised.dom().contains(
        #[trigger] keys[i],
    ) by {
        assert(keys.to_set().contains(keys[i]));
    }
    assert(keys.contains(at) == keys.to_set().contains(at));
    lemma_advertised_named(keys, node.advertised, entry, at);
}

/// The fingerprint of a trace is taken of the whole run: its verdict, how many messages it
/// took, every step and the state at the end. The ticks of a result are those of the last step.
pub proof fn law_trace_fingerprint_covers_the_run(e: Ending, links: Seq<SessionView>)
    ensures
        ({
            let r = result(e, links);
            let j = trace_json(e);
            &&& r.trace_fingerprint == fingerprint(j)
            &&& has_member(
                j,
                "engine_version"@,
                JsonView::Number(decimal(ENGINE_VERSION as int)),
            )
            &&& has_member(j, "status"@, RunStatus::json(r.status))
            &&& has_member(
                j,
                "messages_processed"@,
                JsonView::Number(decimal(r.messages_processed as int)),
            )
            &&& has_member(j, "steps"@, Vec::<Step>::json(r.steps))
            &&& has_member(j, "final_state"@, JsonView::Text(r.final_state_signature))
            &&& has_size(j, 5)
            &&& r.steps.len() > 0 ==> r.ticks == r.steps[r.steps.len() - 1].tick
            &&& r.steps.len() == 0 ==> r.ticks == 0
        }),
{
    let m = trace_json(e)->Object_0;
    assert(m.contains(m[0]));
    assert(m.contains(m[1]));
    assert(m.contains(m[2]));
    assert(m.contains(m[3]));
    assert(m.contains(m[4]));
}

} // verus!
