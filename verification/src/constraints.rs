//! What holds of every run, whatever the policies: messages leave at the tick at which they
//! are sent, time runs forward, no best route that was learned over eBGP has been through
//! the AS of its node, and nothing that was learned over iBGP stands advertised over iBGP.

use crate::bestpath::selection;
use crate::engine::{
    advertised_list, all_advertised, all_best, best_list, ending, event_message, injection,
    injections, law_start_is_sound, lemma_removed_sound, run_from, runnable, simulation, start,
    with_events,
};
use crate::export::{exported, node_exports, offered, Exporting};
use crate::model::{
    AnnouncementView, Decision, EventSpecView, NodeSpecView, Provenance, RouteView, RuleView,
    ScenarioInputView, SessionKind, SessionView,
};
use crate::ordmap::{in_order, lemma_in_order_exists};
use crate::policy::{evaluation, law_policy_keeps_identity};
use crate::queue::{carried, due, law_due_is_earliest, scheduled, MsgKind, ScheduledView};
use crate::rib::{
    eligible, incoming, law_selected_route_is_loop_free, lemma_link_exists, link, lookup,
    outgoing, reselected, RtNodeView,
};
use crate::signature::signature;
use crate::step::{
    arrived, by_prefix, deliverable, law_processing_keeps_state_sound, lemma_incoming,
    lemma_link_id, lemma_reannounced_keeps, lemma_refreshed_keeps, lemma_resent_keeps, now,
    origin_routes, processed, purged, reannounced, rebooted, received_at, refreshed, resent,
    restarted, sound, Refreshing, Resending, Restarting, StateView,
};
use crate::text::Chars;
use vstd::prelude::*;

verus! {

// ---------- what is sent ----------

/// Whether a session of an id starts at a node of an AS.
pub open spec fn starts_in(
    links: Seq<SessionView>,
    nodes: Map<Chars, RtNodeView>,
    sid: Chars,
    asn: u32,
) -> bool {
    exists|i: int|
        0 <= i < links.len() && (#[trigger] links[i]).id == sid && nodes.dom().contains(
            links[i].local,
        ) && nodes[links[i].local].spec.asn == asn
}

/// Whether a message was sent over a session at a tick. Over eBGP the AS of a sender stands
/// in front of the path.
pub open spec fn well_sent(
    m: ScheduledView,
    links: Seq<SessionView>,
    nodes: Map<Chars, RtNodeView>,
    tick: u64,
) -> bool {
    &&& m.session is Some
    &&& m.prefix is Some
    &&& link(links, m.session->0) is Some
    &&& ScheduledView { stale: false, ..m } == carried(
        link(links, m.session->0)->0,
        m.prefix->0,
        m.route,
        tick,
    )
    &&& ((link(links, m.session->0)->0).kind == SessionKind::EBgp && m.route is Some) ==> {
        &&& (m.route->0).as_path.len() > 0
        &&& starts_in(links, nodes, m.session->0, (m.route->0).as_path[0])
    }
}

/// Whether a queue is another one, in which some messages have become stale, with messages
/// behind it that were sent at a tick.
pub open spec fn extends(
    a: Seq<ScheduledView>,
    b: Seq<ScheduledView>,
    links: Seq<SessionView>,
    nodes: Map<Chars, RtNodeView>,
    tick: u64,
) -> bool {
    &&& a.len() <= b.len()
    &&& forall|i: int|
        0 <= i < a.len() ==> (#[trigger] b[i]) == (ScheduledView { stale: b[i].stale, ..a[i] })
            && (a[i].stale ==> b[i].stale)
    &&& forall|i: int|
        a.len() <= i < b.len() ==> well_sent(#[trigger] b[i], links, nodes, tick)
}

proof fn lemma_sent(
    a: Seq<ScheduledView>,
    b: Seq<ScheduledView>,
    m: ScheduledView,
    links: Seq<SessionView>,
    nodes: Map<Chars, RtNodeView>,
    tick: u64,
)
    requires
        extends(a, b, links, nodes, tick),
        well_sent(m, links, nodes, tick),
    ensures
        extends(a, scheduled(b, m), links, nodes, tick),
{
    let c = scheduled(b, m);
    assert forall|i: int| 0 <= i < a.len() implies (#[trigger] c[i]) == (ScheduledView {
        stale: c[i].stale,
        ..a[i]
    }) && (a[i].stale ==> c[i].stale) by {
        assert(b[i] == (ScheduledView { stale: b[i].stale, ..a[i] }));
        assert(c[i].stale || !b[i].stale);
    }
    assert forall|i: int| a.len() <= i < c.len() implies well_sent(
        #[trigger] c[i],
        links,
        nodes,
        tick,
    ) by {
        if i < b.len() {
            assert(well_sent(b[i], links, nodes, tick));
            assert(ScheduledView { stale: false, ..c[i] } == ScheduledView {
                stale: false,
                ..b[i]
            });
        }
    }
}

/// An offer that goes out over a session is well sent.
proof fn lemma_offer_sent(
    links: Seq<SessionView>,
    nodes: Map<Chars, RtNodeView>,
    sid: Chars,
    best: Option<RouteView>,
    prefix: Chars,
    own_as: u32,
    rules: Seq<RuleView>,
    tick: u64,
)
    requires
        starts_in(links, nodes, sid, own_as),
    ensures
        ({
            let sess = link(links, sid)->0;
            &&& link(links, sid) is Some
            &&& sess.id == sid
            &&& well_sent(
                carried(sess, prefix, offered(best, sess, own_as, rules).route, tick),
                links,
                nodes,
                tick,
            )
        }),
{
    let i = choose|i: int|
        0 <= i < links.len() && (#[trigger] links[i]).id == sid && nodes.dom().contains(
            links[i].local,
        ) && nodes[links[i].local].spec.asn == own_as;
    lemma_link_exists(links, i);
}

proof fn lemma_exported_sends(
    q0: Seq<ScheduledView>,
    sids: Seq<Chars>,
    e: Exporting,
    best: Option<RouteView>,
    links: Seq<SessionView>,
    nodes: Map<Chars, RtNodeView>,
    prefix: Chars,
    own_as: u32,
    rules: Seq<RuleView>,
    tick: u64,
)
    requires
        extends(q0, e.queue, links, nodes, tick),
        forall|k: int|
            0 <= k < sids.len() ==> starts_in(links, nodes, #[trigger] sids[k], own_as),
    ensures
        extends(
            q0,
            exported(sids, e, best, links, prefix, own_as, rules, tick).queue,
            links,
            nodes,
            tick,
        ),
    decreases sids.len(),
{
    if sids.len() > 0 {
        let init = sids.drop_last();
        assert forall|k: int| 0 <= k < init.len() implies starts_in(
            links,
            nodes,
            #[trigger] init[k],
            own_as,
        ) by {
            assert(init[k] == sids[k]);
        }
        lemma_exported_sends(q0, init, e, best, links, nodes, prefix, own_as, rules, tick);
        let before = exported(init, e, best, links, prefix, own_as, rules, tick);
        let sid = sids.last();
        assert(sids[sids.len() - 1] == sid);
        lemma_offer_sent(links, nodes, sid, best, prefix, own_as, rules, tick);
        let sess = link(links, sid)->0;
        lemma_sent(
            q0,
            before.queue,
            carried(sess, prefix, offered(best, sess, own_as, rules).route, tick),
            links,
            nodes,
            tick,
        );
    }
}

proof fn lemma_node_exports_sends(
    q0: Seq<ScheduledView>,
    node: RtNodeView,
    name: Chars,
    prefix: Chars,
    links: Seq<SessionView>,
    nodes: Map<Chars, RtNodeView>,
    queue: Seq<ScheduledView>,
    tick: u64,
)
    requires
        extends(q0, queue, links, nodes, tick),
        nodes.dom().contains(name),
        nodes[name].spec == node.spec,
    ensures
        extends(
            q0,
            node_exports(node, name, prefix, links, queue, tick).queue,
            links,
            nodes,
            tick,
        ),
{
    let sids = outgoing(links, name);
    let starts = |s: SessionView| s.local == name;
    let f = links.filter(starts);
    assert forall|k: int| 0 <= k < sids.len() implies starts_in(
        links,
        nodes,
        #[trigger] sids[k],
        node.spec.asn,
    ) by {
        links.lemma_filter_pred(starts, k);
        assert(f.contains(f[k]));
        links.lemma_filter_contains_rev(starts, f[k]);
        let i = choose|i: int| 0 <= i < links.len() && links[i] == f[k];
        assert(links[i].id == sids[k]);
    }
    lemma_exported_sends(
        q0,
        sids,
        Exporting { advertised: node.advertised, queue, records: Seq::empty() },
        lookup(node.best, prefix),
        links,
        nodes,
        prefix,
        node.spec.asn,
        node.spec.policy.export,
        tick,
    );
}

proof fn lemma_reannounced_sends(
    q0: Seq<ScheduledView>,
    routes: Seq<RouteView>,
    r: Restarting,
    name: Chars,
    links: Seq<SessionView>,
    nodes: Map<Chars, RtNodeView>,
    tick: u64,
)
    requires
        extends(q0, r.queue, links, nodes, tick),
        nodes.dom().contains(name),
        nodes[name].spec == r.node.spec,
    ensures
        extends(q0, reannounced(routes, r, name, links, tick).queue, links, nodes, tick),
    decreases routes.len(),
{
    if routes.len() > 0 {
        let init = routes.drop_last();
        lemma_reannounced_sends(q0, init, r, name, links, nodes, tick);
        lemma_reannounced_keeps(init, r, name, links, tick);
        let before = reannounced(init, r, name, links, tick);
        let prefix = routes.last().prefix;
        lemma_node_exports_sends(
            q0,
            reselected(before.node, name, prefix, links),
            name,
            prefix,
            links,
            nodes,
            before.queue,
            tick,
        );
    }
}

proof fn lemma_resent_sends(
    q0: Seq<ScheduledView>,
    prefixes: Seq<Chars>,
    r: Resending,
    sid: Chars,
    links: Seq<SessionView>,
    nodes: Map<Chars, RtNodeView>,
    tick: u64,
)
    requires
        extends(q0, r.queue, links, nodes, tick),
        starts_in(links, nodes, sid, r.node.spec.asn),
    ensures
        extends(q0, resent(prefixes, r, link(links, sid)->0, tick).queue, links, nodes, tick),
    decreases prefixes.len(),
{
    if prefixes.len() > 0 {
        let init = prefixes.drop_last();
        let sess = link(links, sid)->0;
        lemma_resent_sends(q0, init, r, sid, links, nodes, tick);
        lemma_resent_keeps(init, r, sess, tick);
        let before = resent(init, r, sess, tick);
        let best = lookup(before.node.best, prefixes.last());
        let rules = before.node.spec.policy.export;
        let own_as = before.node.spec.asn;
        lemma_offer_sent(links, nodes, sid, best, prefixes.last(), own_as, rules, tick);
        lemma_sent(
            q0,
            before.queue,
            carried(sess, prefixes.last(), offered(best, sess, own_as, rules).route, tick),
            links,
            nodes,
            tick,
        );
    }
}

proof fn lemma_refreshed_sends(
    q0: Seq<ScheduledView>,
    sids: Seq<Chars>,
    r: Refreshing,
    links: Seq<SessionView>,
    nodes: Map<Chars, RtNodeView>,
    tick: u64,
)
    requires
        extends(q0, r.queue, links, nodes, tick),
        forall|n: Chars| (#[trigger] r.nodes[n]).spec == nodes[n].spec,
        forall|k: int|
            0 <= k < sids.len() ==> link(links, #[trigger] sids[k]) is Some
                && nodes.dom().contains((link(links, sids[k])->0).local),
    ensures
        extends(q0, refreshed(sids, r, links, tick).queue, links, nodes, tick),
    decreases sids.len(),
{
    if sids.len() > 0 {
        let init = sids.drop_last();
        assert forall|k: int| 0 <= k < init.len() implies link(links, #[trigger] init[k]) is Some
            && nodes.dom().contains((link(links, init[k])->0).local) by {
            assert(init[k] == sids[k]);
        }
        lemma_refreshed_sends(q0, init, r, links, nodes, tick);
        let before = refreshed(init, r, links, tick);
        let sid = sids.last();
        assert(sids[sids.len() - 1] == sid);
        let sess = link(links, sid)->0;
        lemma_refreshed_keeps(init, r, links, tick, sess.local);
        let node = before.nodes[sess.local];
        assert(r.nodes[sess.local].spec == nodes[sess.local].spec);
        lemma_link_member(links, sid);
        let i = choose|i: int| 0 <= i < links.len() && links[i] == sess;
        assert(links[i].id == sid);
        lemma_resent_sends(
            q0,
            in_order::<String>(node.best.dom()),
            Resending { node, queue: before.queue },
            sid,
            links,
            nodes,
            tick,
        );
    }
}

proof fn lemma_link_member(links: Seq<SessionView>, id: Chars)
    requires
        link(links, id) is Some,
    ensures
        links.contains(link(links, id)->0),
        (link(links, id)->0).id == id,
    decreases links.len(),
{
    if links.last().id == id {
        assert(links[links.len() - 1] == links.last());
    } else {
        let init = links.drop_last();
        lemma_link_member(init, id);
        let i = choose|i: int| 0 <= i < init.len() && init[i] == link(init, id)->0;
        assert(links[i] == init[i]);
    }
}

/// Whatever a message leads to is sent at its tick, and arrives once the delay of the
/// session has passed. Over eBGP the AS of the sender stands in front of the path, also of
/// what is sent again after a restart. Messages that were queued before stay queued.
pub proof fn law_sent_at_the_tick_of_the_message(
    st: StateView,
    links: Seq<SessionView>,
    m: ScheduledView,
    seq: usize,
)
    requires
        deliverable(st.nodes.dom(), links, m),
    ensures
        extends(st.queue, processed(st, links, m, seq).queue, links, st.nodes, m.tick),
{
    let q = st.queue;
    match m.kind {
        MsgKind::OriginInject => {
            let node = st.nodes[m.node];
            let next = RtNodeView {
                origins: node.origins.insert(m.prefix->0, m.route->0),
                ..node
            };
            lemma_node_exports_sends(
                q,
                reselected(next, m.node, m.prefix->0, links),
                m.node,
                m.prefix->0,
                links,
                st.nodes,
                q,
                m.tick,
            );
        },
        MsgKind::OriginWithdraw => {
            let node = st.nodes[m.node];
            let next = RtNodeView { origins: node.origins.remove(m.prefix->0), ..node };
            lemma_node_exports_sends(
                q,
                reselected(next, m.node, m.prefix->0, links),
                m.node,
                m.prefix->0,
                links,
                st.nodes,
                q,
                m.tick,
            );
        },
        MsgKind::Restart => {
            let name = m.node;
            let node = st.nodes[name];
            let routes = origin_routes(node);
            let first = Restarting {
                node: rebooted(node),
                queue: q,
                exports: Seq::empty(),
                selection: None,
            };
            lemma_reannounced_sends(q, routes, first, name, links, st.nodes, m.tick);
            lemma_reannounced_keeps(routes, first, name, links, m.tick);
            let r = reannounced(routes, first, name, links, m.tick);
            let half = Refreshing { nodes: st.nodes.insert(name, r.node), queue: r.queue };
            let sids = incoming(links, name);
            assert forall|k: int| 0 <= k < sids.len() implies link(links, #[trigger] sids[k])
                is Some && st.nodes.dom().contains((link(links, sids[k])->0).local) by {
                lemma_incoming(st.nodes.dom(), links, name, k);
            }
            lemma_refreshed_sends(q, sids, half, links, st.nodes, m.tick);
        },
        MsgKind::Receive => {
            let sid = m.session->0;
            let sess = link(links, sid)->0;
            let name = sess.remote;
            let r = received_at(
                st.nodes[name],
                name,
                sess,
                sid,
                m.prefix->0,
                m.route->0,
                links,
            );
            lemma_node_exports_sends(
                q,
                r.node,
                name,
                m.prefix->0,
                links,
                st.nodes,
                q,
                m.tick,
            );
        },
        MsgKind::Withdraw => {
            let sid = m.session->0;
            let name = (link(links, sid)->0).remote;
            let left = purged(st.nodes[name], sid, m.prefix->0);
            lemma_node_exports_sends(
                q,
                reselected(left, name, m.prefix->0, links),
                name,
                m.prefix->0,
                links,
                st.nodes,
                q,
                m.tick,
            );
        },
    }
}

/// Whether no two sessions have the same id.
pub open spec fn told_apart(links: Seq<SessionView>) -> bool {
    forall|i: int, j: int|
        0 <= i < j < links.len() ==> (#[trigger] links[i]).id != (#[trigger] links[j]).id
}

/// Where no two sessions have the same id, the sender on a session is the node at which it
/// starts.
pub proof fn law_sender_is_the_local_end(
    links: Seq<SessionView>,
    nodes: Map<Chars, RtNodeView>,
    sid: Chars,
    asn: u32,
)
    requires
        told_apart(links),
        starts_in(links, nodes, sid, asn),
    ensures
        link(links, sid) is Some,
        nodes.dom().contains((link(links, sid)->0).local),
        nodes[(link(links, sid)->0).local].spec.asn == asn,
{
    let i = choose|i: int|
        0 <= i < links.len() && (#[trigger] links[i]).id == sid && nodes.dom().contains(
            links[i].local,
        ) && nodes[links[i].local].spec.asn == asn;
    lemma_link_exists(links, i);
    lemma_link_member(links, sid);
    let j = choose|j: int| 0 <= j < links.len() && links[j] == link(links, sid)->0;
    assert(links[i].id == links[j].id);
}

/// Every route that a restart puts on an eBGP session has the AS of its sender in front:
/// what the node originates again, and what its neighbors send it again.
pub proof fn law_restart_sends_with_own_as(
    st: StateView,
    links: Seq<SessionView>,
    m: ScheduledView,
    seq: usize,
    i: int,
)
    requires
        deliverable(st.nodes.dom(), links, m),
        m.kind == MsgKind::Restart,
        st.queue.len() <= i < restarted(st, links, m, seq).queue.len(),
    ensures
        ({
            let sent = restarted(st, links, m, seq).queue[i];
            let sess = link(links, sent.session->0)->0;
            &&& sent.session is Some
            &&& link(links, sent.session->0) is Some
            &&& (sess.kind == SessionKind::EBgp && sent.route is Some) ==> {
                &&& (sent.route->0).as_path.len() > 0
                &&& starts_in(links, st.nodes, sent.session->0, (sent.route->0).as_path[0])
                &&& told_apart(links) ==> st.nodes[sess.local].spec.asn == (
                sent.route->0).as_path[0]
            }
        }),
{
    law_sent_at_the_tick_of_the_message(st, links, m, seq);
    let sent = restarted(st, links, m, seq).queue[i];
    assert(well_sent(sent, links, st.nodes, m.tick));
    let sess = link(links, sent.session->0)->0;
    if told_apart(links) && sess.kind == SessionKind::EBgp && sent.route is Some {
        law_sender_is_the_local_end(
            links,
            st.nodes,
            sent.session->0,
            (sent.route->0).as_path[0],
        );
    }
}

// ---------- time ----------

/// Whether no step comes before an earlier one in time, and nothing that is queued is
/// already past.
pub open spec fn timely(st: StateView) -> bool {
    &&& forall|i: int, j: int|
        0 <= i < j < st.steps.len() ==> (#[trigger] st.steps[i]).tick <= (
        #[trigger] st.steps[j]).tick
    &&& forall|k: int| 0 <= k < st.queue.len() ==> now(st.steps) <= (#[trigger] st.queue[k]).tick
}

proof fn lemma_removed_timely(st: StateView)
    requires
        timely(st),
        st.queue.len() > 0,
    ensures
        timely(StateView { queue: st.queue.remove(due(st.queue)), ..st }),
{
    law_due_is_earliest(st.queue);
    let d = due(st.queue);
    let left = st.queue.remove(d);
    assert forall|k: int| 0 <= k < left.len() implies now(st.steps) <= (
    #[trigger] left[k]).tick by {
        let j = if k < d { k } else { k + 1 };
        assert(left[k] == st.queue[j]);
    }
}

/// A step at the tick of the message that is due, with what was sent at that tick, keeps
/// time.
proof fn lemma_step_timely(st: StateView, next: StateView, links: Seq<SessionView>)
    requires
        timely(st),
        st.queue.len() > 0,
        next.steps.len() == st.steps.len() + 1,
        next.steps.drop_last() == st.steps,
        next.steps.last().tick == st.queue[due(st.queue)].tick,
        extends(
            st.queue.remove(due(st.queue)),
            next.queue,
            links,
            st.nodes,
            st.queue[due(st.queue)].tick,
        ),
    ensures
        timely(next),
{
    let d = due(st.queue);
    let m = st.queue[d];
    let left = st.queue.remove(d);
    law_due_is_earliest(st.queue);
    assert(now(st.steps) <= m.tick);
    assert forall|i: int, j: int| 0 <= i < j < next.steps.len() implies (
    #[trigger] next.steps[i]).tick <= (#[trigger] next.steps[j]).tick by {
        assert(next.steps.drop_last()[i] == next.steps[i]);
        if j < st.steps.len() {
            assert(next.steps.drop_last()[j] == next.steps[j]);
        } else {
            assert(st.steps[i].tick <= st.steps.last().tick);
        }
    }
    assert forall|k: int| 0 <= k < next.queue.len() implies now(next.steps) <= (
    #[trigger] next.queue[k]).tick by {
        if k < left.len() {
            let j = if k < d { k } else { k + 1 };
            assert(left[k] == st.queue[j]);
        } else {
            assert(well_sent(next.queue[k], links, st.nodes, m.tick));
        }
    }
}

/// Processing the message that is due does not turn time back.
pub proof fn law_processing_keeps_time(st: StateView, links: Seq<SessionView>, seq: usize)
    requires
        sound(st, links),
        timely(st),
        st.queue.len() > 0,
    ensures
        timely(
            processed(
                StateView { queue: st.queue.remove(due(st.queue)), ..st },
                links,
                st.queue[due(st.queue)],
                seq,
            ),
        ),
{
    let m = st.queue[due(st.queue)];
    let rest = StateView { queue: st.queue.remove(due(st.queue)), ..st };
    lemma_removed_sound(st, links);
    assert(deliverable(st.nodes.dom(), links, m));
    law_processing_keeps_state_sound(rest, links, m, seq);
    law_sent_at_the_tick_of_the_message(rest, links, m, seq);
    lemma_step_timely(st, processed(rest, links, m, seq), links);
}

// ---------- hard constraints ----------

/// The provenance of what comes in over a session.
pub open spec fn learned_over(kind: SessionKind) -> Provenance {
    match kind {
        SessionKind::EBgp => Provenance::EBgp,
        SessionKind::IBgp => Provenance::IBgp,
    }
}

/// Whether a route may be best at a node of an AS: one that was learned over eBGP has not
/// been through that AS.
pub open spec fn loop_free(route: RouteView, own_as: u32) -> bool {
    route.provenance == Provenance::EBgp ==> !route.as_path.contains(own_as)
}

/// Whether a route may stand advertised on a session: over iBGP not if it was learned over
/// iBGP.
pub open spec fn split_horizon(route: RouteView, kind: SessionKind) -> bool {
    kind == SessionKind::IBgp ==> route.provenance != Provenance::IBgp
}

/// Whether the advertisements of a node keep to split horizon.
pub open spec fn within_horizon(
    advertised: Map<(Chars, Chars), Option<RouteView>>,
    links: Seq<SessionView>,
) -> bool {
    &&& advertised.dom().finite()
    &&& forall|k: (Chars, Chars)| #[trigger]
        advertised.dom().contains(k) && advertised[k] is Some ==> split_horizon(
            advertised[k]->0,
            (link(links, k.0)->0).kind,
        )
}

/// Whether a node keeps to the hard constraints of BGP, and what it holds says where it
/// came from.
pub open spec fn lawful(node: RtNodeView, links: Seq<SessionView>) -> bool {
    &&& node.origins.dom().finite()
    &&& node.rib_in.dom().finite()
    &&& node.best.dom().finite()
    &&& forall|p: Chars| #[trigger]
        node.origins.dom().contains(p) ==> node.origins[p].provenance == Provenance::Origin
    &&& forall|k: (Chars, Chars)| #[trigger]
        node.rib_in.dom().contains(k) ==> node.rib_in[k].provenance == learned_over(
            (link(links, k.0)->0).kind,
        )
    &&& forall|p: Chars| #[trigger]
        node.best.dom().contains(p) ==> loop_free(node.best[p], node.spec.asn)
    &&& within_horizon(node.advertised, links)
}

/// Whether every injected route is marked as originated.
pub open spec fn originated(queue: Seq<ScheduledView>) -> bool {
    forall|i: int|
        0 <= i < queue.len() && (#[trigger] queue[i]).kind == MsgKind::OriginInject ==> (
        queue[i].route->0).provenance == Provenance::Origin
}

/// Whether all nodes are lawful, and all injected routes are marked as originated.
pub open spec fn all_lawful(st: StateView, links: Seq<SessionView>) -> bool {
    &&& originated(st.queue)
    &&& forall|n: Chars| #[trigger] st.nodes.dom().contains(n) ==> lawful(st.nodes[n], links)
}

proof fn lemma_reselected_lawful(
    node: RtNodeView,
    name: Chars,
    prefix: Chars,
    links: Seq<SessionView>,
)
    requires
        lawful(node, links),
    ensures
        lawful(reselected(node, name, prefix, links), links),
{
    let after = reselected(node, name, prefix, links);
    law_selected_route_is_loop_free(node, name, prefix, links);
    assert forall|p: Chars| #[trigger] after.best.dom().contains(p) implies loop_free(
        after.best[p],
        node.spec.asn,
    ) by {
        if p == prefix {
            let w = selection(eligible(node, name, prefix, links)).1->0;
            assert(after.best[p] == w.route);
            match w.ingress_session {
                None => {
                    assert(node.origins.dom().contains(prefix));
                },
                Some(sid) => {
                    assert(node.rib_in.dom().contains((sid, prefix)));
                },
            }
        } else {
            assert(node.best.dom().contains(p));
        }
    }
}

proof fn lemma_offer_lawful(
    best: Option<RouteView>,
    sess: SessionView,
    own_as: u32,
    rules: Seq<RuleView>,
)
    ensures
        offered(best, sess, own_as, rules).route matches Some(r) ==> split_horizon(r, sess.kind),
{
    if let Some(b) = best {
        law_policy_keeps_identity(rules, b, sess.remote, Decision::Accept);
    }
}

proof fn lemma_exported_lawful(
    sids: Seq<Chars>,
    e: Exporting,
    best: Option<RouteView>,
    links: Seq<SessionView>,
    prefix: Chars,
    own_as: u32,
    rules: Seq<RuleView>,
    tick: u64,
)
    requires
        within_horizon(e.advertised, links),
    ensures
        within_horizon(
            exported(sids, e, best, links, prefix, own_as, rules, tick).advertised,
            links,
        ),
    decreases sids.len(),
{
    if sids.len() > 0 {
        let init = sids.drop_last();
        lemma_exported_lawful(init, e, best, links, prefix, own_as, rules, tick);
        let before = exported(init, e, best, links, prefix, own_as, rules, tick).advertised;
        let after = exported(sids, e, best, links, prefix, own_as, rules, tick).advertised;
        lemma_offer_lawful(best, link(links, sids.last())->0, own_as, rules);
        assert forall|k: (Chars, Chars)| #[trigger]
            after.dom().contains(k) && after[k] is Some implies split_horizon(
            after[k]->0,
            (link(links, k.0)->0).kind,
        ) by {
            if k != (sids.last(), prefix) {
                assert(before.dom().contains(k));
            } else if before.dom().contains(k) {
                assert(before[k] is Some ==> split_horizon(
                    before[k]->0,
                    (link(links, k.0)->0).kind,
                ));
            }
        }
    }
}

proof fn lemma_node_exports_lawful(
    node: RtNodeView,
    name: Chars,
    prefix: Chars,
    links: Seq<SessionView>,
    queue: Seq<ScheduledView>,
    tick: u64,
)
    requires
        lawful(node, links),
    ensures
        lawful(
            RtNodeView {
                advertised: node_exports(node, name, prefix, links, queue, tick).advertised,
                ..node
            },
            links,
        ),
{
    lemma_exported_lawful(
        outgoing(links, name),
        Exporting { advertised: node.advertised, queue, records: Seq::empty() },
        lookup(node.best, prefix),
        links,
        prefix,
        node.spec.asn,
        node.spec.policy.export,
        tick,
    );
}

proof fn lemma_reannounced_lawful(
    routes: Seq<RouteView>,
    r: Restarting,
    name: Chars,
    links: Seq<SessionView>,
    tick: u64,
)
    requires
        lawful(r.node, links),
    ensures
        lawful(reannounced(routes, r, name, links, tick).node, links),
    decreases routes.len(),
{
    if routes.len() > 0 {
        let init = routes.drop_last();
        lemma_reannounced_lawful(init, r, name, links, tick);
        let before = reannounced(init, r, name, links, tick);
        let prefix = routes.last().prefix;
        lemma_reselected_lawful(before.node, name, prefix, links);
        lemma_node_exports_lawful(
            reselected(before.node, name, prefix, links),
            name,
            prefix,
            links,
            before.queue,
            tick,
        );
    }
}

proof fn lemma_by_prefix(routes: Seq<RouteView>, own_as: u32)
    requires
        forall|i: int| 0 <= i < routes.len() ==> loop_free(#[trigger] routes[i], own_as),
    ensures
        by_prefix(routes).dom().finite(),
        forall|p: Chars| #[trigger]
            by_prefix(routes).dom().contains(p) ==> loop_free(by_prefix(routes)[p], own_as),
    decreases routes.len(),
{
    if routes.len() > 0 {
        let init = routes.drop_last();
        assert forall|i: int| 0 <= i < init.len() implies loop_free(
            #[trigger] init[i],
            own_as,
        ) by {
            assert(init[i] == routes[i]);
        }
        lemma_by_prefix(init, own_as);
        assert(loop_free(routes[routes.len() - 1], own_as));
        assert forall|p: Chars| #[trigger] by_prefix(routes).dom().contains(p) implies loop_free(
            by_prefix(routes)[p],
            own_as,
        ) by {
            if p != routes.last().prefix {
                assert(by_prefix(init).dom().contains(p));
            }
        }
    }
}

proof fn lemma_rebooted_lawful(node: RtNodeView, links: Seq<SessionView>)
    requires
        lawful(node, links),
    ensures
        lawful(rebooted(node), links),
{
    let keys = in_order::<String>(node.origins.dom());
    lemma_in_order_exists::<String>(node.origins.dom());
    let routes = origin_routes(node);
    assert forall|i: int| 0 <= i < routes.len() implies loop_free(
        #[trigger] routes[i],
        node.spec.asn,
    ) by {
        assert(routes[i] == node.origins[keys[i]]);
        assert(keys.to_set().contains(keys[i]));
        assert(node.origins.dom().contains(keys[i]));
    }
    lemma_by_prefix(routes, node.spec.asn);
}

proof fn lemma_resent_lawful(
    prefixes: Seq<Chars>,
    r: Resending,
    sid: Chars,
    links: Seq<SessionView>,
    tick: u64,
)
    requires
        lawful(r.node, links),
        link(links, sid) is Some,
    ensures
        lawful(resent(prefixes, r, link(links, sid)->0, tick).node, links),
    decreases prefixes.len(),
{
    if prefixes.len() > 0 {
        let init = prefixes.drop_last();
        let sess = link(links, sid)->0;
        let prefix = prefixes.last();
        lemma_link_id(links, sid);
        lemma_resent_lawful(init, r, sid, links, tick);
        let node = resent(init, r, sess, tick).node;
        let after = resent(prefixes, r, sess, tick).node;
        lemma_offer_lawful(
            lookup(node.best, prefix),
            sess,
            node.spec.asn,
            node.spec.policy.export,
        );
        assert forall|k: (Chars, Chars)| #[trigger]
            after.advertised.dom().contains(k) && after.advertised[k] is Some implies split_horizon(
            after.advertised[k]->0,
            (link(links, k.0)->0).kind,
        ) by {
            if k != (sid, prefix) {
                assert(node.advertised.dom().contains(k));
            } else if node.advertised.dom().contains(k) {
                assert(node.advertised[k] is Some ==> split_horizon(
                    node.advertised[k]->0,
                    (link(links, k.0)->0).kind,
                ));
            }
        }
        assert(within_horizon(after.advertised, links));
        assert(lawful(after, links));
    }
}

proof fn lemma_refreshed_lawful(
    sids: Seq<Chars>,
    r: Refreshing,
    links: Seq<SessionView>,
    tick: u64,
)
    requires
        forall|n: Chars| #[trigger] r.nodes.dom().contains(n) ==> lawful(r.nodes[n], links),
        forall|k: int|
            0 <= k < sids.len() ==> link(links, #[trigger] sids[k]) is Some
                && r.nodes.dom().contains((link(links, sids[k])->0).local),
    ensures
        ({
            let after = refreshed(sids, r, links, tick).nodes;
            &&& after.dom() == r.nodes.dom()
            &&& forall|n: Chars| #[trigger] after.dom().contains(n) ==> lawful(after[n], links)
        }),
    decreases sids.len(),
{
    if sids.len() > 0 {
        let init = sids.drop_last();
        assert forall|k: int| 0 <= k < init.len() implies link(links, #[trigger] init[k]) is Some
            && r.nodes.dom().contains((link(links, init[k])->0).local) by {
            assert(init[k] == sids[k]);
        }
        lemma_refreshed_lawful(init, r, links, tick);
        let before = refreshed(init, r, links, tick);
        let sid = sids.last();
        assert(sids[sids.len() - 1] == sid);
        let sess = link(links, sid)->0;
        let node = before.nodes[sess.local];
        assert(before.nodes.dom().contains(sess.local));
        lemma_resent_lawful(
            in_order::<String>(node.best.dom()),
            Resending { node, queue: before.queue },
            sid,
            links,
            tick,
        );
        let after = refreshed(sids, r, links, tick).nodes;
        assert(after.dom() =~= before.nodes.dom());
        assert forall|n: Chars| #[trigger] after.dom().contains(n) implies lawful(
            after[n],
            links,
        ) by {
            if n != sess.local {
                assert(before.nodes.dom().contains(n));
            }
        }
    }
}

proof fn lemma_received_lawful(
    node: RtNodeView,
    name: Chars,
    sid: Chars,
    prefix: Chars,
    route: RouteView,
    links: Seq<SessionView>,
)
    requires
        lawful(node, links),
    ensures
        lawful(
            received_at(node, name, link(links, sid)->0, sid, prefix, route, links).node,
            links,
        ),
{
    let sess = link(links, sid)->0;
    law_policy_keeps_identity(
        node.spec.policy.import,
        arrived(route, sess, sid),
        sess.local,
        Decision::Accept,
    );
    let mutated = evaluation(
        node.spec.policy.import,
        arrived(route, sess, sid),
        sess.local,
        Decision::Accept,
    ).1;
    let replaced = RtNodeView { rib_in: node.rib_in.insert((sid, prefix), mutated), ..node };
    assert(lawful(replaced, links)) by {
        assert forall|k: (Chars, Chars)| #[trigger]
            replaced.rib_in.dom().contains(k) implies replaced.rib_in[k].provenance
            == learned_over((link(links, k.0)->0).kind) by {
            if k != (sid, prefix) {
                assert(node.rib_in.dom().contains(k));
            }
        }
    }
    lemma_reselected_lawful(replaced, name, prefix, links);
    lemma_purged_lawful(node, sid, prefix, links);
    lemma_reselected_lawful(purged(node, sid, prefix), name, prefix, links);
}

proof fn lemma_purged_lawful(
    node: RtNodeView,
    sid: Chars,
    prefix: Chars,
    links: Seq<SessionView>,
)
    requires
        lawful(node, links),
    ensures
        lawful(purged(node, sid, prefix), links),
{
    let left = purged(node, sid, prefix);
    assert forall|k: (Chars, Chars)| #[trigger] left.rib_in.dom().contains(k) implies left.rib_in[
        k
    ].provenance == learned_over((link(links, k.0)->0).kind) by {
        assert(node.rib_in.dom().contains(k));
    }
}

/// The nodes after a message are lawful if they were before.
proof fn lemma_processed_nodes(
    st: StateView,
    links: Seq<SessionView>,
    m: ScheduledView,
    seq: usize,
)
    requires
        deliverable(st.nodes.dom(), links, m),
        m.kind == MsgKind::OriginInject ==> (m.route->0).provenance == Provenance::Origin,
        forall|n: Chars| #[trigger] st.nodes.dom().contains(n) ==> lawful(st.nodes[n], links),
    ensures
        forall|n: Chars| #[trigger]
            processed(st, links, m, seq).nodes.dom().contains(n) ==> lawful(
                processed(st, links, m, seq).nodes[n],
                links,
            ),
        forall|n: Chars| (#[trigger] processed(st, links, m, seq).nodes[n]).spec
            == st.nodes[n].spec,
{
    match m.kind {
        MsgKind::OriginInject => {
            let node = st.nodes[m.node];
            let prefix = m.prefix->0;
            assert(lawful(node, links));
            let next = RtNodeView { origins: node.origins.insert(prefix, m.route->0), ..node };
            assert forall|p: Chars| #[trigger] next.origins.dom().contains(
                p,
            ) implies next.origins[p].provenance == Provenance::Origin by {
                if p != prefix {
                    assert(node.origins.dom().contains(p));
                }
            }
            let chosen = reselected(next, m.node, prefix, links);
            lemma_reselected_lawful(next, m.node, prefix, links);
            lemma_node_exports_lawful(chosen, m.node, prefix, links, st.queue, m.tick);
        },
        MsgKind::OriginWithdraw => {
            let node = st.nodes[m.node];
            let prefix = m.prefix->0;
            assert(lawful(node, links));
            let next = RtNodeView { origins: node.origins.remove(prefix), ..node };
            assert forall|p: Chars| #[trigger] next.origins.dom().contains(
                p,
            ) implies next.origins[p].provenance == Provenance::Origin by {
                assert(node.origins.dom().contains(p));
            }
            let chosen = reselected(next, m.node, prefix, links);
            lemma_reselected_lawful(next, m.node, prefix, links);
            lemma_node_exports_lawful(chosen, m.node, prefix, links, st.queue, m.tick);
        },
        MsgKind::Restart => {
            let name = m.node;
            let node = st.nodes[name];
            assert(lawful(node, links));
            lemma_rebooted_lawful(node, links);
            let routes = origin_routes(node);
            let first = Restarting {
                node: rebooted(node),
                queue: st.queue,
                exports: Seq::empty(),
                selection: None,
            };
            lemma_reannounced_lawful(routes, first, name, links, m.tick);
            lemma_reannounced_keeps(routes, first, name, links, m.tick);
            let r = reannounced(routes, first, name, links, m.tick);
            let half = Refreshing { nodes: st.nodes.insert(name, r.node), queue: r.queue };
            assert(half.nodes.dom() =~= st.nodes.dom());
            assert forall|n: Chars| #[trigger] half.nodes.dom().contains(n) implies lawful(
                half.nodes[n],
                links,
            ) by {
                assert(st.nodes.dom().contains(n));
            }
            let sids = incoming(links, name);
            assert forall|k: int| 0 <= k < sids.len() implies link(links, #[trigger] sids[k])
                is Some && half.nodes.dom().contains((link(links, sids[k])->0).local) by {
                lemma_incoming(st.nodes.dom(), links, name, k);
            }
            lemma_refreshed_lawful(sids, half, links, m.tick);
            assert forall|n: Chars| (#[trigger] processed(st, links, m, seq).nodes[n]).spec
                == st.nodes[n].spec by {
                lemma_refreshed_keeps(sids, half, links, m.tick, n);
            }
        },
        MsgKind::Receive => {
            let sid = m.session->0;
            let sess = link(links, sid)->0;
            let name = sess.remote;
            let prefix = m.prefix->0;
            let node = st.nodes[name];
            assert(lawful(node, links));
            lemma_received_lawful(node, name, sid, prefix, m.route->0, links);
            let r = received_at(node, name, sess, sid, prefix, m.route->0, links);
            lemma_node_exports_lawful(r.node, name, prefix, links, st.queue, m.tick);
        },
        MsgKind::Withdraw => {
            let sid = m.session->0;
            let name = (link(links, sid)->0).remote;
            let prefix = m.prefix->0;
            let node = st.nodes[name];
            assert(lawful(node, links));
            let left = purged(node, sid, prefix);
            lemma_purged_lawful(node, sid, prefix, links);
            lemma_reselected_lawful(left, name, prefix, links);
            lemma_node_exports_lawful(
                reselected(left, name, prefix, links),
                name,
                prefix,
                links,
                st.queue,
                m.tick,
            );
        },
    }
}

/// No message makes a lawful state unlawful: neither import and export policies nor
/// restarts lift the hard constraints. No message changes what a node was specified to be.
pub proof fn law_processing_keeps_constraints(
    st: StateView,
    links: Seq<SessionView>,
    m: ScheduledView,
    seq: usize,
)
    requires
        deliverable(st.nodes.dom(), links, m),
        m.kind == MsgKind::OriginInject ==> (m.route->0).provenance == Provenance::Origin,
        all_lawful(st, links),
    ensures
        all_lawful(processed(st, links, m, seq), links),
        forall|n: Chars| (#[trigger] processed(st, links, m, seq).nodes[n]).spec
            == st.nodes[n].spec,
{
    let after = processed(st, links, m, seq);
    lemma_processed_nodes(st, links, m, seq);
    law_sent_at_the_tick_of_the_message(st, links, m, seq);
    assert forall|i: int|
        0 <= i < after.queue.len() && (#[trigger] after.queue[i]).kind
            == MsgKind::OriginInject implies (after.queue[i].route->0).provenance
        == Provenance::Origin by {
        if i < st.queue.len() {
            assert(st.queue[i].kind == MsgKind::OriginInject);
        } else {
            assert(well_sent(after.queue[i], links, st.nodes, m.tick));
        }
    }
}

// ---------- a whole run ----------

proof fn lemma_injections_originated(
    announcements: Seq<AnnouncementView>,
    nodes: Map<Chars, NodeSpecView>,
)
    ensures
        originated(injections(announcements, nodes)),
    decreases announcements.len(),
{
    if announcements.len() > 0 {
        let before = injections(announcements.drop_last(), nodes);
        lemma_injections_originated(announcements.drop_last(), nodes);
        lemma_scheduled_originated(before, injection(announcements.last(), nodes));
    }
}

proof fn lemma_events_originated(
    events: Seq<EventSpecView>,
    announcements: Seq<AnnouncementView>,
    queue: Seq<ScheduledView>,
)
    requires
        originated(queue),
    ensures
        originated(with_events(events, announcements, queue)),
    decreases events.len(),
{
    if events.len() > 0 {
        let before = with_events(events.drop_last(), announcements, queue);
        lemma_events_originated(events.drop_last(), announcements, queue);
        if let Some(m) = event_message(events.last(), announcements) {
            lemma_scheduled_originated(before, m);
        }
    }
}

proof fn lemma_scheduled_originated(queue: Seq<ScheduledView>, m: ScheduledView)
    requires
        originated(queue),
        m.kind == MsgKind::OriginInject ==> (m.route->0).provenance == Provenance::Origin,
    ensures
        originated(scheduled(queue, m)),
{
    let all = scheduled(queue, m);
    assert forall|i: int|
        0 <= i < all.len() && (#[trigger] all[i]).kind == MsgKind::OriginInject implies (
    all[i].route->0).provenance == Provenance::Origin by {
        if i < queue.len() {
            assert(queue[i].kind == MsgKind::OriginInject);
        }
    }
}

/// Whether the nodes of a state are those that were specified.
pub open spec fn as_specified(
    nodes: Map<Chars, RtNodeView>,
    specs: Map<Chars, NodeSpecView>,
) -> bool {
    &&& nodes.dom() == specs.dom()
    &&& forall|n: Chars| #[trigger] nodes.dom().contains(n) ==> nodes[n].spec == specs[n]
}

pub proof fn lemma_start(input: ScenarioInputView)
    ensures
        timely(start(input)),
        all_lawful(start(input), input.sessions),
        as_specified(start(input).nodes, input.nodes),
{
    let st = start(input);
    lemma_injections_originated(input.announcements, input.nodes);
    lemma_events_originated(
        input.events,
        input.announcements,
        injections(input.announcements, input.nodes),
    );
    assert(st.nodes.dom() =~= input.nodes.dom());
}

proof fn lemma_run_constraints(
    links: Seq<SessionView>,
    cap: usize,
    st: StateView,
    messages: usize,
    seen: Map<Chars, (usize, u64)>,
    specs: Map<Chars, NodeSpecView>,
)
    requires
        sound(st, links),
        timely(st),
        all_lawful(st, links),
        as_specified(st.nodes, specs),
    ensures
        ({
            let last = run_from(links, cap, st, messages, seen).state;
            &&& timely(last)
            &&& all_lawful(last, links)
            &&& as_specified(last.nodes, specs)
        }),
    decreases cap - messages, st.queue.len(),
{
    if st.queue.len() > 0 {
        let d = due(st.queue);
        let m = st.queue[d];
        let rest = StateView { queue: st.queue.remove(d), ..st };
        lemma_removed_sound(st, links);
        lemma_removed_timely(st);
        assert(originated(rest.queue)) by {
            assert forall|i: int|
                0 <= i < rest.queue.len() && (#[trigger] rest.queue[i]).kind
                    == MsgKind::OriginInject implies (rest.queue[i].route->0).provenance
                == Provenance::Origin by {
                let j = if i < d { i } else { i + 1 };
                assert(rest.queue[i] == st.queue[j]);
            }
        }
        if m.stale {
            lemma_run_constraints(links, cap, rest, messages, seen, specs);
        } else if messages < cap {
            let count = (messages + 1) as usize;
            let next = processed(rest, links, m, count);
            assert(deliverable(st.nodes.dom(), links, m));
            law_processing_keeps_state_sound(rest, links, m, count);
            law_processing_keeps_time(st, links, count);
            law_processing_keeps_constraints(rest, links, m, count);
            assert forall|n: Chars| #[trigger] next.nodes.dom().contains(n) implies next.nodes[
                n
            ].spec == specs[n] by {
                assert(st.nodes.dom().contains(n));
            }
            let sig = signature(next.nodes, next.queue);
            if next.queue.len() > 0 && !seen.dom().contains(sig) {
                lemma_run_constraints(
                    links,
                    cap,
                    next,
                    count,
                    seen.insert(sig, (count, now(next.steps))),
                    specs,
                );
            }
        }
    }
}

/// Time runs forward: no step of a simulation has a lower tick than an earlier one, and the
/// ticks of the result are those of the last step, which no step exceeds. A simulation
/// without steps takes no time.
pub proof fn law_time_runs_forward(input: ScenarioInputView)
    requires
        runnable(input),
    ensures
        ({
            let r = simulation(input);
            &&& forall|i: int, j: int|
                0 <= i < j < r.steps.len() ==> (#[trigger] r.steps[i]).tick <= (
                #[trigger] r.steps[j]).tick
            &&& forall|i: int| 0 <= i < r.steps.len() ==> (#[trigger] r.steps[i]).tick <= r.ticks
            &&& r.steps.len() > 0 ==> r.ticks == r.steps.last().tick
            &&& r.steps.len() == 0 ==> r.ticks == 0
        }),
{
    law_start_is_sound(input);
    lemma_start(input);
    lemma_run_constraints(
        input.sessions,
        input.max_iterations,
        start(input),
        0,
        Map::empty(),
        input.nodes,
    );
}

/// Whatever the policies, and wherever a run ends: every node of the state that it ends in
/// is one of the scenario and lawful.
pub proof fn law_constraints_bind_every_run(input: ScenarioInputView)
    requires
        runnable(input),
    ensures
        all_lawful(ending(input).state, input.sessions),
        as_specified(ending(input).state.nodes, input.nodes),
{
    law_start_is_sound(input);
    lemma_start(input);
    lemma_run_constraints(
        input.sessions,
        input.max_iterations,
        start(input),
        0,
        Map::empty(),
        input.nodes,
    );
}

proof fn lemma_all_best(
    names: Seq<Chars>,
    nodes: Map<Chars, RtNodeView>,
    links: Seq<SessionView>,
    i: int,
)
    requires
        forall|k: int|
            0 <= k < names.len() ==> nodes.dom().contains(#[trigger] names[k]) && lawful(
                nodes[names[k]],
                links,
            ),
        0 <= i < all_best(names, nodes).len(),
    ensures
        ({
            let entry = all_best(names, nodes)[i];
            &&& nodes.dom().contains(entry.node)
            &&& loop_free(entry.route, nodes[entry.node].spec.asn)
        }),
    decreases names.len(),
{
    let init = names.drop_last();
    let before = all_best(init, nodes);
    if i < before.len() {
        assert forall|k: int| 0 <= k < init.len() implies nodes.dom().contains(
            #[trigger] init[k],
        ) && lawful(nodes[init[k]], links) by {
            assert(init[k] == names[k]);
        }
        lemma_all_best(init, nodes, links, i);
    } else {
        let name = names[names.len() - 1];
        let node = nodes[name];
        let keys = in_order::<String>(node.best.dom());
        lemma_in_order_exists::<String>(node.best.dom());
        let p = keys[i - before.len()];
        assert(best_list(name, node)[i - before.len()].route == node.best[p]);
        assert(keys.to_set().contains(p));
        assert(node.best.dom().contains(p));
    }
}

proof fn lemma_advertised_list(
    keys: Seq<(Chars, Chars)>,
    advertised: Map<(Chars, Chars), Option<RouteView>>,
    name: Chars,
    links: Seq<SessionView>,
    i: int,
)
    requires
        within_horizon(advertised, links),
        forall|k: int| 0 <= k < keys.len() ==> advertised.dom().contains(#[trigger] keys[k]),
        0 <= i < advertised_list(keys, advertised, name, links).len(),
    ensures
        ({
            let a = advertised_list(keys, advertised, name, links)[i];
            split_horizon(a.route, (link(links, a.session)->0).kind)
        }),
    decreases keys.len(),
{
    let init = keys.drop_last();
    if i < advertised_list(init, advertised, name, links).len() {
        assert forall|k: int| 0 <= k < init.len() implies advertised.dom().contains(
            #[trigger] init[k],
        ) by {
            assert(init[k] == keys[k]);
        }
        lemma_advertised_list(init, advertised, name, links, i);
    } else {
        assert(advertised.dom().contains(keys[keys.len() - 1]));
    }
}

proof fn lemma_all_advertised(
    names: Seq<Chars>,
    nodes: Map<Chars, RtNodeView>,
    links: Seq<SessionView>,
    i: int,
)
    requires
        forall|k: int| 0 <= k < names.len() ==> lawful(nodes[#[trigger] names[k]], links),
        0 <= i < all_advertised(names, nodes, links).len(),
    ensures
        ({
            let a = all_advertised(names, nodes, links)[i];
            split_horizon(a.route, (link(links, a.session)->0).kind)
        }),
    decreases names.len(),
{
    let init = names.drop_last();
    let before = all_advertised(init, nodes, links);
    if i < before.len() {
        assert forall|k: int| 0 <= k < init.len() implies lawful(
            nodes[#[trigger] init[k]],
            links,
        ) by {
            assert(init[k] == names[k]);
        }
        lemma_all_advertised(init, nodes, links, i);
    } else {
        let name = names[names.len() - 1];
        let node = nodes[name];
        assert(lawful(node, links));
        let keys = in_order::<(String, String)>(node.advertised.dom());
        lemma_in_order_exists::<(String, String)>(node.advertised.dom());
        assert forall|k: int| 0 <= k < keys.len() implies node.advertised.dom().contains(
            #[trigger] keys[k],
        ) by {
            assert(keys.to_set().contains(keys[k]));
        }
        lemma_advertised_list(keys, node.advertised, name, links, i - before.len());
    }
}

/// The hard constraints of BGP hold of every result: no best route that was learned over
/// eBGP has been through the AS of its node, and nothing that was learned over iBGP stands
/// advertised on an iBGP session.
pub proof fn law_result_keeps_constraints(input: ScenarioInputView)
    requires
        runnable(input),
        input.nodes.dom().finite(),
    ensures
        ({
            let r = simulation(input);
            &&& forall|i: int|
                0 <= i < r.best.len() ==> {
                    let entry = #[trigger] r.best[i];
                    &&& input.nodes.dom().contains(entry.node)
                    &&& entry.route.provenance == Provenance::EBgp
                        ==> !entry.route.as_path.contains(input.nodes[entry.node].asn)
                }
            &&& forall|i: int|
                0 <= i < r.advertised.len() ==> {
                    let a = #[trigger] r.advertised[i];
                    (link(input.sessions, a.session)->0).kind == SessionKind::IBgp
                        ==> a.route.provenance != Provenance::IBgp
                }
        }),
{
    law_constraints_bind_every_run(input);
    let r = simulation(input);
    let nodes = ending(input).state.nodes;
    let names = in_order::<String>(nodes.dom());
    lemma_in_order_exists::<String>(nodes.dom());
    assert forall|k: int| 0 <= k < names.len() implies nodes.dom().contains(#[trigger] names[k])
        && lawful(nodes[names[k]], input.sessions) by {
        assert(names.to_set().contains(names[k]));
    }
    assert forall|i: int| 0 <= i < r.best.len() implies ({
        let entry = #[trigger] r.best[i];
        &&& input.nodes.dom().contains(entry.node)
        &&& entry.route.provenance == Provenance::EBgp ==> !entry.route.as_path.contains(
            input.nodes[entry.node].asn,
        )
    }) by {
        lemma_all_best(names, nodes, input.sessions, i);
    }
    assert forall|i: int| 0 <= i < r.advertised.len() implies ({
        let a = #[trigger] r.advertised[i];
        (link(input.sessions, a.session)->0).kind == SessionKind::IBgp ==> a.route.provenance
            != Provenance::IBgp
    }) by {
        lemma_all_advertised(names, nodes, input.sessions, i);
    }
}

} // verus!
