//! What each message does to the node that it is for, and what the step that it leaves says.

use crate::bestpath::selection;
use crate::evidence::{ExportRecordView, StepKind};
use crate::export::{
    law_export_reaches_every_session, newly_sent, node_exports, offered, says,
};
use crate::model::{Decision, Provenance, RouteView, SessionKind, SessionView};
use crate::ordmap::{in_order, lemma_in_order_exists};
use crate::policy::{evaluation, Verdict};
use crate::queue::{carried, MsgKind, ScheduledView};
use crate::rib::{
    eligible, incoming, lemma_link_exists, link, lookup, reselected, RtNodeView,
};
use crate::step::{
    deliverable, lemma_incoming, lemma_refreshed_keeps, lemma_resent_keeps, origin_routes,
    processed, purged, reannounced, rebooted, received_at, refreshed, resent, Refreshing,
    Resending, Restarting, StateView,
};
use crate::text::Chars;
use vstd::prelude::*;

verus! {

/// The best route of a node for a prefix.
pub open spec fn best_at(node: RtNodeView, prefix: Chars) -> Option<RouteView> {
    if node.best.dom().contains(prefix) {
        Some(node.best[prefix])
    } else {
        None
    }
}

/// Whether export records account for all sessions that start at a node: each has one that
/// says where it leads and what stands advertised there now.
pub open spec fn accounted(
    records: Seq<ExportRecordView>,
    node: RtNodeView,
    name: Chars,
    links: Seq<SessionView>,
    prefix: Chars,
) -> bool {
    forall|i: int|
        0 <= i < links.len() && (#[trigger] links[i]).local == name ==> exists|k: int|
            0 <= k < records.len() && {
                let r = #[trigger] records[k];
                &&& r.session == links[i].id
                &&& r.to == (link(links, links[i].id)->0).remote
                &&& r.prefix == prefix
                &&& r.route == says(node.advertised, links[i].id, prefix)
                &&& r.published <==> r.route is Some
            }
}

proof fn lemma_accounted(
    node: RtNodeView,
    name: Chars,
    prefix: Chars,
    links: Seq<SessionView>,
    queue: Seq<ScheduledView>,
    tick: u64,
)
    ensures
        ({
            let e = node_exports(node, name, prefix, links, queue, tick);
            accounted(
                e.records,
                RtNodeView { advertised: e.advertised, ..node },
                name,
                links,
                prefix,
            )
        }),
{
    let e = node_exports(node, name, prefix, links, queue, tick);
    let out = RtNodeView { advertised: e.advertised, ..node };
    assert forall|i: int| 0 <= i < links.len() && (#[trigger] links[i]).local == name implies exists|
        k: int,
    |
        0 <= k < e.records.len() && {
            let r = #[trigger] e.records[k];
            &&& r.session == links[i].id
            &&& r.to == (link(links, links[i].id)->0).remote
            &&& r.prefix == prefix
            &&& r.route == says(out.advertised, links[i].id, prefix)
            &&& r.published <==> r.route is Some
        } by {
        law_export_reaches_every_session(node, name, prefix, links, queue, tick, i);
        lemma_link_exists(links, i);
        let sess = link(links, links[i].id)->0;
        let best = best_at(node, prefix);
        let o = offered(best, sess, node.spec.asn, node.spec.policy.export);
        crate::export::law_published_when_policy_accepts(
            best,
            sess,
            node.spec.asn,
            node.spec.policy.export,
        );
        let k = choose|k: int|
            0 <= k < e.records.len() && {
                let r = #[trigger] e.records[k];
                &&& r.session == sess.id
                &&& r.to == sess.remote
                &&& r.prefix == prefix
                &&& r.published == o.published
                &&& r.reason == o.reason
                &&& r.policy == o.policy
                &&& r.route == o.route
            };
        let r = e.records[k];
        assert(r.session == links[i].id);
    }
}

/// An UPDATE is for the remote end of its session. It loops where the session is eBGP and the
/// AS of that node is on the path; then it is refused with evidence, and what the session had
/// brought for the prefix goes with it. Otherwise the import policy for the sender decides on
/// the route as one that was learned over the session: accepted, it replaces what the session
/// had brought; refused, it leaves everything as it was. The record shows the sender, the
/// verdict of the policy, the accepted route, and whether and to what the best route changed.
/// Exactly where it did the node exports, and the step accounts for every session. After an
/// accepted route the step shows the selection among the candidates.
pub proof fn law_update_is_taken_in(
    st: StateView,
    links: Seq<SessionView>,
    m: ScheduledView,
    seq: usize,
)
    requires
        deliverable(st.nodes.dom(), links, m),
        m.kind == MsgKind::Receive,
    ensures
        ({
            let sid = m.session->0;
            let prefix = m.prefix->0;
            let route = m.route->0;
            let sess = link(links, sid)->0;
            let name = sess.remote;
            let node = st.nodes[name];
            let after = processed(st, links, m, seq);
            let done = after.nodes[name];
            let step = after.steps.last();
            let rec = step.receive->0;
            let looping = sess.kind == SessionKind::EBgp && route.as_path.contains(node.spec.asn);
            let (verdict, left, _count) = evaluation(
                node.spec.policy.import,
                RouteView {
                    provenance: if sess.kind == SessionKind::EBgp {
                        Provenance::EBgp
                    } else {
                        Provenance::IBgp
                    },
                    ingress_session: Some(sid),
                    first_as: if route.first_as is None && route.as_path.len() > 0 {
                        Some(route.as_path[0])
                    } else {
                        route.first_as
                    },
                    ..route
                },
                sess.local,
                Decision::Accept,
            );
            let accepted = !looping && verdict.decision == Verdict::Accept;
            &&& step.kind == StepKind::Receive
            &&& step.node == name
            &&& step.prefix == Some(prefix)
            &&& step.tick == m.tick
            &&& step.receive is Some
            &&& rec.session == sid
            &&& rec.from == sess.local
            &&& rec.prefix == prefix
            &&& rec.policy == verdict
            &&& rec.accepted == accepted
            &&& rec.route_after == (if accepted { Some(left) } else { None })
            &&& rec.reason == (if looping { "as-path-loop"@ } else { verdict.reason })
            &&& rec.loop_evidence is Some <==> looping
            &&& rec.loop_evidence matches Some(e) ==> {
                &&& e.kind == "as-path-loop"@
                &&& e.session == sid
                &&& e.as_path == route.as_path
                &&& e.own_as == node.spec.asn
            }
            &&& done.rib_in == (if accepted {
                node.rib_in.insert((sid, prefix), left)
            } else if looping {
                node.rib_in.remove((sid, prefix))
            } else {
                node.rib_in
            })
            &&& done.origins == node.origins
            &&& done.spec == node.spec
            &&& rec.best == best_at(done, prefix)
            &&& rec.best_changed <==> best_at(done, prefix) != best_at(node, prefix)
            &&& forall|p: Chars| p != prefix ==> #[trigger] best_at(done, p) == best_at(node, p)
            &&& rec.best_changed ==> accounted(step.exports, done, name, links, prefix)
            &&& !rec.best_changed ==> step.exports.len() == 0 && after.queue == st.queue
            &&& step.selection == (if accepted {
                Some(selection(eligible(done, name, prefix, links)).0)
            } else {
                None
            })
        }),
{
    let sid = m.session->0;
    let prefix = m.prefix->0;
    let sess = link(links, sid)->0;
    let name = sess.remote;
    let node = st.nodes[name];
    let r = received_at(node, name, sess, sid, prefix, m.route->0, links);
    let after = processed(st, links, m, seq);
    lemma_accounted(r.node, name, prefix, links, st.queue, m.tick);
    if !node.rib_in.dom().contains((sid, prefix)) {
        assert(node.rib_in.remove((sid, prefix)) =~= node.rib_in);
    }
    assert forall|p: Chars| p != prefix implies #[trigger] best_at(after.nodes[name], p)
        == best_at(node, p) by {}
}

/// A WITHDRAW is for the remote end of its session and takes out what the session had brought
/// for the prefix. Exactly where that changes the best route the node exports, and the step
/// accounts for every session.
pub proof fn law_withdraw_is_taken_in(
    st: StateView,
    links: Seq<SessionView>,
    m: ScheduledView,
    seq: usize,
)
    requires
        deliverable(st.nodes.dom(), links, m),
        m.kind == MsgKind::Withdraw,
    ensures
        ({
            let sid = m.session->0;
            let prefix = m.prefix->0;
            let name = (link(links, sid)->0).remote;
            let node = st.nodes[name];
            let after = processed(st, links, m, seq);
            let done = after.nodes[name];
            let step = after.steps.last();
            let changed = best_at(done, prefix) != best_at(node, prefix);
            &&& step.kind == StepKind::Withdraw
            &&& step.node == name
            &&& step.prefix == Some(prefix)
            &&& step.tick == m.tick
            &&& step.receive is None
            &&& done.rib_in == node.rib_in.remove((sid, prefix))
            &&& done.origins == node.origins
            &&& done.spec == node.spec
            &&& forall|p: Chars| p != prefix ==> #[trigger] best_at(done, p) == best_at(node, p)
            &&& changed ==> accounted(step.exports, done, name, links, prefix)
            &&& !changed ==> step.exports.len() == 0 && after.queue == st.queue
            &&& step.selection == Some(selection(eligible(done, name, prefix, links)).0)
        }),
{
    let sid = m.session->0;
    let prefix = m.prefix->0;
    let name = (link(links, sid)->0).remote;
    let node = st.nodes[name];
    let left = purged(node, sid, prefix);
    let chosen = reselected(left, name, prefix, links);
    let after = processed(st, links, m, seq);
    lemma_accounted(chosen, name, prefix, links, st.queue, m.tick);
    assert forall|p: Chars| p != prefix implies #[trigger] best_at(after.nodes[name], p)
        == best_at(node, p) by {}
}

/// An announcement makes its node originate the route under the prefix, and its withdrawal
/// makes it cease to; nothing that the node has learned is touched, nor its best routes for
/// other prefixes, and the step accounts for every session.
pub proof fn law_origin_is_taken_in(
    st: StateView,
    links: Seq<SessionView>,
    m: ScheduledView,
    seq: usize,
)
    requires
        deliverable(st.nodes.dom(), links, m),
        m.kind == MsgKind::OriginInject || m.kind == MsgKind::OriginWithdraw,
    ensures
        ({
            let prefix = m.prefix->0;
            let name = m.node;
            let node = st.nodes[name];
            let after = processed(st, links, m, seq);
            let done = after.nodes[name];
            let step = after.steps.last();
            &&& m.kind == MsgKind::OriginInject ==> {
                &&& step.kind == StepKind::OriginInject
                &&& done.origins == node.origins.insert(prefix, m.route->0)
            }
            &&& m.kind == MsgKind::OriginWithdraw ==> {
                &&& step.kind == StepKind::OriginWithdraw
                &&& done.origins == node.origins.remove(prefix)
            }
            &&& step.node == name
            &&& step.prefix == Some(prefix)
            &&& step.tick == m.tick
            &&& step.receive is None
            &&& done.rib_in == node.rib_in
            &&& done.spec == node.spec
            &&& forall|p: Chars| p != prefix ==> #[trigger] best_at(done, p) == best_at(node, p)
            &&& accounted(step.exports, done, name, links, prefix)
            &&& step.selection == Some(selection(eligible(done, name, prefix, links)).0)
        }),
{
    let prefix = m.prefix->0;
    let name = m.node;
    let node = st.nodes[name];
    let after = processed(st, links, m, seq);
    let next = if m.kind == MsgKind::OriginInject {
        RtNodeView { origins: node.origins.insert(prefix, m.route->0), ..node }
    } else {
        RtNodeView { origins: node.origins.remove(prefix), ..node }
    };
    let chosen = reselected(next, name, prefix, links);
    lemma_accounted(chosen, name, prefix, links, st.queue, m.tick);
    assert forall|p: Chars| p != prefix implies #[trigger] best_at(after.nodes[name], p)
        == best_at(node, p) by {}
}

// ---------- restart ----------

proof fn lemma_resent_longer(prefixes: Seq<Chars>, r: Resending, sess: SessionView, tick: u64)
    ensures
        resent(prefixes, r, sess, tick).queue.len() >= r.queue.len(),
    decreases prefixes.len(),
{
    if prefixes.len() > 0 {
        lemma_resent_longer(prefixes.drop_last(), r, sess, tick);
    }
}

/// A fresh message stays fresh while other prefixes, or other sessions, are served.
proof fn lemma_resent_leaves(
    prefixes: Seq<Chars>,
    r: Resending,
    sess: SessionView,
    tick: u64,
    i: int,
)
    requires
        0 <= i < r.queue.len(),
        r.queue[i].session != Some(sess.id) || forall|k: int|
            0 <= k < prefixes.len() ==> r.queue[i].prefix != Some(#[trigger] prefixes[k]),
    ensures
        ({
            let out = resent(prefixes, r, sess, tick);
            &&& i < out.queue.len()
            &&& out.queue[i] == r.queue[i]
        }),
    decreases prefixes.len(),
{
    if prefixes.len() > 0 {
        let init = prefixes.drop_last();
        assert(r.queue[i].session != Some(sess.id) || forall|k: int|
            0 <= k < init.len() ==> r.queue[i].prefix != Some(#[trigger] init[k])) by {
            if r.queue[i].session == Some(sess.id) {
                assert forall|k: int| 0 <= k < init.len() implies r.queue[i].prefix != Some(
                    #[trigger] init[k],
                ) by {
                    assert(init[k] == prefixes[k]);
                }
            }
        }
        assert(prefixes[prefixes.len() - 1] == prefixes.last());
        lemma_resent_leaves(init, r, sess, tick, i);
    }
}

proof fn lemma_resent_sends(
    prefixes: Seq<Chars>,
    r: Resending,
    sess: SessionView,
    tick: u64,
    prefix: Chars,
)
    requires
        prefixes.contains(prefix),
        offered(
            best_at(r.node, prefix),
            sess,
            r.node.spec.asn,
            r.node.spec.policy.export,
        ).published,
    ensures
        newly_sent(
            r.queue,
            resent(prefixes, r, sess, tick).queue,
            carried(
                sess,
                prefix,
                offered(
                    best_at(r.node, prefix),
                    sess,
                    r.node.spec.asn,
                    r.node.spec.policy.export,
                ).route,
                tick,
            ),
        ),
    decreases prefixes.len(),
{
    let init = prefixes.drop_last();
    let last = prefixes.last();
    lemma_resent_keeps(init, r, sess, tick);
    lemma_resent_longer(init, r, sess, tick);
    let before = resent(init, r, sess, tick);
    let out = resent(prefixes, r, sess, tick);
    let o = offered(best_at(r.node, prefix), sess, r.node.spec.asn, r.node.spec.policy.export);
    let msg = carried(sess, prefix, o.route, tick);
    if last == prefix {
        assert(out.queue[out.queue.len() - 1] == msg);
    } else {
        let k = choose|k: int| 0 <= k < prefixes.len() && prefixes[k] == prefix;
        assert(init[k] == prefix);
        lemma_resent_sends(init, r, sess, tick, prefix);
        let i = choose|i: int|
            r.queue.len() <= i < before.queue.len() && #[trigger] before.queue[i] == msg;
        assert(out.queue[i] == msg);
    }
}

proof fn lemma_refreshed_longer(
    sids: Seq<Chars>,
    r: Refreshing,
    links: Seq<SessionView>,
    tick: u64,
)
    ensures
        refreshed(sids, r, links, tick).queue.len() >= r.queue.len(),
    decreases sids.len(),
{
    if sids.len() > 0 {
        let init = sids.drop_last();
        lemma_refreshed_longer(init, r, links, tick);
        let before = refreshed(init, r, links, tick);
        let sess = link(links, sids.last())->0;
        let node = before.nodes[sess.local];
        lemma_resent_longer(
            in_order::<String>(node.best.dom()),
            Resending { node, queue: before.queue },
            sess,
            tick,
        );
    }
}

proof fn lemma_refreshed_sends(
    sids: Seq<Chars>,
    r: Refreshing,
    links: Seq<SessionView>,
    tick: u64,
    sid: Chars,
    prefix: Chars,
)
    requires
        sids.contains(sid),
        forall|k: int|
            0 <= k < sids.len() ==> (link(links, #[trigger] sids[k])->0).id == sids[k],
        r.nodes[(link(links, sid)->0).local].best.dom().finite(),
        r.nodes[(link(links, sid)->0).local].best.dom().contains(prefix),
        ({
            let sess = link(links, sid)->0;
            let node = r.nodes[sess.local];
            offered(
                best_at(node, prefix),
                sess,
                node.spec.asn,
                node.spec.policy.export,
            ).published
        }),
    ensures
        ({
            let sess = link(links, sid)->0;
            let node = r.nodes[sess.local];
            newly_sent(
                r.queue,
                refreshed(sids, r, links, tick).queue,
                carried(
                    sess,
                    prefix,
                    offered(
                        best_at(node, prefix),
                        sess,
                        node.spec.asn,
                        node.spec.policy.export,
                    ).route,
                    tick,
                ),
            )
        }),
    decreases sids.len(),
{
    let init = sids.drop_last();
    let last = sids.last();
    assert(sids[sids.len() - 1] == last);
    let sess = link(links, sid)->0;
    let node = r.nodes[sess.local];
    let o = offered(best_at(node, prefix), sess, node.spec.asn, node.spec.policy.export);
    let msg = carried(sess, prefix, o.route, tick);
    let before = refreshed(init, r, links, tick);
    lemma_refreshed_longer(init, r, links, tick);
    assert forall|k: int| 0 <= k < init.len() implies (link(links, #[trigger] init[k])->0).id
        == init[k] by {
        assert(init[k] == sids[k]);
    }
    let there = link(links, last)->0;
    let sender = before.nodes[there.local];
    let prefixes = in_order::<String>(sender.best.dom());
    let first = Resending { node: sender, queue: before.queue };
    let out = resent(prefixes, first, there, tick);
    if last == sid {
        lemma_refreshed_keeps(init, r, links, tick, sess.local);
        lemma_in_order_exists::<String>(sender.best.dom());
        assert(prefixes.to_set().contains(prefix));
        lemma_resent_sends(prefixes, first, there, tick, prefix);
        let i = choose|i: int|
            before.queue.len() <= i < out.queue.len() && #[trigger] out.queue[i] == msg;
        assert(refreshed(sids, r, links, tick).queue[i] == msg);
    } else {
        let k = choose|k: int| 0 <= k < sids.len() && sids[k] == sid;
        assert(init[k] == sid);
        lemma_refreshed_sends(init, r, links, tick, sid, prefix);
        let i = choose|i: int|
            r.queue.len() <= i < before.queue.len() && #[trigger] before.queue[i] == msg;
        assert(sess.id == sid && there.id == last);
        lemma_resent_leaves(prefixes, first, there, tick, i);
        assert(refreshed(sids, r, links, tick).queue[i] == msg);
    }
}

/// A restart forgets what its node has learned and keeps what it originates. Every neighbor
/// that has a session to it sends what it publishes there of its best routes again, in fresh
/// messages. The step names the node.
pub proof fn law_restart_is_served(
    st: StateView,
    links: Seq<SessionView>,
    m: ScheduledView,
    seq: usize,
    i: int,
    prefix: Chars,
)
    requires
        deliverable(st.nodes.dom(), links, m),
        m.kind == MsgKind::Restart,
        0 <= i < links.len(),
        links[i].remote == m.node,
    ensures
        ({
            let name = m.node;
            let after = processed(st, links, m, seq);
            let step = after.steps.last();
            let sess = link(links, links[i].id)->0;
            let sender = st.nodes[sess.local];
            let o = offered(
                best_at(sender, prefix),
                sess,
                sender.spec.asn,
                sender.spec.policy.export,
            );
            &&& step.kind == StepKind::Restart
            &&& step.node == name
            &&& step.prefix is None
            &&& step.tick == m.tick
            &&& after.nodes[name].rib_in.dom() == Set::<(Chars, Chars)>::empty()
            &&& after.nodes[name].origins == st.nodes[name].origins
            &&& after.nodes[name].spec == st.nodes[name].spec
            &&& sess.local != name && sender.best.dom().finite() && o.published ==> newly_sent(
                st.queue,
                after.queue,
                carried(sess, prefix, o.route, m.tick),
            )
        }),
{
    let name = m.node;
    let node = st.nodes[name];
    let after = processed(st, links, m, seq);
    crate::step::law_restart_clears_rib(st, links, m, seq);
    let routes = origin_routes(node);
    let first = Restarting {
        node: rebooted(node),
        queue: st.queue,
        exports: Seq::empty(),
        selection: None,
    };
    crate::step::lemma_reannounced_keeps(routes, first, name, links, m.tick);
    let r = reannounced(routes, first, name, links, m.tick);
    let half = Refreshing { nodes: st.nodes.insert(name, r.node), queue: r.queue };
    let sids = incoming(links, name);
    lemma_refreshed_keeps(sids, half, links, m.tick, name);
    let sid = links[i].id;
    let ends = |s: SessionView| s.remote == name;
    links.lemma_filter_contains(ends, i);
    let f = links.filter(ends);
    let k = choose|k: int| 0 <= k < f.len() && f[k] == links[i];
    assert(sids[k] == sid);
    assert forall|j: int| 0 <= j < sids.len() implies (link(links, #[trigger] sids[j])->0).id
        == sids[j] by {
        lemma_incoming(st.nodes.dom(), links, name, j);
    }
    let sess = link(links, sid)->0;
    let sender = st.nodes[sess.local];
    let o = offered(best_at(sender, prefix), sess, sender.spec.asn, sender.spec.policy.export);
    if sess.local != name && sender.best.dom().finite() && o.published {
        assert(half.nodes[sess.local] == sender);
        lemma_refreshed_sends(sids, half, links, m.tick, sid, prefix);
        lemma_reannounced_longer(routes, first, name, links, m.tick);
        let msg = carried(sess, prefix, o.route, m.tick);
        let x = choose|x: int|
            r.queue.len() <= x < after.queue.len() && #[trigger] after.queue[x] == msg;
        assert(after.queue[x] == msg);
    }
}

proof fn lemma_reannounced_longer(
    routes: Seq<RouteView>,
    r: Restarting,
    name: Chars,
    links: Seq<SessionView>,
    tick: u64,
)
    ensures
        reannounced(routes, r, name, links, tick).queue.len() >= r.queue.len(),
    decreases routes.len(),
{
    if routes.len() > 0 {
        let init = routes.drop_last();
        lemma_reannounced_longer(init, r, name, links, tick);
        let before = reannounced(init, r, name, links, tick);
        let prefix = routes.last().prefix;
        let chosen = reselected(before.node, name, prefix, links);
        crate::export::lemma_exported_longer(
            crate::rib::outgoing(links, name),
            crate::export::Exporting {
                advertised: chosen.advertised,
                queue: before.queue,
                records: Seq::empty(),
            },
            lookup(chosen.best, prefix),
            links,
            prefix,
            chosen.spec.asn,
            chosen.spec.policy.export,
            tick,
        );
    }
}

} // verus!
