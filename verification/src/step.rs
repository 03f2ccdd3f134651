//! How the global state answers one message.
//!
//! * AS_PATH loops and iBGP split-horizon violations are refused with explicit evidence
//!   (they never silently disappear);
//! * rule rewrites are applied before later conditions are tested.

use crate::bestpath::{SelectionReport, SelectionReportView};
use crate::evidence::{
    ExportRecord, ExportRecordView, LoopEvidence, LoopEvidenceView, ReceiveRecord,
    ReceiveRecordView, Step, StepKind, StepView,
};
use crate::export::{export_best, exported, node_exports, offer, offered, Exporting};
use crate::model::{
    Decision, NodeId, Provenance, Route, RouteView, RuleView, Session, SessionKind, SessionView,
};
use crate::ordmap::{in_order, OrdMap};
use crate::policy::{evaluate, evaluation, path_contains, PolicyVerdictView, Verdict};
use crate::queue::{
    carried, schedule_send, scheduled, MsgKind, Scheduled, ScheduledView,
};
use crate::rib::{
    best_changes, find_link, incoming, incoming_ids, known_ingress, link, lookup, new_best,
    new_report, outgoing, reevaluate, reselected, RtNode, RtNodeView,
};
use crate::text::{
    bool_name, bool_str, bracket, bracketed, decimal, decimals, u32_texts, u64_text, Chars,
};
use crate::value::{append, push_to, Value};
use vstd::prelude::*;

verus! {

// ---------- global state ----------

/// The global state of a simulation.
#[derive(Debug)]
pub struct State {
    pub nodes: OrdMap<NodeId, RtNode>,
    pub queue: Vec<Scheduled>,
    pub steps: Vec<Step>,
}

/// What a [`State`] holds.
#[verifier::ext_equal]
pub struct StateView {
    pub nodes: Map<Chars, RtNodeView>,
    pub queue: Seq<ScheduledView>,
    pub steps: Seq<StepView>,
}

impl View for State {
    type V = StateView;

    open spec fn view(&self) -> StateView {
        StateView {
            nodes: self.nodes.deep_view(),
            queue: self.queue.deep_view(),
            steps: self.steps.deep_view(),
        }
    }
}

impl DeepView for State {
    type V = StateView;

    open spec fn deep_view(&self) -> StateView {
        self@
    }
}

/// The tick that has been reached: that of the last recorded step, or 0 before the first.
pub open spec fn now(steps: Seq<StepView>) -> u64 {
    if steps.len() > 0 {
        steps.last().tick
    } else {
        0
    }
}

/// The tick that has been reached.
pub fn current_tick(steps: &Vec<Step>) -> (r: u64)
    ensures
        r == now(steps.deep_view()),
{
    if steps.len() > 0 {
        assert(steps.deep_view().last() == steps@[steps@.len() - 1]@);
        steps[steps.len() - 1].tick
    } else {
        0
    }
}

/// Whether a node may restart: all sessions that end there have both their ends.
pub open spec fn restartable(nodes: Set<Chars>, links: Seq<SessionView>, node: Chars) -> bool {
    &&& nodes.contains(node)
    &&& forall|i: int|
        0 <= i < links.len() && (#[trigger] links[i]).remote == node ==> {
            &&& nodes.contains((link(links, links[i].id)->0).local)
            &&& nodes.contains((link(links, links[i].id)->0).remote)
        }
}

/// Whether a message has somewhere to go and all that its kind needs.
pub open spec fn deliverable(nodes: Set<Chars>, links: Seq<SessionView>, m: ScheduledView) -> bool {
    match m.kind {
        MsgKind::OriginInject => nodes.contains(m.node) && m.prefix is Some && m.route is Some,
        MsgKind::OriginWithdraw => nodes.contains(m.node) && m.prefix is Some,
        MsgKind::Restart => restartable(nodes, links, m.node),
        MsgKind::Receive => m.session is Some && m.prefix is Some && m.route is Some && link(
            links,
            m.session->0,
        ) is Some && nodes.contains((link(links, m.session->0)->0).remote),
        MsgKind::Withdraw => m.session is Some && m.prefix is Some && link(
            links,
            m.session->0,
        ) is Some && nodes.contains((link(links, m.session->0)->0).remote),
    }
}

/// Whether every session that starts at a node ends at one.
pub open spec fn served(nodes: Set<Chars>, links: Seq<SessionView>) -> bool {
    forall|i: int|
        0 <= i < links.len() && nodes.contains((#[trigger] links[i]).local) ==> nodes.contains(
            (link(links, links[i].id)->0).remote,
        )
}

/// Whether every advertisement of a node went over a known session.
pub open spec fn known_egress(node: RtNodeView, links: Seq<SessionView>) -> bool {
    forall|k: (Chars, Chars)| #[trigger]
        node.advertised.dom().contains(k) ==> link(links, k.0) is Some
}

/// Whether every message of a queue is deliverable.
pub open spec fn all_deliverable(
    nodes: Set<Chars>,
    links: Seq<SessionView>,
    queue: Seq<ScheduledView>,
) -> bool {
    forall|i: int| 0 <= i < queue.len() ==> deliverable(nodes, links, #[trigger] queue[i])
}

/// The invariant of the global state: everything that it names is there.
pub open spec fn sound(st: StateView, links: Seq<SessionView>) -> bool {
    &&& served(st.nodes.dom(), links)
    &&& all_deliverable(st.nodes.dom(), links, st.queue)
    &&& forall|n: Chars| #[trigger]
        st.nodes.dom().contains(n) ==> known_ingress(st.nodes[n], links) && known_egress(
            st.nodes[n],
            links,
        )
}

// ---------- local origins ----------

/// The state once a node has selected and exported anew for a prefix, with the step that
/// says so.
pub open spec fn settled(
    st: StateView,
    links: Seq<SessionView>,
    name: Chars,
    node: RtNodeView,
    prefix: Chars,
    seq: usize,
    tick: u64,
    kind: StepKind,
    summary: Chars,
) -> StateView {
    let chosen = reselected(node, name, prefix, links);
    let e = node_exports(chosen, name, prefix, links, st.queue, tick);
    StateView {
        nodes: st.nodes.insert(name, RtNodeView { advertised: e.advertised, ..chosen }),
        queue: e.queue,
        steps: st.steps.push(
            StepView {
                seq,
                tick,
                kind,
                node: name,
                prefix: Some(prefix),
                summary,
                receive: None,
                exports: e.records,
                selection: Some(new_report(node, name, prefix, links)),
            },
        ),
    }
}

/// A node starts to originate a prefix.
pub open spec fn injected(
    st: StateView,
    links: Seq<SessionView>,
    m: ScheduledView,
    seq: usize,
) -> StateView {
    let name = m.node;
    let prefix = m.prefix->0;
    let node = st.nodes[name];
    settled(
        st,
        links,
        name,
        RtNodeView { origins: node.origins.insert(prefix, m.route->0), ..node },
        prefix,
        seq,
        m.tick,
        StepKind::OriginInject,
        name + " originates "@ + prefix,
    )
}

/// A node ceases to originate a prefix.
pub open spec fn origin_withdrawn(
    st: StateView,
    links: Seq<SessionView>,
    m: ScheduledView,
    seq: usize,
) -> StateView {
    let name = m.node;
    let prefix = m.prefix->0;
    let node = st.nodes[name];
    settled(
        st,
        links,
        name,
        RtNodeView { origins: node.origins.remove(prefix), ..node },
        prefix,
        seq,
        m.tick,
        StepKind::OriginWithdraw,
        name + " withdraws originated "@ + prefix,
    )
}

fn handle_origin_inject(st: &mut State, links: &Vec<Session>, m: Scheduled, seq: usize)
    requires
        sound(old(st)@, links.deep_view()),
        deliverable(old(st)@.nodes.dom(), links.deep_view(), m@),
        m.kind == MsgKind::OriginInject,
    ensures
        final(st)@ == injected(old(st)@, links.deep_view(), m@, seq),
{
    let ghost before = st@;
    let name = m.node;
    if let (Some(prefix), Some(route), Some(rt)) = (m.prefix, m.route, st.nodes.remove(&name)) {
        let mut rt = rt;
        rt.origins.insert(prefix.clone(), route);
        assert(rt@.rib_in == before.nodes[name@].rib_in);
        assert(known_ingress(before.nodes[name@], links.deep_view()));
        let (_, _, report) = reevaluate(&mut rt, name.as_str(), prefix.as_str(), links);
        let exports = export_best(&mut rt, &mut st.queue, name.as_str(), &prefix, links, m.tick);
        let summary = name.clone().concat(" originates ").concat(prefix.as_str());
        push_to(
            &mut st.steps,
            Step {
                seq,
                tick: m.tick,
                kind: StepKind::OriginInject,
                node: name.clone(),
                prefix: Some(prefix),
                summary,
                receive: None,
                exports,
                selection: Some(report),
            },
        );
        st.nodes.insert(name, rt);
        assert(st@ =~= injected(before, links.deep_view(), m@, seq));
    }
}

fn handle_origin_withdraw(st: &mut State, links: &Vec<Session>, m: Scheduled, seq: usize)
    requires
        sound(old(st)@, links.deep_view()),
        deliverable(old(st)@.nodes.dom(), links.deep_view(), m@),
        m.kind == MsgKind::OriginWithdraw,
    ensures
        final(st)@ == origin_withdrawn(old(st)@, links.deep_view(), m@, seq),
{
    let ghost before = st@;
    let name = m.node;
    if let (Some(prefix), Some(rt)) = (m.prefix, st.nodes.remove(&name)) {
        let mut rt = rt;
        rt.origins.remove(&prefix);
        assert(rt@.rib_in == before.nodes[name@].rib_in);
        assert(known_ingress(before.nodes[name@], links.deep_view()));
        let (_, _, report) = reevaluate(&mut rt, name.as_str(), prefix.as_str(), links);
        let exports = export_best(&mut rt, &mut st.queue, name.as_str(), &prefix, links, m.tick);
        let summary = name.clone().concat(" withdraws originated ").concat(prefix.as_str());
        push_to(
            &mut st.steps,
            Step {
                seq,
                tick: m.tick,
                kind: StepKind::OriginWithdraw,
                node: name.clone(),
                prefix: Some(prefix),
                summary,
                receive: None,
                exports,
                selection: Some(report),
            },
        );
        st.nodes.insert(name, rt);
        assert(st@ =~= origin_withdrawn(before, links.deep_view(), m@, seq));
    }
}

// ---------- restart ----------

/// The routes that a node originates, in the order of their prefixes.
pub open spec fn origin_routes(node: RtNodeView) -> Seq<RouteView> {
    in_order::<String>(node.origins.dom()).map_values(|p: Chars| node.origins[p])
}

/// The map from the prefix of each route to the route; the later counts.
pub open spec fn by_prefix(routes: Seq<RouteView>) -> Map<Chars, RouteView>
    decreases routes.len(),
{
    if routes.len() == 0 {
        Map::empty()
    } else {
        by_prefix(routes.drop_last()).insert(routes.last().prefix, routes.last())
    }
}

/// A node that has come back up: nothing learned, nothing advertised, its own routes best.
pub open spec fn rebooted(node: RtNodeView) -> RtNodeView {
    RtNodeView {
        rib_in: Map::empty(),
        advertised: Map::empty(),
        best: by_prefix(origin_routes(node)),
        equal_peer: Map::empty(),
        up: true,
        ..node
    }
}

/// A node while it goes through its prefixes.
#[verifier::ext_equal]
pub struct Restarting {
    pub node: RtNodeView,
    pub queue: Seq<ScheduledView>,
    pub exports: Seq<ExportRecordView>,
    pub selection: Option<SelectionReportView>,
}

/// Selecting and exporting the prefixes of some routes, one after the other.
pub open spec fn reannounced(
    routes: Seq<RouteView>,
    r: Restarting,
    name: Chars,
    links: Seq<SessionView>,
    tick: u64,
) -> Restarting
    decreases routes.len(),
{
    if routes.len() == 0 {
        r
    } else {
        let before = reannounced(routes.drop_last(), r, name, links, tick);
        let prefix = routes.last().prefix;
        let chosen = reselected(before.node, name, prefix, links);
        let e = node_exports(chosen, name, prefix, links, before.queue, tick);
        Restarting {
            node: RtNodeView { advertised: e.advertised, ..chosen },
            queue: e.queue,
            exports: before.exports + e.records,
            selection: Some(new_report(before.node, name, prefix, links)),
        }
    }
}

/// A neighbor while it sends its best routes over a session again.
#[verifier::ext_equal]
pub struct Resending {
    pub node: RtNodeView,
    pub queue: Seq<ScheduledView>,
}

/// A neighbor that has sent its best routes for some prefixes over a session again. What
/// it sends is what it publishes there: split horizon and the export policy apply, and over
/// eBGP its own AS stands in front.
pub open spec fn resent(
    prefixes: Seq<Chars>,
    r: Resending,
    sess: SessionView,
    tick: u64,
) -> Resending
    decreases prefixes.len(),
{
    if prefixes.len() == 0 {
        r
    } else {
        let before = resent(prefixes.drop_last(), r, sess, tick);
        let node = before.node;
        let prefix = prefixes.last();
        let offer = offered(
            lookup(node.best, prefix),
            sess,
            node.spec.asn,
            node.spec.policy.export,
        );
        if offer.published {
            Resending {
                node: RtNodeView {
                    advertised: node.advertised.insert((sess.id, prefix), offer.route),
                    ..node
                },
                queue: scheduled(before.queue, carried(sess, prefix, offer.route, tick)),
            }
        } else {
            before
        }
    }
}

/// The nodes and the queue while the neighbors of a node send again.
#[verifier::ext_equal]
pub struct Refreshing {
    pub nodes: Map<Chars, RtNodeView>,
    pub queue: Seq<ScheduledView>,
}

/// The neighbors at the other ends of some sessions have sent their best routes again.
pub open spec fn refreshed(
    sids: Seq<Chars>,
    r: Refreshing,
    links: Seq<SessionView>,
    tick: u64,
) -> Refreshing
    decreases sids.len(),
{
    if sids.len() == 0 {
        r
    } else {
        let before = refreshed(sids.drop_last(), r, links, tick);
        let sess = link(links, sids.last())->0;
        let node = before.nodes[sess.local];
        let out = resent(
            in_order::<String>(node.best.dom()),
            Resending { node, queue: before.queue },
            sess,
            tick,
        );
        Refreshing { nodes: before.nodes.insert(sess.local, out.node), queue: out.queue }
    }
}

/// A node restarts: what it has learned and advertised is gone, its own routes are
/// originated again, and its neighbors publish their best routes to it again.
pub open spec fn restarted(
    st: StateView,
    links: Seq<SessionView>,
    m: ScheduledView,
    seq: usize,
) -> StateView {
    let name = m.node;
    let node = rebooted(st.nodes[name]);
    let r = reannounced(
        origin_routes(st.nodes[name]),
        Restarting { node, queue: st.queue, exports: Seq::empty(), selection: None },
        name,
        links,
        m.tick,
    );
    let done = refreshed(
        incoming(links, name),
        Refreshing { nodes: st.nodes.insert(name, r.node), queue: r.queue },
        links,
        m.tick,
    );
    StateView {
        nodes: done.nodes,
        queue: done.queue,
        steps: st.steps.push(
            StepView {
                seq,
                tick: m.tick,
                kind: StepKind::Restart,
                node: name,
                prefix: None,
                summary: name + " restarts: Adj-RIB-In cleared, local routes re-originated"@,
                receive: None,
                exports: r.exports,
                selection: r.selection,
            },
        ),
    }
}

fn reboot(rt: RtNode) -> (r: (RtNode, Vec<Route>))
    ensures
        r.0@ == rebooted(rt@),
        r.1.deep_view() == origin_routes(rt@),
{
    let ghost keys = in_order::<String>(rt.origins@.dom());
    let ghost all = origin_routes(rt@);
    let mut routes: Vec<Route> = Vec::new();
    let mut best: OrdMap<String, Route> = OrdMap::new();
    let n = rt.origins.len();
    let mut i: usize = 0;
    assert(all.take(0) =~= Seq::empty());
    while i < n
        invariant
            i <= n,
            n == keys.len(),
            keys == in_order::<String>(rt.origins@.dom()),
            all == origin_routes(rt@),
            routes@.len() == i,
            forall|k: int| 0 <= k < i ==> (#[trigger] routes@[k])@ == all[k],
            best@ == by_prefix(all.take(i as int)),
        decreases n - i,
    {
        let route = rt.origins.value_at(i);
        proof {
            assert(all[i as int] == route@);
            assert(all.take(i + 1).drop_last() =~= all.take(i as int));
        }
        best.insert(route.prefix.clone(), route.copy());
        routes.push(route.copy());
        i += 1;
    }
    assert(all.take(i as int) =~= all);
    assert(routes.deep_view() =~= all);
    let node = RtNode {
        spec: rt.spec,
        origins: rt.origins,
        rib_in: OrdMap::new(),
        best,
        equal_peer: OrdMap::new(),
        advertised: OrdMap::new(),
        up: true,
    };
    (node, routes)
}

fn reannounce(
    rt: &mut RtNode,
    queue: &mut Vec<Scheduled>,
    routes: &Vec<Route>,
    name: &str,
    links: &Vec<Session>,
    tick: u64,
) -> (r: (Vec<ExportRecord>, Option<SelectionReport>))
    requires
        known_ingress(old(rt)@, links.deep_view()),
    ensures
        ({
            let out = reannounced(
                routes.deep_view(),
                Restarting {
                    node: old(rt)@,
                    queue: old(queue).deep_view(),
                    exports: Seq::empty(),
                    selection: None,
                },
                name@,
                links.deep_view(),
                tick,
            );
            &&& final(rt)@ == out.node
            &&& final(queue).deep_view() == out.queue
            &&& r.0.deep_view() == out.exports
            &&& r.1.deep_view() == out.selection
        }),
{
    let ghost views = links.deep_view();
    let ghost all = routes.deep_view();
    let ghost start = Restarting {
        node: rt@,
        queue: queue.deep_view(),
        exports: Seq::empty(),
        selection: None,
    };
    let mut exports: Vec<ExportRecord> = Vec::new();
    let mut selection: Option<SelectionReport> = None;
    let mut i: usize = 0;
    assert(exports.deep_view() =~= Seq::empty());
    while i < routes.len()
        invariant
            i <= routes@.len(),
            views == links.deep_view(),
            all == routes.deep_view(),
            known_ingress(rt@, views),
            (Restarting {
                node: rt@,
                queue: queue.deep_view(),
                exports: exports.deep_view(),
                selection: selection.deep_view(),
            }) == reannounced(all.take(i as int), start, name@, views, tick),
        decreases routes.len() - i,
    {
        proof {
            assert(all.take(i + 1).drop_last() =~= all.take(i as int));
            assert(all.take(i + 1).last() == routes@[i as int]@);
        }
        let (_, _, report) = reevaluate(rt, name, routes[i].prefix.as_str(), links);
        let records = export_best(rt, queue, name, &routes[i].prefix, links, tick);
        append(&mut exports, &records);
        selection = Some(report);
        i += 1;
    }
    assert(all.take(i as int) =~= all);
    (exports, selection)
}

fn resend(rt: &mut RtNode, queue: &mut Vec<Scheduled>, sess: &Session, tick: u64)
    ensures
        ({
            let out = resent(
                in_order::<String>(old(rt)@.best.dom()),
                Resending { node: old(rt)@, queue: old(queue).deep_view() },
                sess@,
                tick,
            );
            &&& final(rt)@ == out.node
            &&& final(queue).deep_view() == out.queue
        }),
{
    let ghost before = rt@;
    let ghost keys = in_order::<String>(before.best.dom());
    let ghost start = Resending { node: before, queue: queue.deep_view() };
    let n = rt.best.len();
    let mut i: usize = 0;
    while i < n
        invariant
            i <= n,
            n == keys.len(),
            keys == in_order::<String>(before.best.dom()),
            rt@ == (RtNodeView { advertised: rt@.advertised, ..before }),
            (Resending { node: rt@, queue: queue.deep_view() }) == resent(
                keys.take(i as int),
                start,
                sess@,
                tick,
            ),
        decreases n - i,
    {
        let ghost partial = rt@;
        assert(keys.take(i + 1).drop_last() =~= keys.take(i as int));
        let prefix = rt.best.key_at(i).clone();
        let best = Some(rt.best.value_at(i).copy());
        assert(best.deep_view() == lookup(before.best, prefix@));
        let offer = offer(&best, sess, rt.spec.asn, &rt.spec.policy.export);
        if offer.published {
            schedule_send(queue, sess, prefix.clone(), offer.route.copy(), tick);
            let key = (sess.id.clone(), prefix);
            assert(key.deep_view() == (sess.id@, prefix@));
            rt.advertised.insert(key, offer.route);
            assert(rt@ =~= (RtNodeView { advertised: rt@.advertised, ..partial }));
        }
        i += 1;
    }
    assert(keys.take(i as int) =~= keys);
}

/// What a session that ends at a restarting node comes from.
pub proof fn lemma_incoming(nodes: Set<Chars>, links: Seq<SessionView>, name: Chars, k: int)
    requires
        restartable(nodes, links, name),
        0 <= k < incoming(links, name).len(),
    ensures
        ({
            let sid = incoming(links, name)[k];
            &&& link(links, sid) is Some
            &&& (link(links, sid)->0).id == sid
            &&& nodes.contains((link(links, sid)->0).local)
            &&& nodes.contains((link(links, sid)->0).remote)
        }),
{
    let ends = |s: SessionView| s.remote == name;
    let f = links.filter(ends);
    links.lemma_filter_pred(ends, k);
    assert(f.contains(f[k]));
    links.lemma_filter_contains_rev(ends, f[k]);
    let i = choose|i: int| 0 <= i < links.len() && links[i] == f[k];
    assert(links[i].remote == name);
    crate::rib::lemma_link_exists(links, i);
}

fn refresh(st: &mut State, links: &Vec<Session>, name: &str, tick: u64)
    requires
        restartable(old(st)@.nodes.dom(), links.deep_view(), name@),
    ensures
        ({
            let out = refreshed(
                incoming(links.deep_view(), name@),
                Refreshing { nodes: old(st)@.nodes, queue: old(st)@.queue },
                links.deep_view(),
                tick,
            );
            final(st)@ == (StateView { nodes: out.nodes, queue: out.queue, ..old(st)@ })
        }),
{
    let ghost before = st@;
    let ghost views = links.deep_view();
    let ghost start = Refreshing { nodes: before.nodes, queue: before.queue };
    let sids = incoming_ids(links, name);
    let ghost ids = sids.deep_view();
    let mut i: usize = 0;
    while i < sids.len()
        invariant
            i <= sids@.len(),
            views == links.deep_view(),
            ids == sids.deep_view(),
            ids == incoming(views, name@),
            restartable(before.nodes.dom(), views, name@),
            st@.nodes.dom() == before.nodes.dom(),
            st@.steps == before.steps,
            (Refreshing { nodes: st@.nodes, queue: st@.queue }) == refreshed(
                ids.take(i as int),
                start,
                views,
                tick,
            ),
        decreases sids.len() - i,
    {
        let ghost partial = st@;
        proof {
            assert(ids.take(i + 1).drop_last() =~= ids.take(i as int));
            assert(ids.take(i + 1).last() == sids@[i as int]@);
            lemma_incoming(before.nodes.dom(), views, name@, i as int);
        }
        if let Some(sess) = find_link(links, sids[i].as_str()) {
            if let Some(neighbor) = st.nodes.remove(&sess.local) {
                let mut neighbor = neighbor;
                resend(&mut neighbor, &mut st.queue, sess, tick);
                let ghost done = neighbor@;
                st.nodes.insert(sess.local.clone(), neighbor);
                assert(st@.nodes =~= partial.nodes.insert(sess.local@, done));
                assert(st@.nodes.dom() =~= before.nodes.dom());
            }
        }
        i += 1;
    }
    assert(ids.take(i as int) =~= ids);
}

fn handle_restart(st: &mut State, links: &Vec<Session>, m: Scheduled, seq: usize)
    requires
        sound(old(st)@, links.deep_view()),
        deliverable(old(st)@.nodes.dom(), links.deep_view(), m@),
        m.kind == MsgKind::Restart,
    ensures
        final(st)@ == restarted(old(st)@, links.deep_view(), m@, seq),
{
    let ghost before = st@;
    let name = m.node;
    if let Some(rt) = st.nodes.remove(&name) {
        let (rebuilt, routes) = reboot(rt);
        let mut rt = rebuilt;
        let tick = m.tick;
        let (exports, selection) = reannounce(
            &mut rt,
            &mut st.queue,
            &routes,
            name.as_str(),
            links,
            tick,
        );
        let ghost done = rt@;
        st.nodes.insert(name.clone(), rt);
        assert(st@.nodes =~= before.nodes.insert(name@, done));
        assert(st@.nodes.dom() =~= before.nodes.dom());
        refresh(st, links, name.as_str(), tick);
        let summary = name.clone().concat(
            " restarts: Adj-RIB-In cleared, local routes re-originated",
        );
        push_to(
            &mut st.steps,
            Step {
                seq,
                tick: m.tick,
                kind: StepKind::Restart,
                node: name,
                prefix: None,
                summary,
                receive: None,
                exports,
                selection,
            },
        );
        let ghost after = restarted(before, links.deep_view(), m@, seq);
        assert(st@.nodes =~= after.nodes);
        assert(st@.queue =~= after.queue);
        assert(st@.steps =~= after.steps);
    }
}

// ---------- updates ----------

/// A route as it came in over a session.
pub open spec fn arrived(route: RouteView, sess: SessionView, sid: Chars) -> RouteView {
    RouteView {
        provenance: match sess.kind {
            SessionKind::EBgp => Provenance::EBgp,
            SessionKind::IBgp => Provenance::IBgp,
        },
        ingress_session: Some(sid),
        first_as: match route.first_as {
            Some(a) => Some(a),
            None => if route.as_path.len() > 0 {
                Some(route.as_path[0])
            } else {
                None
            },
        },
        ..route
    }
}

/// Whether a route would come back into an AS that it has been through.
pub open spec fn loops(route: RouteView, sess: SessionView, own_as: u32) -> bool {
    sess.kind == SessionKind::EBgp && route.as_path.contains(own_as)
}

/// The evidence of such a loop.
pub open spec fn loop_found(route: RouteView, sid: Chars, own_as: u32) -> LoopEvidenceView {
    LoopEvidenceView {
        kind: "as-path-loop"@,
        detail: "incoming AS_PATH "@ + bracketed(decimals(route.as_path))
            + " already contains local AS "@ + decimal(own_as as int)
            + ": refused per RFC 4271 §9.1.2"@,
        session: sid,
        as_path: route.as_path,
        own_as,
    }
}

/// What an UPDATE does to the node that receives it.
#[verifier::ext_equal]
pub struct Received {
    pub node: RtNodeView,
    pub accepted: bool,
    pub changed: bool,
    pub best: Option<RouteView>,
    pub report: Option<SelectionReportView>,
    pub verdict: PolicyVerdictView,
    pub mutated: RouteView,
    pub looped: bool,
}

/// A loop is refused, and with it goes what the session had brought before: the UPDATE
/// replaces it. A route that the import policy refuses leaves the Adj-RIB-In as it is. An
/// accepted one replaces what the session had brought before.
pub open spec fn received_at(
    node: RtNodeView,
    name: Chars,
    sess: SessionView,
    sid: Chars,
    prefix: Chars,
    incoming: RouteView,
    links: Seq<SessionView>,
) -> Received {
    let own_as = node.spec.asn;
    let looped = loops(incoming, sess, own_as);
    let (verdict, mutated, _count) = evaluation(
        node.spec.policy.import,
        arrived(incoming, sess, sid),
        sess.local,
        Decision::Accept,
    );
    let same = Received {
        node,
        accepted: false,
        changed: false,
        best: lookup(node.best, prefix),
        report: None,
        verdict,
        mutated,
        looped,
    };
    if looped {
        let purged = RtNodeView { rib_in: node.rib_in.remove((sid, prefix)), ..node };
        if node.rib_in.dom().contains((sid, prefix)) {
            Received {
                node: reselected(purged, name, prefix, links),
                changed: best_changes(purged, name, prefix, links),
                best: new_best(purged, name, prefix, links),
                ..same
            }
        } else {
            same
        }
    } else if verdict.decision == Verdict::Accept {
        let replaced = RtNodeView {
            rib_in: node.rib_in.insert((sid, prefix), mutated),
            ..node
        };
        Received {
            node: reselected(replaced, name, prefix, links),
            accepted: true,
            changed: best_changes(replaced, name, prefix, links),
            best: new_best(replaced, name, prefix, links),
            report: Some(new_report(replaced, name, prefix, links)),
            ..same
        }
    } else {
        same
    }
}

/// The evidence of a received UPDATE.
pub open spec fn receive_record(
    r: Received,
    sess: SessionView,
    sid: Chars,
    prefix: Chars,
    incoming: RouteView,
    own_as: u32,
) -> ReceiveRecordView {
    ReceiveRecordView {
        session: sid,
        from: sess.local,
        prefix,
        accepted: r.accepted,
        reason: if r.looped {
            "as-path-loop"@
        } else {
            r.verdict.reason
        },
        policy: r.verdict,
        loop_evidence: if r.looped {
            Some(loop_found(incoming, sid, own_as))
        } else {
            None
        },
        route_after: if r.accepted {
            Some(r.mutated)
        } else {
            None
        },
        best_changed: r.changed,
        best: r.best,
    }
}

/// A node receives an UPDATE. It exports only what has changed.
pub open spec fn received(
    st: StateView,
    links: Seq<SessionView>,
    m: ScheduledView,
    seq: usize,
) -> StateView {
    let sid = m.session->0;
    let sess = link(links, sid)->0;
    let name = sess.remote;
    let prefix = m.prefix->0;
    let incoming = m.route->0;
    let node = st.nodes[name];
    let r = received_at(node, name, sess, sid, prefix, incoming, links);
    let e = node_exports(r.node, name, prefix, links, st.queue, m.tick);
    StateView {
        nodes: st.nodes.insert(
            name,
            if r.changed {
                RtNodeView { advertised: e.advertised, ..r.node }
            } else {
                r.node
            },
        ),
        queue: if r.changed {
            e.queue
        } else {
            st.queue
        },
        steps: st.steps.push(
            StepView {
                seq,
                tick: m.tick,
                kind: StepKind::Receive,
                node: name,
                prefix: Some(prefix),
                summary: name + " receives "@ + prefix + " from "@ + sess.local + " => "@ + (
                if r.accepted {
                    "accepted"@
                } else {
                    "rejected"@
                }),
                receive: Some(
                    receive_record(r, sess, sid, prefix, incoming, node.spec.asn),
                ),
                exports: if r.changed {
                    e.records
                } else {
                    Seq::empty()
                },
                selection: r.report,
            },
        ),
    }
}

fn arrive(route: &Route, sess: &Session, sid: &String) -> (r: Route)
    ensures
        r@ == arrived(route@, sess@, sid@),
{
    assert(route.as_path.deep_view() =~= route.as_path@);
    let first_as = match route.first_as {
        Some(a) => Some(a),
        None => if route.as_path.len() > 0 {
            Some(route.as_path[0])
        } else {
            None
        },
    };
    let provenance = match sess.kind {
        SessionKind::EBgp => Provenance::EBgp,
        SessionKind::IBgp => Provenance::IBgp,
    };
    let r = Route {
        provenance,
        ingress_session: Some(sid.clone()),
        first_as,
        ..route.copy()
    };
    assert(r@ =~= arrived(route@, sess@, sid@));
    r
}

fn loop_evidence(route: &Route, sid: &String, own_as: u32) -> (r: LoopEvidence)
    ensures
        r@ == loop_found(route@, sid@, own_as),
{
    assert(route.as_path.deep_view() =~= route.as_path@);
    let detail = "incoming AS_PATH ".to_owned().concat(
        bracket(&u32_texts(&route.as_path)).as_str(),
    ).concat(" already contains local AS ").concat(u64_text(own_as as u64).as_str()).concat(
        ": refused per RFC 4271 §9.1.2",
    );
    LoopEvidence {
        kind: "as-path-loop".to_owned(),
        detail,
        session: sid.clone(),
        as_path: route.as_path.copy(),
        own_as,
    }
}

/// Applies an UPDATE to the node that receives it. Gives the evidence and the selection.
fn receive_at(
    rt: &mut RtNode,
    name: &str,
    sess: &Session,
    sid: &String,
    prefix: &String,
    incoming: &Route,
    links: &Vec<Session>,
) -> (r: (ReceiveRecord, Option<SelectionReport>))
    requires
        known_ingress(old(rt)@, links.deep_view()),
        link(links.deep_view(), sid@) is Some,
    ensures
        ({
            let out = received_at(
                old(rt)@,
                name@,
                sess@,
                sid@,
                prefix@,
                incoming@,
                links.deep_view(),
            );
            &&& final(rt)@ == out.node
            &&& r.0@ == receive_record(
                out,
                sess@,
                sid@,
                prefix@,
                incoming@,
                old(rt)@.spec.asn,
            )
            &&& r.1.deep_view() == out.report
        }),
{
    let ghost before = rt@;
    let ghost out = received_at(
        before,
        name@,
        sess@,
        sid@,
        prefix@,
        incoming@,
        links.deep_view(),
    );
    let own_as = rt.spec.asn;
    assert(incoming.as_path.deep_view() =~= incoming.as_path@);
    let looped = sess.kind == SessionKind::EBgp && path_contains(&incoming.as_path, own_as);
    let route = arrive(incoming, sess, sid);
    let (verdict, mutated, _count) = evaluate(
        &rt.spec.policy.import,
        &route,
        sess.local.as_str(),
        Decision::Accept,
    );
    let accepted = !looped && verdict.decision == Verdict::Accept;
    let mut best_changed = false;
    let mut best: Option<Route> = match rt.best.get(prefix) {
        Some(b) => Some(b.copy()),
        None => None,
    };
    let mut selection: Option<SelectionReport> = None;
    let key = (sid.clone(), prefix.clone());
    assert(key.deep_view() == (sid@, prefix@));
    if looped {
        let removed = rt.rib_in.remove(&key);
        let ghost purged = RtNodeView { rib_in: before.rib_in.remove((sid@, prefix@)), ..before };
        assert(rt@ =~= purged);
        if removed.is_some() {
            let (changed, b, _) = reevaluate(rt, name, prefix.as_str(), links);
            best_changed = changed;
            best = b;
        } else {
            assert(before.rib_in.remove((sid@, prefix@)) =~= before.rib_in);
        }
    } else if accepted {
        rt.rib_in.insert(key, mutated.copy());
        let ghost replaced = RtNodeView {
            rib_in: before.rib_in.insert((sid@, prefix@), mutated@),
            ..before
        };
        assert(rt@ =~= replaced);
        let (changed, b, report) = reevaluate(rt, name, prefix.as_str(), links);
        best_changed = changed;
        best = b;
        selection = Some(report);
    }
    let reason = if looped {
        "as-path-loop".to_owned()
    } else {
        verdict.reason.clone()
    };
    let record = ReceiveRecord {
        session: sid.clone(),
        from: sess.local.clone(),
        prefix: prefix.clone(),
        accepted,
        reason,
        policy: verdict,
        loop_evidence: if looped {
            Some(loop_evidence(incoming, sid, own_as))
        } else {
            None
        },
        route_after: if accepted {
            Some(mutated)
        } else {
            None
        },
        best_changed,
        best,
    };
    assert(rt@ =~= out.node);
    assert(record@ =~= receive_record(out, sess@, sid@, prefix@, incoming@, before.spec.asn));
    (record, selection)
}

fn handle_receive(st: &mut State, links: &Vec<Session>, m: Scheduled, seq: usize)
    requires
        sound(old(st)@, links.deep_view()),
        deliverable(old(st)@.nodes.dom(), links.deep_view(), m@),
        m.kind == MsgKind::Receive,
    ensures
        final(st)@ == received(old(st)@, links.deep_view(), m@, seq),
{
    let ghost before = st@;
    let ghost views = links.deep_view();
    if let (Some(sid), Some(prefix), Some(incoming)) = (m.session, m.prefix, m.route) {
        if let Some(sess) = find_link(links, sid.as_str()) {
            if let Some(rt) = st.nodes.remove(&sess.remote) {
                let mut rt = rt;
                let ghost r = received_at(
                    before.nodes[sess.remote@],
                    sess.remote@,
                    sess@,
                    sid@,
                    prefix@,
                    incoming@,
                    views,
                );
                let name = sess.remote.clone();
                let (record, selection) = receive_at(
                    &mut rt,
                    name.as_str(),
                    sess,
                    &sid,
                    &prefix,
                    &incoming,
                    links,
                );
                let exports = if record.best_changed {
                    export_best(&mut rt, &mut st.queue, name.as_str(), &prefix, links, m.tick)
                } else {
                    let none: Vec<ExportRecord> = Vec::new();
                    assert(none.deep_view() =~= Seq::empty());
                    none
                };
                let outcome = if record.accepted {
                    "accepted"
                } else {
                    "rejected"
                };
                let summary = name.clone().concat(" receives ").concat(prefix.as_str()).concat(
                    " from ",
                ).concat(sess.local.as_str()).concat(" => ").concat(outcome);
                push_to(
                    &mut st.steps,
                    Step {
                        seq,
                        tick: m.tick,
                        kind: StepKind::Receive,
                        node: name.clone(),
                        prefix: Some(prefix),
                        summary,
                        receive: Some(record),
                        exports,
                        selection,
                    },
                );
                st.nodes.insert(name, rt);
                assert(st@ =~= received(before, views, m@, seq));
            }
        }
    }
}

// ---------- withdrawals ----------

/// The node without what a session had brought for a prefix.
pub open spec fn purged(node: RtNodeView, sid: Chars, prefix: Chars) -> RtNodeView {
    RtNodeView { rib_in: node.rib_in.remove((sid, prefix)), ..node }
}

/// A node receives a WITHDRAW: what the session had brought is gone, if it was there. The
/// node exports only what has changed.
pub open spec fn withdrawn(
    st: StateView,
    links: Seq<SessionView>,
    m: ScheduledView,
    seq: usize,
) -> StateView {
    let sid = m.session->0;
    let sess = link(links, sid)->0;
    let name = sess.remote;
    let prefix = m.prefix->0;
    let node = st.nodes[name];
    let left = purged(node, sid, prefix);
    let chosen = reselected(left, name, prefix, links);
    let changed = best_changes(left, name, prefix, links);
    let e = node_exports(chosen, name, prefix, links, st.queue, m.tick);
    StateView {
        nodes: st.nodes.insert(
            name,
            if changed {
                RtNodeView { advertised: e.advertised, ..chosen }
            } else {
                chosen
            },
        ),
        queue: if changed {
            e.queue
        } else {
            st.queue
        },
        steps: st.steps.push(
            StepView {
                seq,
                tick: m.tick,
                kind: StepKind::Withdraw,
                node: name,
                prefix: Some(prefix),
                summary: name + " withdraws "@ + prefix + " from "@ + sess.local + " (entry "@ + (
                if node.rib_in.dom().contains((sid, prefix)) {
                    "present"@
                } else {
                    "absent"@
                }) + "): best_changed="@ + bool_name(changed),
                receive: None,
                exports: if changed {
                    e.records
                } else {
                    Seq::empty()
                },
                selection: Some(new_report(left, name, prefix, links)),
            },
        ),
    }
}

fn handle_withdraw(st: &mut State, links: &Vec<Session>, m: Scheduled, seq: usize)
    requires
        sound(old(st)@, links.deep_view()),
        deliverable(old(st)@.nodes.dom(), links.deep_view(), m@),
        m.kind == MsgKind::Withdraw,
    ensures
        final(st)@ == withdrawn(old(st)@, links.deep_view(), m@, seq),
{
    let ghost before = st@;
    let ghost views = links.deep_view();
    if let (Some(sid), Some(prefix)) = (m.session, m.prefix) {
        if let Some(sess) = find_link(links, sid.as_str()) {
            if let Some(rt) = st.nodes.remove(&sess.remote) {
                let mut rt = rt;
                let ghost node = rt@;
                let name = sess.remote.clone();
                let key = (sid.clone(), prefix.clone());
                assert(key.deep_view() == (sid@, prefix@));
                let removed = rt.rib_in.remove(&key);
                assert(rt@ =~= purged(node, sid@, prefix@));
                let (best_changed, _, report) = reevaluate(
                    &mut rt,
                    name.as_str(),
                    prefix.as_str(),
                    links,
                );
                let exports = if best_changed {
                    export_best(&mut rt, &mut st.queue, name.as_str(), &prefix, links, m.tick)
                } else {
                    let none: Vec<ExportRecord> = Vec::new();
                    assert(none.deep_view() =~= Seq::empty());
                    none
                };
                let entry = if removed.is_some() {
                    "present"
                } else {
                    "absent"
                };
                let summary = name.clone().concat(" withdraws ").concat(prefix.as_str()).concat(
                    " from ",
                ).concat(sess.local.as_str()).concat(" (entry ").concat(entry).concat(
                    "): best_changed=",
                ).concat(bool_str(best_changed));
                push_to(
                    &mut st.steps,
                    Step {
                        seq,
                        tick: m.tick,
                        kind: StepKind::Withdraw,
                        node: name.clone(),
                        prefix: Some(prefix),
                        summary,
                        receive: None,
                        exports,
                        selection: Some(report),
                    },
                );
                st.nodes.insert(name, rt);
                assert(st@ =~= withdrawn(before, views, m@, seq));
            }
        }
    }
}

// ---------- dispatch ----------

/// The state once a message has been processed.
pub open spec fn processed(
    st: StateView,
    links: Seq<SessionView>,
    m: ScheduledView,
    seq: usize,
) -> StateView {
    match m.kind {
        MsgKind::OriginInject => injected(st, links, m, seq),
        MsgKind::OriginWithdraw => origin_withdrawn(st, links, m, seq),
        MsgKind::Restart => restarted(st, links, m, seq),
        MsgKind::Receive => received(st, links, m, seq),
        MsgKind::Withdraw => withdrawn(st, links, m, seq),
    }
}

/// Processes a message. `seq` numbers the step that it leaves.
pub fn dispatch(st: &mut State, links: &Vec<Session>, m: Scheduled, seq: usize)
    requires
        sound(old(st)@, links.deep_view()),
        deliverable(old(st)@.nodes.dom(), links.deep_view(), m@),
    ensures
        final(st)@ == processed(old(st)@, links.deep_view(), m@, seq),
{
    match m.kind {
        MsgKind::OriginInject => handle_origin_inject(st, links, m, seq),
        MsgKind::OriginWithdraw => handle_origin_withdraw(st, links, m, seq),
        MsgKind::Restart => handle_restart(st, links, m, seq),
        MsgKind::Receive => handle_receive(st, links, m, seq),
        MsgKind::Withdraw => handle_withdraw(st, links, m, seq),
    }
}

// ---------- the invariant ----------

/// A deliverable message leaves a deliverable queue.
pub proof fn lemma_scheduled_deliverable(
    nodes: Set<Chars>,
    links: Seq<SessionView>,
    queue: Seq<ScheduledView>,
    m: ScheduledView,
)
    requires
        all_deliverable(nodes, links, queue),
        deliverable(nodes, links, m),
    ensures
        all_deliverable(nodes, links, scheduled(queue, m)),
{
    let all = scheduled(queue, m);
    assert forall|i: int| 0 <= i < all.len() implies deliverable(
        nodes,
        links,
        #[trigger] all[i],
    ) by {
        if i < queue.len() {
            assert(deliverable(nodes, links, queue[i]));
        }
    }
}

pub proof fn lemma_link_id(links: Seq<SessionView>, id: Chars)
    requires
        link(links, id) is Some,
    ensures
        (link(links, id)->0).id == id,
    decreases links.len(),
{
    if links.last().id != id {
        lemma_link_id(links.drop_last(), id);
    }
}

/// Whether sessions are known and end at nodes.
spec fn lead_to_nodes(sids: Seq<Chars>, nodes: Set<Chars>, links: Seq<SessionView>) -> bool {
    forall|k: int|
        0 <= k < sids.len() ==> link(links, #[trigger] sids[k]) is Some && nodes.contains(
            (link(links, sids[k])->0).remote,
        )
}

proof fn lemma_outgoing(nodes: Set<Chars>, links: Seq<SessionView>, name: Chars)
    requires
        served(nodes, links),
        nodes.contains(name),
    ensures
        lead_to_nodes(outgoing(links, name), nodes, links),
{
    let starts = |s: SessionView| s.local == name;
    let f = links.filter(starts);
    let sids = outgoing(links, name);
    assert forall|k: int| 0 <= k < sids.len() implies link(links, #[trigger] sids[k]) is Some
        && nodes.contains((link(links, sids[k])->0).remote) by {
        links.lemma_filter_pred(starts, k);
        assert(f.contains(f[k]));
        links.lemma_filter_contains_rev(starts, f[k]);
        let i = choose|i: int| 0 <= i < links.len() && links[i] == f[k];
        assert(links[i].local == name);
        crate::rib::lemma_link_exists(links, i);
    }
}

proof fn lemma_exported_sound(
    sids: Seq<Chars>,
    e: Exporting,
    best: Option<RouteView>,
    nodes: Set<Chars>,
    links: Seq<SessionView>,
    prefix: Chars,
    own_as: u32,
    rules: Seq<RuleView>,
    tick: u64,
)
    requires
        lead_to_nodes(sids, nodes, links),
        all_deliverable(nodes, links, e.queue),
        forall|k: (Chars, Chars)| #[trigger]
            e.advertised.dom().contains(k) ==> link(links, k.0) is Some,
    ensures
        ({
            let out = exported(sids, e, best, links, prefix, own_as, rules, tick);
            &&& all_deliverable(nodes, links, out.queue)
            &&& forall|k: (Chars, Chars)| #[trigger]
                out.advertised.dom().contains(k) ==> link(links, k.0) is Some
        }),
    decreases sids.len(),
{
    if sids.len() > 0 {
        let init = sids.drop_last();
        assert(lead_to_nodes(init, nodes, links)) by {
            assert forall|k: int| 0 <= k < init.len() implies link(
                links,
                #[trigger] init[k],
            ) is Some && nodes.contains((link(links, init[k])->0).remote) by {
                assert(init[k] == sids[k]);
            }
        }
        lemma_exported_sound(init, e, best, nodes, links, prefix, own_as, rules, tick);
        let before = exported(init, e, best, links, prefix, own_as, rules, tick);
        let sid = sids.last();
        assert(sid == sids[sids.len() - 1]);
        let sess = link(links, sid)->0;
        lemma_link_id(links, sid);
        let offer = offered(best, sess, own_as, rules);
        lemma_scheduled_deliverable(
            nodes,
            links,
            before.queue,
            carried(sess, prefix, offer.route, tick),
        );
    }
}

/// Exporting keeps the queue deliverable and the advertisements on known sessions.
proof fn lemma_node_exports_sound(
    nodes: Set<Chars>,
    links: Seq<SessionView>,
    node: RtNodeView,
    name: Chars,
    prefix: Chars,
    queue: Seq<ScheduledView>,
    tick: u64,
)
    requires
        served(nodes, links),
        nodes.contains(name),
        all_deliverable(nodes, links, queue),
        known_egress(node, links),
    ensures
        ({
            let e = node_exports(node, name, prefix, links, queue, tick);
            &&& all_deliverable(nodes, links, e.queue)
            &&& known_egress(RtNodeView { advertised: e.advertised, ..node }, links)
        }),
{
    lemma_outgoing(nodes, links, name);
    lemma_exported_sound(
        outgoing(links, name),
        Exporting { advertised: node.advertised, queue, records: Seq::empty() },
        lookup(node.best, prefix),
        nodes,
        links,
        prefix,
        node.spec.asn,
        node.spec.policy.export,
        tick,
    );
}

proof fn lemma_reannounced_sound(
    routes: Seq<RouteView>,
    r: Restarting,
    nodes: Set<Chars>,
    name: Chars,
    links: Seq<SessionView>,
    tick: u64,
)
    requires
        served(nodes, links),
        nodes.contains(name),
        all_deliverable(nodes, links, r.queue),
        known_ingress(r.node, links),
        known_egress(r.node, links),
    ensures
        ({
            let out = reannounced(routes, r, name, links, tick);
            &&& all_deliverable(nodes, links, out.queue)
            &&& known_ingress(out.node, links)
            &&& known_egress(out.node, links)
        }),
    decreases routes.len(),
{
    if routes.len() > 0 {
        let init = routes.drop_last();
        lemma_reannounced_sound(init, r, nodes, name, links, tick);
        let before = reannounced(init, r, name, links, tick);
        let prefix = routes.last().prefix;
        let chosen = reselected(before.node, name, prefix, links);
        assert(known_egress(chosen, links)) by {
            assert(chosen.advertised == before.node.advertised);
        }
        lemma_node_exports_sound(nodes, links, chosen, name, prefix, before.queue, tick);
        assert(reannounced(routes, r, name, links, tick).node.rib_in == before.node.rib_in);
    }
}

proof fn lemma_resent_sound(
    prefixes: Seq<Chars>,
    r: Resending,
    sess: SessionView,
    nodes: Set<Chars>,
    links: Seq<SessionView>,
    tick: u64,
)
    requires
        link(links, sess.id) == Some(sess),
        nodes.contains(sess.remote),
        all_deliverable(nodes, links, r.queue),
        known_egress(r.node, links),
    ensures
        ({
            let out = resent(prefixes, r, sess, tick);
            &&& all_deliverable(nodes, links, out.queue)
            &&& known_egress(out.node, links)
            &&& out.node == RtNodeView { advertised: out.node.advertised, ..r.node }
        }),
    decreases prefixes.len(),
{
    if prefixes.len() > 0 {
        let init = prefixes.drop_last();
        lemma_resent_sound(init, r, sess, nodes, links, tick);
        let before = resent(init, r, sess, tick);
        let offer = offered(
            lookup(before.node.best, prefixes.last()),
            sess,
            before.node.spec.asn,
            before.node.spec.policy.export,
        );
        if offer.published {
            lemma_scheduled_deliverable(
                nodes,
                links,
                before.queue,
                carried(sess, prefixes.last(), offer.route, tick),
            );
        }
    }
}

/// Whether a node differs from another in nothing but what stands advertised.
pub open spec fn same_but_advertised(a: RtNodeView, b: RtNodeView) -> bool {
    b == RtNodeView { advertised: b.advertised, ..a }
}

proof fn lemma_refreshed_sound(
    sids: Seq<Chars>,
    r: Refreshing,
    links: Seq<SessionView>,
    tick: u64,
)
    requires
        lead_to_nodes(sids, r.nodes.dom(), links),
        forall|k: int|
            0 <= k < sids.len() ==> r.nodes.dom().contains(
                (link(links, #[trigger] sids[k])->0).local,
            ),
        all_deliverable(r.nodes.dom(), links, r.queue),
        forall|n: Chars| #[trigger]
            r.nodes.dom().contains(n) ==> known_ingress(r.nodes[n], links) && known_egress(
                r.nodes[n],
                links,
            ),
    ensures
        ({
            let out = refreshed(sids, r, links, tick);
            &&& out.nodes.dom() == r.nodes.dom()
            &&& all_deliverable(r.nodes.dom(), links, out.queue)
            &&& forall|n: Chars| #[trigger]
                out.nodes.dom().contains(n) ==> known_ingress(out.nodes[n], links)
                    && known_egress(out.nodes[n], links)
        }),
    decreases sids.len(),
{
    if sids.len() > 0 {
        let init = sids.drop_last();
        let dom = r.nodes.dom();
        assert(lead_to_nodes(init, dom, links)) by {
            assert forall|k: int| 0 <= k < init.len() implies link(
                links,
                #[trigger] init[k],
            ) is Some && dom.contains((link(links, init[k])->0).remote) by {
                assert(init[k] == sids[k]);
            }
        }
        assert forall|k: int| 0 <= k < init.len() implies dom.contains(
            (link(links, #[trigger] init[k])->0).local,
        ) by {
            assert(init[k] == sids[k]);
        }
        lemma_refreshed_sound(init, r, links, tick);
        let before = refreshed(init, r, links, tick);
        assert(sids.last() == sids[sids.len() - 1]);
        let sess = link(links, sids.last())->0;
        lemma_link_id(links, sids.last());
        let node = before.nodes[sess.local];
        assert(before.nodes.dom().contains(sess.local));
        lemma_resent_sound(
            in_order::<String>(node.best.dom()),
            Resending { node, queue: before.queue },
            sess,
            dom,
            links,
            tick,
        );
        let out = refreshed(sids, r, links, tick);
        assert(out.nodes.dom() =~= dom);
        assert forall|n: Chars| #[trigger] out.nodes.dom().contains(n) implies known_ingress(
            out.nodes[n],
            links,
        ) && known_egress(out.nodes[n], links) by {
            assert(before.nodes.dom().contains(n));
            if n == sess.local {
                assert(out.nodes[n].rib_in == node.rib_in);
            }
        }
    }
}

/// Neighbors that send again change nothing but what stands advertised.
pub proof fn lemma_refreshed_keeps(
    sids: Seq<Chars>,
    r: Refreshing,
    links: Seq<SessionView>,
    tick: u64,
    n: Chars,
)
    ensures
        same_but_advertised(r.nodes[n], refreshed(sids, r, links, tick).nodes[n]),
    decreases sids.len(),
{
    if sids.len() > 0 {
        let init = sids.drop_last();
        lemma_refreshed_keeps(init, r, links, tick, n);
        let before = refreshed(init, r, links, tick);
        let sess = link(links, sids.last())->0;
        let node = before.nodes[sess.local];
        lemma_resent_keeps(
            in_order::<String>(node.best.dom()),
            Resending { node, queue: before.queue },
            sess,
            tick,
        );
    }
}

pub proof fn lemma_resent_keeps(prefixes: Seq<Chars>, r: Resending, sess: SessionView, tick: u64)
    ensures
        same_but_advertised(r.node, resent(prefixes, r, sess, tick).node),
    decreases prefixes.len(),
{
    if prefixes.len() > 0 {
        lemma_resent_keeps(prefixes.drop_last(), r, sess, tick);
    }
}

/// A state in which one node has changed keeps the invariant, if that node and the queue
/// do their part.
proof fn lemma_sound_update(
    st: StateView,
    links: Seq<SessionView>,
    name: Chars,
    node: RtNodeView,
    after: StateView,
)
    requires
        sound(st, links),
        st.nodes.dom().contains(name),
        after.nodes == st.nodes.insert(name, node),
        all_deliverable(st.nodes.dom(), links, after.queue),
        known_ingress(node, links),
        known_egress(node, links),
    ensures
        sound(after, links),
        after.nodes.dom() == st.nodes.dom(),
{
    assert(after.nodes.dom() =~= st.nodes.dom());
    assert forall|n: Chars| #[trigger] after.nodes.dom().contains(n) implies known_ingress(
        after.nodes[n],
        links,
    ) && known_egress(after.nodes[n], links) by {
        if n != name {
            assert(st.nodes.dom().contains(n));
        }
    }
}

proof fn lemma_settled_sound(
    st: StateView,
    links: Seq<SessionView>,
    name: Chars,
    node: RtNodeView,
    prefix: Chars,
    seq: usize,
    tick: u64,
    kind: StepKind,
    summary: Chars,
)
    requires
        sound(st, links),
        st.nodes.dom().contains(name),
        node.rib_in == st.nodes[name].rib_in,
        node.advertised == st.nodes[name].advertised,
    ensures
        ({
            let after = settled(st, links, name, node, prefix, seq, tick, kind, summary);
            &&& sound(after, links)
            &&& after.nodes.dom() == st.nodes.dom()
        }),
{
    let after = settled(st, links, name, node, prefix, seq, tick, kind, summary);
    let old_node = st.nodes[name];
    assert(known_ingress(old_node, links) && known_egress(old_node, links));
    let chosen = reselected(node, name, prefix, links);
    assert(known_egress(chosen, links)) by {
        assert(chosen.advertised == old_node.advertised);
    }
    lemma_node_exports_sound(
        st.nodes.dom(),
        links,
        chosen,
        name,
        prefix,
        st.queue,
        tick,
    );
    let done = after.nodes[name];
    assert(known_ingress(done, links)) by {
        assert(done.rib_in == old_node.rib_in);
    }
    lemma_sound_update(st, links, name, done, after);
}

proof fn lemma_restarted_sound(
    st: StateView,
    links: Seq<SessionView>,
    m: ScheduledView,
    seq: usize,
)
    requires
        sound(st, links),
        restartable(st.nodes.dom(), links, m.node),
    ensures
        sound(restarted(st, links, m, seq), links),
        restarted(st, links, m, seq).nodes.dom() == st.nodes.dom(),
{
    let name = m.node;
    let dom = st.nodes.dom();
    let node = rebooted(st.nodes[name]);
    let start = Restarting { node, queue: st.queue, exports: Seq::empty(), selection: None };
    lemma_reannounced_sound(
        origin_routes(st.nodes[name]),
        start,
        dom,
        name,
        links,
        m.tick,
    );
    let r = reannounced(origin_routes(st.nodes[name]), start, name, links, m.tick);
    let half = StateView {
        nodes: st.nodes.insert(name, r.node),
        queue: r.queue,
        steps: st.steps,
    };
    lemma_sound_update(st, links, name, r.node, half);
    let sids = incoming(links, name);
    assert(lead_to_nodes(sids, dom, links)) by {
        assert forall|k: int| 0 <= k < sids.len() implies link(links, #[trigger] sids[k]) is Some
            && dom.contains((link(links, sids[k])->0).remote) by {
            lemma_incoming(dom, links, name, k);
        }
    }
    assert forall|k: int| 0 <= k < sids.len() implies dom.contains(
        (link(links, #[trigger] sids[k])->0).local,
    ) by {
        lemma_incoming(dom, links, name, k);
    }
    lemma_refreshed_sound(
        sids,
        Refreshing { nodes: half.nodes, queue: half.queue },
        links,
        m.tick,
    );
}

proof fn lemma_received_sound(
    st: StateView,
    links: Seq<SessionView>,
    m: ScheduledView,
    seq: usize,
)
    requires
        sound(st, links),
        deliverable(st.nodes.dom(), links, m),
        m.kind == MsgKind::Receive,
    ensures
        sound(received(st, links, m, seq), links),
        received(st, links, m, seq).nodes.dom() == st.nodes.dom(),
{
    let sid = m.session->0;
    let sess = link(links, sid)->0;
    let name = sess.remote;
    let prefix = m.prefix->0;
    let node = st.nodes[name];
    assert(known_ingress(node, links) && known_egress(node, links));
    let r = received_at(node, name, sess, sid, prefix, m.route->0, links);
    assert(r.node.advertised == node.advertised);
    assert(known_ingress(r.node, links)) by {
        assert forall|k: (Chars, Chars)| #[trigger] r.node.rib_in.dom().contains(k) implies link(
            links,
            k.0,
        ) is Some by {
            if k != (sid, prefix) {
                assert(node.rib_in.dom().contains(k));
            }
        }
    }
    assert(known_egress(r.node, links)) by {
        assert(r.node.advertised == node.advertised);
    }
    lemma_node_exports_sound(
        st.nodes.dom(),
        links,
        r.node,
        name,
        prefix,
        st.queue,
        m.tick,
    );
    let after = received(st, links, m, seq);
    let done = after.nodes[name];
    assert(known_ingress(done, links)) by {
        assert(done.rib_in == r.node.rib_in);
    }
    lemma_sound_update(st, links, name, done, after);
}

proof fn lemma_withdrawn_sound(
    st: StateView,
    links: Seq<SessionView>,
    m: ScheduledView,
    seq: usize,
)
    requires
        sound(st, links),
        deliverable(st.nodes.dom(), links, m),
        m.kind == MsgKind::Withdraw,
    ensures
        sound(withdrawn(st, links, m, seq), links),
        withdrawn(st, links, m, seq).nodes.dom() == st.nodes.dom(),
{
    let sid = m.session->0;
    let sess = link(links, sid)->0;
    let name = sess.remote;
    let prefix = m.prefix->0;
    let node = st.nodes[name];
    assert(known_ingress(node, links) && known_egress(node, links));
    let left = purged(node, sid, prefix);
    let chosen = reselected(left, name, prefix, links);
    assert(known_ingress(chosen, links)) by {
        assert forall|k: (Chars, Chars)| #[trigger] chosen.rib_in.dom().contains(k) implies link(
            links,
            k.0,
        ) is Some by {
            assert(node.rib_in.dom().contains(k));
        }
    }
    assert(known_egress(chosen, links)) by {
        assert(chosen.advertised == node.advertised);
    }
    lemma_node_exports_sound(
        st.nodes.dom(),
        links,
        chosen,
        name,
        prefix,
        st.queue,
        m.tick,
    );
    let after = withdrawn(st, links, m, seq);
    let done = after.nodes[name];
    assert(known_ingress(done, links)) by {
        assert(done.rib_in == chosen.rib_in);
    }
    lemma_sound_update(st, links, name, done, after);
}

/// Processing a message keeps the invariant of the global state and the nodes that there
/// are, and leaves exactly one step, which carries the number and the tick of the message.
pub proof fn law_processing_keeps_state_sound(
    st: StateView,
    links: Seq<SessionView>,
    m: ScheduledView,
    seq: usize,
)
    requires
        sound(st, links),
        deliverable(st.nodes.dom(), links, m),
    ensures
        ({
            let after = processed(st, links, m, seq);
            &&& sound(after, links)
            &&& after.nodes.dom() == st.nodes.dom()
            &&& after.steps.len() == st.steps.len() + 1
            &&& after.steps.drop_last() == st.steps
            &&& after.steps.last().seq == seq
            &&& after.steps.last().tick == m.tick
        }),
{
    let after = processed(st, links, m, seq);
    assert(after.steps.drop_last() =~= st.steps);
    match m.kind {
        MsgKind::OriginInject => {
            let node = st.nodes[m.node];
            lemma_settled_sound(
                st,
                links,
                m.node,
                RtNodeView { origins: node.origins.insert(m.prefix->0, m.route->0), ..node },
                m.prefix->0,
                seq,
                m.tick,
                StepKind::OriginInject,
                m.node + " originates "@ + m.prefix->0,
            );
        },
        MsgKind::OriginWithdraw => {
            let node = st.nodes[m.node];
            lemma_settled_sound(
                st,
                links,
                m.node,
                RtNodeView { origins: node.origins.remove(m.prefix->0), ..node },
                m.prefix->0,
                seq,
                m.tick,
                StepKind::OriginWithdraw,
                m.node + " withdraws originated "@ + m.prefix->0,
            );
        },
        MsgKind::Restart => lemma_restarted_sound(st, links, m, seq),
        MsgKind::Receive => lemma_received_sound(st, links, m, seq),
        MsgKind::Withdraw => lemma_withdrawn_sound(st, links, m, seq),
    }
}

// ---------- laws ----------

/// A route that would loop is refused with explicit evidence: the record names the loop,
/// and nothing of what the session had brought for the prefix is left.
pub proof fn law_loop_is_refused(
    st: StateView,
    links: Seq<SessionView>,
    m: ScheduledView,
    seq: usize,
)
    requires
        deliverable(st.nodes.dom(), links, m),
        m.kind == MsgKind::Receive,
        loops(
            m.route->0,
            link(links, m.session->0)->0,
            st.nodes[(link(links, m.session->0)->0).remote].spec.asn,
        ),
    ensures
        ({
            let name = (link(links, m.session->0)->0).remote;
            let own_as = st.nodes[name].spec.asn;
            let after = received(st, links, m, seq);
            let record = (after.steps.last().receive)->0;
            &&& after.steps.last().receive is Some
            &&& !record.accepted
            &&& record.reason == "as-path-loop"@
            &&& record.loop_evidence == Some(loop_found(m.route->0, m.session->0, own_as))
            &&& record.route_after is None
            &&& !after.nodes[name].rib_in.dom().contains((m.session->0, m.prefix->0))
        }),
{
}

/// A route that only the import policy refuses leaves the whole routing state as it is,
/// the previous entry of the session included, and sends nothing. The record says which
/// rule refused it, and names no loop.
pub proof fn law_policy_refusal_keeps_state(
    st: StateView,
    links: Seq<SessionView>,
    m: ScheduledView,
    seq: usize,
)
    requires
        deliverable(st.nodes.dom(), links, m),
        m.kind == MsgKind::Receive,
        ({
            let sess = link(links, m.session->0)->0;
            let node = st.nodes[sess.remote];
            &&& !loops(m.route->0, sess, node.spec.asn)
            &&& evaluation(
                node.spec.policy.import,
                arrived(m.route->0, sess, m.session->0),
                sess.local,
                Decision::Accept,
            ).0.decision == Verdict::Reject
        }),
    ensures
        ({
            let sess = link(links, m.session->0)->0;
            let after = received(st, links, m, seq);
            let record = (after.steps.last().receive)->0;
            &&& after.nodes == st.nodes
            &&& after.queue == st.queue
            &&& after.steps.last().receive is Some
            &&& !record.accepted
            &&& !record.best_changed
            &&& record.loop_evidence is None
            &&& record.reason == evaluation(
                st.nodes[sess.remote].spec.policy.import,
                arrived(m.route->0, sess, m.session->0),
                sess.local,
                Decision::Accept,
            ).0.reason
        }),
{
    let name = (link(links, m.session->0)->0).remote;
    assert(received(st, links, m, seq).nodes =~= st.nodes);
}

/// An accepted route replaces what the session had brought for the prefix, as the import
/// policy has rewritten it.
pub proof fn law_accepted_route_replaces(
    st: StateView,
    links: Seq<SessionView>,
    m: ScheduledView,
    seq: usize,
)
    requires
        deliverable(st.nodes.dom(), links, m),
        m.kind == MsgKind::Receive,
        ({
            let sess = link(links, m.session->0)->0;
            let node = st.nodes[sess.remote];
            &&& !loops(m.route->0, sess, node.spec.asn)
            &&& evaluation(
                node.spec.policy.import,
                arrived(m.route->0, sess, m.session->0),
                sess.local,
                Decision::Accept,
            ).0.decision == Verdict::Accept
        }),
    ensures
        ({
            let sess = link(links, m.session->0)->0;
            let name = sess.remote;
            let after = received(st, links, m, seq);
            let route = evaluation(
                st.nodes[name].spec.policy.import,
                arrived(m.route->0, sess, m.session->0),
                sess.local,
                Decision::Accept,
            ).1;
            &&& after.steps.last().receive is Some
            &&& ((after.steps.last().receive)->0).accepted
            &&& ((after.steps.last().receive)->0).route_after == Some(route)
            &&& after.nodes[name].rib_in == st.nodes[name].rib_in.insert(
                (m.session->0, m.prefix->0),
                route,
            )
        }),
{
}

/// A WITHDRAW takes out what the session had brought for the prefix, and nothing else of
/// the Adj-RIB-In.
pub proof fn law_withdraw_removes_entry(
    st: StateView,
    links: Seq<SessionView>,
    m: ScheduledView,
    seq: usize,
)
    requires
        deliverable(st.nodes.dom(), links, m),
        m.kind == MsgKind::Withdraw,
    ensures
        ({
            let name = (link(links, m.session->0)->0).remote;
            withdrawn(st, links, m, seq).nodes[name].rib_in == st.nodes[name].rib_in.remove(
                (m.session->0, m.prefix->0),
            )
        }),
{
}

pub proof fn lemma_reannounced_keeps(
    routes: Seq<RouteView>,
    r: Restarting,
    name: Chars,
    links: Seq<SessionView>,
    tick: u64,
)
    ensures
        ({
            let out = reannounced(routes, r, name, links, tick);
            &&& out.node.rib_in == r.node.rib_in
            &&& out.node.origins == r.node.origins
            &&& out.node.spec == r.node.spec
            &&& out.node.up == r.node.up
        }),
    decreases routes.len(),
{
    if routes.len() > 0 {
        lemma_reannounced_keeps(routes.drop_last(), r, name, links, tick);
    }
}

/// A restart clears the Adj-RIB-In of the node and keeps what the node originates. Of the
/// other nodes nothing changes but what stands advertised.
pub proof fn law_restart_clears_rib(
    st: StateView,
    links: Seq<SessionView>,
    m: ScheduledView,
    seq: usize,
)
    requires
        deliverable(st.nodes.dom(), links, m),
        m.kind == MsgKind::Restart,
    ensures
        ({
            let after = restarted(st, links, m, seq);
            &&& after.nodes[m.node].rib_in == Map::<(Chars, Chars), RouteView>::empty()
            &&& after.nodes[m.node].origins == st.nodes[m.node].origins
            &&& after.nodes[m.node].up
            &&& forall|n: Chars|
                n != m.node ==> same_but_advertised(st.nodes[n], #[trigger] after.nodes[n])
        }),
{
    let name = m.node;
    let start = Restarting {
        node: rebooted(st.nodes[name]),
        queue: st.queue,
        exports: Seq::empty(),
        selection: None,
    };
    let routes = origin_routes(st.nodes[name]);
    lemma_reannounced_keeps(routes, start, name, links, m.tick);
    let r = reannounced(routes, start, name, links, m.tick);
    let half = Refreshing { nodes: st.nodes.insert(name, r.node), queue: r.queue };
    let after = restarted(st, links, m, seq);
    lemma_refreshed_keeps(incoming(links, name), half, links, m.tick, name);
    assert forall|n: Chars| n != m.node implies same_but_advertised(
        st.nodes[n],
        #[trigger] after.nodes[n],
    ) by {
        lemma_refreshed_keeps(incoming(links, name), half, links, m.tick, n);
    }
}

/// The node that a message is for.
pub open spec fn addressee(m: ScheduledView, links: Seq<SessionView>) -> Chars {
    match m.kind {
        MsgKind::Receive => (link(links, m.session->0)->0).remote,
        MsgKind::Withdraw => (link(links, m.session->0)->0).remote,
        _ => m.node,
    }
}

/// A message changes no other node than the one that it is for, but for what the others
/// have advertised to a node that restarts. The step that it leaves names that node.
pub proof fn law_message_is_local(
    st: StateView,
    links: Seq<SessionView>,
    m: ScheduledView,
    seq: usize,
    other: Chars,
)
    requires
        other != addressee(m, links),
    ensures
        same_but_advertised(st.nodes[other], processed(st, links, m, seq).nodes[other]),
        m.kind != MsgKind::Restart ==> processed(st, links, m, seq).nodes[other]
            == st.nodes[other],
        processed(st, links, m, seq).steps.last().node == addressee(m, links),
{
    if m.kind == MsgKind::Restart {
        let name = m.node;
        let start = Restarting {
            node: rebooted(st.nodes[name]),
            queue: st.queue,
            exports: Seq::empty(),
            selection: None,
        };
        let r = reannounced(origin_routes(st.nodes[name]), start, name, links, m.tick);
        lemma_refreshed_keeps(
            incoming(links, name),
            Refreshing { nodes: st.nodes.insert(name, r.node), queue: r.queue },
            links,
            m.tick,
            other,
        );
    }
}

/// An UPDATE or a WITHDRAW that leaves the best route as it was makes no message.
pub proof fn law_quiet_without_change(
    st: StateView,
    links: Seq<SessionView>,
    m: ScheduledView,
    seq: usize,
)
    requires
        m.kind == MsgKind::Receive || m.kind == MsgKind::Withdraw,
        ({
            let name = addressee(m, links);
            lookup(processed(st, links, m, seq).nodes[name].best, m.prefix->0) == lookup(
                st.nodes[name].best,
                m.prefix->0,
            )
        }),
    ensures
        processed(st, links, m, seq).queue == st.queue,
        processed(st, links, m, seq).steps.last().exports.len() == 0,
{
}

} // verus!
