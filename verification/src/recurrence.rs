//! Why a recurring state is a cycle: a global state that comes back some ticks later, with
//! the same routing state and the same schedule ahead of it, goes through the same states
//! again, and so never comes to rest.

use crate::engine::{advanced, pruned, state_after};
use crate::export::{exported, node_exports, offered, Exporting};
use crate::model::{RouteView, RuleView, SessionView};
use crate::queue::{carried, due, scheduled, MsgKind, ScheduledView};
use crate::rib::{incoming, lemma_link_exists, link, lookup, outgoing, reselected, RtNodeView};
use crate::signature::{delayed, law_absolute_ticks_do_not_count, signature};
use crate::step::{
    processed, purged, reannounced, rebooted, received_at, refreshed, resent, Refreshing,
    Resending, Restarting, StateView,
};
use crate::text::Chars;
use vstd::prelude::*;

verus! {

/// Whether a message is another one, some ticks later.
pub open spec fn later_message(a: ScheduledView, b: ScheduledView, ticks: nat) -> bool {
    &&& b.tick == a.tick + ticks
    &&& b == ScheduledView { tick: b.tick, ..a }
}

/// Whether a queue is another one, some ticks later.
pub open spec fn later_queue(
    a: Seq<ScheduledView>,
    b: Seq<ScheduledView>,
    ticks: nat,
) -> bool {
    &&& a.len() == b.len()
    &&& forall|i: int|
        #![trigger a[i]]
        #![trigger b[i]]
        0 <= i < a.len() ==> later_message(a[i], b[i], ticks)
}

/// Whether a state is another one, some ticks later: the same routing state and the same
/// schedule ahead.
pub open spec fn recurs(a: StateView, b: StateView, ticks: nat) -> bool {
    &&& a.nodes == b.nodes
    &&& later_queue(a.queue, b.queue, ticks)
}

/// Whether nothing that is sent at a tick over a session would arrive after the last tick.
pub open spec fn in_time(links: Seq<SessionView>, tick: u64) -> bool {
    forall|i: int|
        0 <= i < links.len() ==> tick + (if (#[trigger] links[i]).delay > 1 {
            links[i].delay
        } else {
            1
        }) <= u64::MAX
}

/// Whether nothing that the next message leads to would arrive after the last tick.
pub open spec fn sends_in_time(links: Seq<SessionView>, st: StateView) -> bool {
    let ready = pruned(st);
    ready.queue.len() > 0 ==> in_time(links, ready.queue[due(ready.queue)].tick)
}

proof fn lemma_due_later(a: Seq<ScheduledView>, b: Seq<ScheduledView>, ticks: nat)
    requires
        later_queue(a, b, ticks),
        a.len() > 0,
    ensures
        due(a) == due(b),
        0 <= due(a) < a.len(),
        later_queue(a.remove(due(a)), b.remove(due(b)), ticks),
    decreases a.len(),
{
    if a.len() > 1 {
        let init_a = a.drop_last();
        let init_b = b.drop_last();
        assert(later_queue(init_a, init_b, ticks)) by {
            assert forall|i: int|
                #![trigger init_a[i]]
                #![trigger init_b[i]]
                0 <= i < init_a.len() implies later_message(init_a[i], init_b[i], ticks) by {
                assert(later_message(a[i], b[i], ticks));
            }
        }
        lemma_due_later(init_a, init_b, ticks);
        let best = due(init_a);
        assert(later_message(a[best], b[best], ticks));
        assert(later_message(a[a.len() - 1], b[a.len() - 1], ticks));
    }
    let d = due(a);
    let rest_a = a.remove(d);
    let rest_b = b.remove(d);
    assert forall|i: int|
        #![trigger rest_a[i]]
        #![trigger rest_b[i]]
        0 <= i < rest_a.len() implies later_message(rest_a[i], rest_b[i], ticks) by {
        let j = if i < d { i } else { i + 1 };
        assert(later_message(a[j], b[j], ticks));
    }
}

proof fn lemma_scheduled_later(
    a: Seq<ScheduledView>,
    b: Seq<ScheduledView>,
    m: ScheduledView,
    n: ScheduledView,
    ticks: nat,
)
    requires
        later_queue(a, b, ticks),
        later_message(m, n, ticks),
    ensures
        later_queue(scheduled(a, m), scheduled(b, n), ticks),
{
    let more_a = scheduled(a, m);
    let more_b = scheduled(b, n);
    assert forall|i: int|
        #![trigger more_a[i]]
        #![trigger more_b[i]]
        0 <= i < more_a.len() implies later_message(more_a[i], more_b[i], ticks) by {
        if i < a.len() {
            assert(later_message(a[i], b[i], ticks));
        }
    }
}

/// Whether an id names a session.
spec fn is_link(links: Seq<SessionView>, id: Chars) -> bool {
    exists|i: int| 0 <= i < links.len() && (#[trigger] links[i]).id == id
}

/// The sessions that start or end at a node are sessions.
proof fn lemma_ends_are_links(links: Seq<SessionView>, name: Chars)
    ensures
        forall|k: int|
            0 <= k < outgoing(links, name).len() ==> is_link(
                links,
                #[trigger] outgoing(links, name)[k],
            ),
        forall|k: int|
            0 <= k < incoming(links, name).len() ==> is_link(
                links,
                #[trigger] incoming(links, name)[k],
            ),
{
    let starts = |s: SessionView| s.local == name;
    let ends = |s: SessionView| s.remote == name;
    assert forall|k: int| 0 <= k < outgoing(links, name).len() implies is_link(
        links,
        #[trigger] outgoing(links, name)[k],
    ) by {
        let f = links.filter(starts);
        assert(f.contains(f[k]));
        links.lemma_filter_contains_rev(starts, f[k]);
        let i = choose|i: int| 0 <= i < links.len() && links[i] == f[k];
        assert(links[i].id == outgoing(links, name)[k]);
    }
    assert forall|k: int| 0 <= k < incoming(links, name).len() implies is_link(
        links,
        #[trigger] incoming(links, name)[k],
    ) by {
        let f = links.filter(ends);
        assert(f.contains(f[k]));
        links.lemma_filter_contains_rev(ends, f[k]);
        let i = choose|i: int| 0 <= i < links.len() && links[i] == f[k];
        assert(links[i].id == incoming(links, name)[k]);
    }
}

/// What is sent over a session some ticks later arrives as many ticks later.
proof fn lemma_carried_later(
    links: Seq<SessionView>,
    i: int,
    prefix: Chars,
    route: Option<RouteView>,
    from: u64,
    to: u64,
    ticks: nat,
)
    requires
        0 <= i < links.len(),
        to == from + ticks,
        in_time(links, to),
    ensures
        later_message(
            carried(link(links, links[i].id)->0, prefix, route, from),
            carried(link(links, links[i].id)->0, prefix, route, to),
            ticks,
        ),
{
    lemma_link_exists(links, i);
    let s = link(links, links[i].id)->0;
    let j = choose|j: int| 0 <= j < links.len() && links[j] == s;
    assert(links[j] == s);
}

proof fn lemma_exported_later(
    sids: Seq<Chars>,
    a: Exporting,
    b: Exporting,
    best: Option<RouteView>,
    links: Seq<SessionView>,
    prefix: Chars,
    own_as: u32,
    rules: Seq<RuleView>,
    from: u64,
    to: u64,
    ticks: nat,
)
    requires
        a.advertised == b.advertised,
        a.records == b.records,
        later_queue(a.queue, b.queue, ticks),
        to == from + ticks,
        in_time(links, to),
        forall|k: int| 0 <= k < sids.len() ==> is_link(links, #[trigger] sids[k]),
    ensures
        ({
            let x = exported(sids, a, best, links, prefix, own_as, rules, from);
            let y = exported(sids, b, best, links, prefix, own_as, rules, to);
            &&& x.advertised == y.advertised
            &&& x.records == y.records
            &&& later_queue(x.queue, y.queue, ticks)
        }),
    decreases sids.len(),
{
    if sids.len() > 0 {
        let init = sids.drop_last();
        assert forall|k: int| 0 <= k < init.len() implies is_link(links, #[trigger] init[k]) by {
            assert(init[k] == sids[k]);
        }
        lemma_exported_later(
            init,
            a,
            b,
            best,
            links,
            prefix,
            own_as,
            rules,
            from,
            to,
            ticks,
        );
        let x = exported(init, a, best, links, prefix, own_as, rules, from);
        let y = exported(init, b, best, links, prefix, own_as, rules, to);
        assert(sids[sids.len() - 1] == sids.last());
        let i = choose|i: int| 0 <= i < links.len() && (#[trigger] links[i]).id == sids.last();
        let sess = link(links, sids.last())->0;
        let route = offered(best, sess, own_as, rules).route;
        lemma_carried_later(links, i, prefix, route, from, to, ticks);
        lemma_scheduled_later(
            x.queue,
            y.queue,
            carried(sess, prefix, route, from),
            carried(sess, prefix, route, to),
            ticks,
        );
    }
}

proof fn lemma_node_exports_later(
    node: RtNodeView,
    name: Chars,
    prefix: Chars,
    links: Seq<SessionView>,
    a: Seq<ScheduledView>,
    b: Seq<ScheduledView>,
    from: u64,
    to: u64,
    ticks: nat,
)
    requires
        later_queue(a, b, ticks),
        to == from + ticks,
        in_time(links, to),
    ensures
        ({
            let x = node_exports(node, name, prefix, links, a, from);
            let y = node_exports(node, name, prefix, links, b, to);
            &&& x.advertised == y.advertised
            &&& x.records == y.records
            &&& later_queue(x.queue, y.queue, ticks)
        }),
{
    lemma_ends_are_links(links, name);
    lemma_exported_later(
        outgoing(links, name),
        Exporting { advertised: node.advertised, queue: a, records: Seq::empty() },
        Exporting { advertised: node.advertised, queue: b, records: Seq::empty() },
        lookup(node.best, prefix),
        links,
        prefix,
        node.spec.asn,
        node.spec.policy.export,
        from,
        to,
        ticks,
    );
}

proof fn lemma_reannounced_later(
    routes: Seq<RouteView>,
    a: Restarting,
    b: Restarting,
    name: Chars,
    links: Seq<SessionView>,
    from: u64,
    to: u64,
    ticks: nat,
)
    requires
        a.node == b.node,
        later_queue(a.queue, b.queue, ticks),
        to == from + ticks,
        in_time(links, to),
    ensures
        ({
            let x = reannounced(routes, a, name, links, from);
            let y = reannounced(routes, b, name, links, to);
            &&& x.node == y.node
            &&& later_queue(x.queue, y.queue, ticks)
        }),
    decreases routes.len(),
{
    if routes.len() > 0 {
        let init = routes.drop_last();
        lemma_reannounced_later(init, a, b, name, links, from, to, ticks);
        let x = reannounced(init, a, name, links, from);
        let y = reannounced(init, b, name, links, to);
        let prefix = routes.last().prefix;
        lemma_node_exports_later(
            reselected(x.node, name, prefix, links),
            name,
            prefix,
            links,
            x.queue,
            y.queue,
            from,
            to,
            ticks,
        );
    }
}

proof fn lemma_resent_later(
    prefixes: Seq<Chars>,
    a: Resending,
    b: Resending,
    links: Seq<SessionView>,
    i: int,
    from: u64,
    to: u64,
    ticks: nat,
)
    requires
        0 <= i < links.len(),
        a.node == b.node,
        later_queue(a.queue, b.queue, ticks),
        to == from + ticks,
        in_time(links, to),
    ensures
        ({
            let x = resent(prefixes, a, link(links, links[i].id)->0, from);
            let y = resent(prefixes, b, link(links, links[i].id)->0, to);
            &&& x.node == y.node
            &&& later_queue(x.queue, y.queue, ticks)
        }),
    decreases prefixes.len(),
{
    if prefixes.len() > 0 {
        let sess = link(links, links[i].id)->0;
        let init = prefixes.drop_last();
        let p = prefixes.last();
        lemma_resent_later(init, a, b, links, i, from, to, ticks);
        let x = resent(init, a, sess, from);
        let y = resent(init, b, sess, to);
        let route = offered(
            lookup(x.node.best, p),
            sess,
            x.node.spec.asn,
            x.node.spec.policy.export,
        ).route;
        lemma_carried_later(links, i, p, route, from, to, ticks);
        lemma_scheduled_later(
            x.queue,
            y.queue,
            carried(sess, p, route, from),
            carried(sess, p, route, to),
            ticks,
        );
    }
}

proof fn lemma_refreshed_later(
    sids: Seq<Chars>,
    a: Refreshing,
    b: Refreshing,
    links: Seq<SessionView>,
    from: u64,
    to: u64,
    ticks: nat,
)
    requires
        a.nodes == b.nodes,
        later_queue(a.queue, b.queue, ticks),
        to == from + ticks,
        in_time(links, to),
        forall|k: int| 0 <= k < sids.len() ==> is_link(links, #[trigger] sids[k]),
    ensures
        ({
            let x = refreshed(sids, a, links, from);
            let y = refreshed(sids, b, links, to);
            &&& x.nodes == y.nodes
            &&& later_queue(x.queue, y.queue, ticks)
        }),
    decreases sids.len(),
{
    if sids.len() > 0 {
        let init = sids.drop_last();
        assert forall|k: int| 0 <= k < init.len() implies is_link(links, #[trigger] init[k]) by {
            assert(init[k] == sids[k]);
        }
        lemma_refreshed_later(init, a, b, links, from, to, ticks);
        assert(sids[sids.len() - 1] == sids.last());
        let i = choose|i: int| 0 <= i < links.len() && (#[trigger] links[i]).id == sids.last();
        let x = refreshed(init, a, links, from);
        let y = refreshed(init, b, links, to);
        let node = x.nodes[(link(links, sids.last())->0).local];
        lemma_resent_later(
            crate::ordmap::in_order::<String>(node.best.dom()),
            Resending { node, queue: x.queue },
            Resending { node, queue: y.queue },
            links,
            i,
            from,
            to,
            ticks,
        );
    }
}

/// A message that is processed some ticks later, in the same state, leads to the same
/// state as many ticks later.
proof fn lemma_processed_later(
    links: Seq<SessionView>,
    a: StateView,
    b: StateView,
    m: ScheduledView,
    n: ScheduledView,
    i: usize,
    j: usize,
    ticks: nat,
)
    requires
        recurs(a, b, ticks),
        later_message(m, n, ticks),
        in_time(links, n.tick),
    ensures
        recurs(processed(a, links, m, i), processed(b, links, n, j), ticks),
{
    let from = m.tick;
    let to = n.tick;
    match m.kind {
        MsgKind::OriginInject => {
            let node = a.nodes[m.node];
            let next = RtNodeView {
                origins: node.origins.insert(m.prefix->0, m.route->0),
                ..node
            };
            lemma_node_exports_later(
                reselected(next, m.node, m.prefix->0, links),
                m.node,
                m.prefix->0,
                links,
                a.queue,
                b.queue,
                from,
                to,
                ticks,
            );
        },
        MsgKind::OriginWithdraw => {
            let node = a.nodes[m.node];
            let next = RtNodeView { origins: node.origins.remove(m.prefix->0), ..node };
            lemma_node_exports_later(
                reselected(next, m.node, m.prefix->0, links),
                m.node,
                m.prefix->0,
                links,
                a.queue,
                b.queue,
                from,
                to,
                ticks,
            );
        },
        MsgKind::Restart => {
            let name = m.node;
            let node = a.nodes[name];
            let routes = crate::step::origin_routes(node);
            let ra = Restarting {
                node: rebooted(node),
                queue: a.queue,
                exports: Seq::empty(),
                selection: None,
            };
            let rb = Restarting {
                node: rebooted(node),
                queue: b.queue,
                exports: Seq::empty(),
                selection: None,
            };
            lemma_reannounced_later(routes, ra, rb, name, links, from, to, ticks);
            let x = reannounced(routes, ra, name, links, from);
            let y = reannounced(routes, rb, name, links, to);
            lemma_ends_are_links(links, name);
            lemma_refreshed_later(
                incoming(links, name),
                Refreshing { nodes: a.nodes.insert(name, x.node), queue: x.queue },
                Refreshing { nodes: b.nodes.insert(name, y.node), queue: y.queue },
                links,
                from,
                to,
                ticks,
            );
        },
        MsgKind::Receive => {
            let sid = m.session->0;
            let sess = link(links, sid)->0;
            let name = sess.remote;
            let r = received_at(
                a.nodes[name],
                name,
                sess,
                sid,
                m.prefix->0,
                m.route->0,
                links,
            );
            lemma_node_exports_later(
                r.node,
                name,
                m.prefix->0,
                links,
                a.queue,
                b.queue,
                from,
                to,
                ticks,
            );
        },
        MsgKind::Withdraw => {
            let sid = m.session->0;
            let name = (link(links, sid)->0).remote;
            let left = purged(a.nodes[name], sid, m.prefix->0);
            lemma_node_exports_later(
                reselected(left, name, m.prefix->0, links),
                name,
                m.prefix->0,
                links,
                a.queue,
                b.queue,
                from,
                to,
                ticks,
            );
        },
    }
}

proof fn lemma_pruned_later(a: StateView, b: StateView, ticks: nat)
    requires
        recurs(a, b, ticks),
    ensures
        recurs(pruned(a), pruned(b), ticks),
    decreases a.queue.len(),
{
    if a.queue.len() > 0 {
        lemma_due_later(a.queue, b.queue, ticks);
        let d = due(a.queue);
        assert(later_message(a.queue[d], b.queue[d], ticks));
        if a.queue[d].stale {
            lemma_pruned_later(
                StateView { queue: a.queue.remove(d), ..a },
                StateView { queue: b.queue.remove(d), ..b },
                ticks,
            );
        }
    }
}

/// A state that comes back some ticks later goes on as it did: after the next message it
/// is again the earlier one, as many ticks later. The numbers of the steps do not count.
pub proof fn law_recurring_state_goes_on_alike(
    links: Seq<SessionView>,
    a: StateView,
    b: StateView,
    i: usize,
    j: usize,
    ticks: nat,
)
    requires
        recurs(a, b, ticks),
        sends_in_time(links, b),
    ensures
        recurs(advanced(links, a, i), advanced(links, b, j), ticks),
{
    reveal(advanced);
    lemma_pruned_later(a, b, ticks);
    let ready_a = pruned(a);
    let ready_b = pruned(b);
    if ready_a.queue.len() > 0 {
        lemma_due_later(ready_a.queue, ready_b.queue, ticks);
        let d = due(ready_a.queue);
        assert(later_message(ready_a.queue[d], ready_b.queue[d], ticks));
        lemma_processed_later(
            links,
            StateView { queue: ready_a.queue.remove(d), ..ready_a },
            StateView { queue: ready_b.queue.remove(d), ..ready_b },
            ready_a.queue[d],
            ready_b.queue[d],
            i,
            j,
            ticks,
        );
    }
}

/// Whether a message is still to be processed.
pub open spec fn restless(st: StateView) -> bool {
    pruned(st).queue.len() > 0
}

/// Whether, from one number of messages up to another, everything that is sent arrives by
/// the last tick.
pub open spec fn stays_in_time(
    links: Seq<SessionView>,
    start: StateView,
    from: nat,
    upto: nat,
) -> bool {
    forall|c: nat|
        from <= c < upto ==> sends_in_time(links, #[trigger] state_after(links, start, c))
}

/// If the state after some messages comes back later in the run, the run repeats itself:
/// every state that followed the first comes back as well, with the same signature.
pub proof fn law_recurring_state_repeats(
    links: Seq<SessionView>,
    start: StateView,
    first: nat,
    again: nat,
    more: nat,
    ticks: nat,
)
    requires
        recurs(
            state_after(links, start, first),
            state_after(links, start, again),
            ticks,
        ),
        stays_in_time(links, start, again, again + more),
    ensures
        ({
            let a = state_after(links, start, first + more);
            let b = state_after(links, start, again + more);
            &&& recurs(a, b, ticks)
            &&& signature(a.nodes, a.queue) == signature(b.nodes, b.queue)
        }),
    decreases more,
{
    if more > 0 {
        let less = (more - 1) as nat;
        law_recurring_state_repeats(links, start, first, again, less, ticks);
        law_recurring_state_goes_on_alike(
            links,
            state_after(links, start, first + less),
            state_after(links, start, again + less),
            (first + more) as usize,
            (again + more) as usize,
            ticks,
        );
    }
    let a = state_after(links, start, first + more);
    let b = state_after(links, start, again + more);
    lemma_later_signature(a, b, ticks);
}

proof fn lemma_later_signature(a: StateView, b: StateView, ticks: nat)
    requires
        recurs(a, b, ticks),
    ensures
        signature(a.nodes, a.queue) == signature(b.nodes, b.queue),
{
    if a.queue.len() > 0 {
        assert(later_message(a.queue[0], b.queue[0], ticks));
        let later = delayed(a.queue, ticks as u64);
        assert forall|i: int| 0 <= i < a.queue.len() implies later[i] == b.queue[i] && (
        #[trigger] a.queue[i]).tick + ticks <= u64::MAX by {
            assert(later_message(a.queue[i], b.queue[i], ticks));
        }
        assert(later =~= b.queue);
        law_absolute_ticks_do_not_count(a.nodes, a.queue, ticks as u64);
    } else {
        assert(a.queue =~= b.queue);
    }
}

proof fn lemma_rest_is_final(links: Seq<SessionView>, start: StateView, c: nat, more: nat)
    requires
        !restless(state_after(links, start, c)),
    ensures
        !restless(state_after(links, start, c + more)),
    decreases more,
{
    if more > 0 {
        let less = (more - 1) as nat;
        lemma_rest_is_final(links, start, c, less);
        let st = state_after(links, start, c + less);
        assert(advanced(links, st, (c + more) as usize) == pruned(st)) by {
            reveal(advanced);
        }
    }
}

/// A state that comes back is a cycle: a run in which the state after some messages, with
/// something still to be processed, comes back after more of them never comes to rest.
pub proof fn law_recurring_state_never_rests(
    links: Seq<SessionView>,
    start: StateView,
    first: nat,
    again: nat,
    more: nat,
    ticks: nat,
)
    requires
        first < again,
        restless(state_after(links, start, first)),
        recurs(
            state_after(links, start, first),
            state_after(links, start, again),
            ticks,
        ),
        stays_in_time(links, start, again, again + more),
    ensures
        restless(state_after(links, start, first + more)),
    decreases more,
{
    let period = (again - first) as nat;
    if more <= period {
        if !restless(state_after(links, start, first + more)) {
            lemma_rest_is_final(links, start, first + more, (period - more) as nat);
            lemma_pruned_later(
                state_after(links, start, first),
                state_after(links, start, again),
                ticks,
            );
        }
    } else {
        let less = (more - period) as nat;
        law_recurring_state_never_rests(links, start, first, again, less, ticks);
        law_recurring_state_repeats(links, start, first, again, less, ticks);
        lemma_pruned_later(
            state_after(links, start, first + less),
            state_after(links, start, again + less),
            ticks,
        );
        assert(again + less == first + more);
    }
}

} // verus!
