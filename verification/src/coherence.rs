//! What a node shows is always what it knows: at every point of a run its best routes are the
//! winners among its candidates, and what stands advertised on its sessions is what its export
//! policy makes of them.

use crate::bestpath::{selection, CandidateView};
use crate::constraints::{
    all_lawful, as_specified, lawful, law_processing_keeps_constraints, lemma_start, originated,
};
use crate::engine::{
    ending, event_message, injection, injections, law_start_is_sound, lemma_removed_sound,
    run_from, runnable, start, with_events,
};
use crate::export::{
    law_export_reaches_every_session, node_exports, offered, says,
};
use crate::model::{
    AnnouncementView, EventSpecView, NodeSpecView, Provenance, RouteView, ScenarioInputView,
    SessionKind, SessionView,
};
use crate::ordmap::{ascending, in_order, lemma_in_order, lemma_in_order_exists, Key};
use crate::queue::{due, scheduled, MsgKind, ScheduledView};
use crate::rib::{
    eligible, incoming, learned, lemma_link_exists, link, lookup, reselected, usable,
    with_first_as, RtNodeView,
};
use crate::signature::signature;
use crate::step::{
    by_prefix, deliverable, law_processing_keeps_state_sound, lemma_incoming, lemma_link_id,
    lemma_reannounced_keeps, lemma_resent_keeps, now, origin_routes, processed, purged,
    reannounced, rebooted, received_at, refreshed, resent, sound, Refreshing, Resending,
    Restarting, StateView,
};
use crate::text::Chars;
use vstd::prelude::*;

verus! {

/// Whether the best route of a node for a prefix, and its equal peer, are those of the
/// selection among its candidates.
pub open spec fn chosen_well(
    node: RtNodeView,
    name: Chars,
    links: Seq<SessionView>,
    prefix: Chars,
) -> bool {
    let s = selection(eligible(node, name, prefix, links));
    &&& node.best.dom().contains(prefix) <==> s.1 is Some
    &&& s.1 matches Some(w) ==> node.best[prefix] == w.route
    &&& node.equal_peer.dom().contains(prefix) <==> s.0.equal_peer is Some
    &&& s.0.equal_peer matches Some(n) ==> node.equal_peer[prefix] == n
}

/// Whether what stands advertised on a session that starts at a node is what the node
/// publishes there of its best route for a prefix.
pub open spec fn published_well(
    node: RtNodeView,
    name: Chars,
    links: Seq<SessionView>,
    i: int,
    prefix: Chars,
) -> bool {
    0 <= i < links.len() && links[i].local == name ==> says(node.advertised, links[i].id, prefix)
        == offered(
        if node.best.dom().contains(prefix) {
            Some(node.best[prefix])
        } else {
            None
        },
        link(links, links[i].id)->0,
        node.spec.asn,
        node.spec.policy.export,
    ).route
}

/// Whether both hold of all prefixes and sessions.
pub open spec fn coherent(node: RtNodeView, name: Chars, links: Seq<SessionView>) -> bool {
    &&& forall|p: Chars| #[trigger] chosen_well(node, name, links, p)
    &&& forall|i: int, p: Chars| #[trigger] published_well(node, name, links, i, p)
}

/// Whether what a node originates is filed under its prefix.
pub open spec fn filed(node: RtNodeView) -> bool {
    forall|p: Chars| #[trigger] node.origins.dom().contains(p) ==> node.origins[p].prefix == p
}

/// Whether every injection names the prefix of its route.
pub open spec fn labelled(queue: Seq<ScheduledView>) -> bool {
    forall|i: int|
        0 <= i < queue.len() && (#[trigger] queue[i]).kind == MsgKind::OriginInject ==> (
        queue[i].route->0).prefix == queue[i].prefix->0
}

/// Whether all nodes are coherent.
pub open spec fn all_coherent(st: StateView, links: Seq<SessionView>) -> bool {
    &&& labelled(st.queue)
    &&& forall|n: Chars| #[trigger]
        st.nodes.dom().contains(n) ==> coherent(st.nodes[n], n, links) && filed(st.nodes[n])
}

// ---------- candidates ----------

proof fn lemma_ascending_init<K: Key>(keys: Seq<K::V>)
    requires
        ascending::<K>(keys),
        keys.len() > 0,
    ensures
        ascending::<K>(keys.drop_last()),
{
    let init = keys.drop_last();
    assert forall|i: int, j: int| 0 <= i < j < init.len() implies K::lt(
        #[trigger] init[i],
        #[trigger] init[j],
    ) by {
        assert(K::lt(keys[i], keys[j]));
    }
}

proof fn lemma_filter_keys(
    keys: Seq<(Chars, Chars)>,
    p: spec_fn((Chars, Chars)) -> bool,
)
    requires
        ascending::<(String, String)>(keys),
    ensures
        ascending::<(String, String)>(keys.filter(p)),
        forall|k: (Chars, Chars)| #[trigger]
            keys.filter(p).contains(k) <==> keys.contains(k) && p(k),
    decreases keys.len(),
{
    if keys.len() == 0 {
        reveal(Seq::filter);
    } else {
        let init = keys.drop_last();
        let last = keys.last();
        lemma_ascending_init::<(String, String)>(keys);
        lemma_filter_keys(init, p);
        assert(keys =~= init.push(last));
        init.lemma_filter_push(last, p);
        let f = init.filter(p);
        let g = keys.filter(p);
        assert forall|k: (Chars, Chars)| #[trigger] g.contains(k) <==> keys.contains(k) && p(
            k,
        ) by {
            assert(f.contains(k) <==> init.contains(k) && p(k));
            if g.contains(k) {
                let i = choose|i: int| 0 <= i < g.len() && g[i] == k;
                if i < f.len() {
                    assert(f[i] == k);
                    assert(f.contains(k));
                    let j = choose|j: int| 0 <= j < init.len() && init[j] == k;
                    assert(keys[j] == k);
                } else {
                    assert(keys[keys.len() - 1] == k);
                }
            }
            if keys.contains(k) && p(k) {
                let j = choose|j: int| 0 <= j < keys.len() && keys[j] == k;
                if j < init.len() {
                    assert(init[j] == k);
                    assert(f.contains(k));
                    let i = choose|i: int| 0 <= i < f.len() && f[i] == k;
                    assert(g[i] == k);
                } else {
                    assert(g[g.len() - 1] == k);
                }
            }
        }
        assert forall|i: int, j: int| 0 <= i < j < g.len() implies <(
            String,
            String,
        ) as Key>::lt(#[trigger] g[i], #[trigger] g[j]) by {
            assert(g[i] == f[i]);
            if j < f.len() {
                assert(g[j] == f[j]);
            } else {
                assert(f.contains(f[i]));
                let x = choose|x: int| 0 <= x < init.len() && init[x] == f[i];
                assert(keys[x] == g[i] && keys[keys.len() - 1] == g[j]);
            }
        }
    }
}

/// The candidate that an entry of an Adj-RIB-In makes.
spec fn entry_candidate(
    k: (Chars, Chars),
    rib: Map<(Chars, Chars), RouteView>,
    own_as: u32,
    links: Seq<SessionView>,
) -> CandidateView {
    CandidateView {
        node: (link(links, k.0)->0).local,
        ingress_session: Some(k.0),
        route: with_first_as(rib[k], own_as),
    }
}

spec fn wanted(
    k: (Chars, Chars),
    rib: Map<(Chars, Chars), RouteView>,
    prefix: Chars,
    own_as: u32,
    links: Seq<SessionView>,
) -> bool {
    k.1 == prefix && usable(rib[k], (link(links, k.0)->0).kind, own_as)
}

proof fn lemma_learned_filter(
    keys: Seq<(Chars, Chars)>,
    rib: Map<(Chars, Chars), RouteView>,
    prefix: Chars,
    own_as: u32,
    links: Seq<SessionView>,
)
    ensures
        learned(keys, rib, prefix, own_as, links) == keys.filter(
            |k: (Chars, Chars)| wanted(k, rib, prefix, own_as, links),
        ).map_values(|k: (Chars, Chars)| entry_candidate(k, rib, own_as, links)),
    decreases keys.len(),
{
    let p = |k: (Chars, Chars)| wanted(k, rib, prefix, own_as, links);
    let g = |k: (Chars, Chars)| entry_candidate(k, rib, own_as, links);
    if keys.len() == 0 {
        reveal(Seq::filter);
        assert(keys.filter(p).map_values(g) =~= Seq::empty());
    } else {
        let init = keys.drop_last();
        lemma_learned_filter(init, rib, prefix, own_as, links);
        assert(keys =~= init.push(keys.last()));
        init.lemma_filter_push(keys.last(), p);
        assert(keys.filter(p).map_values(g) =~= learned(keys, rib, prefix, own_as, links));
    }
}

/// The candidates for a prefix rest on nothing but what the node originates and has learned
/// for that prefix.
proof fn lemma_eligible_same(
    a: RtNodeView,
    b: RtNodeView,
    name: Chars,
    prefix: Chars,
    links: Seq<SessionView>,
)
    requires
        a.rib_in.dom().finite(),
        b.rib_in.dom().finite(),
        a.spec == b.spec,
        a.origins.dom().contains(prefix) == b.origins.dom().contains(prefix),
        a.origins.dom().contains(prefix) ==> a.origins[prefix] == b.origins[prefix],
        forall|sid: Chars|
            #![trigger a.rib_in.dom().contains((sid, prefix))]
            #![trigger b.rib_in.dom().contains((sid, prefix))]
            a.rib_in.dom().contains((sid, prefix)) == b.rib_in.dom().contains((sid, prefix)) && (
            a.rib_in.dom().contains((sid, prefix)) ==> a.rib_in[(sid, prefix)] == b.rib_in[(
                sid,
                prefix,
            )]),
    ensures
        eligible(a, name, prefix, links) == eligible(b, name, prefix, links),
{
    let asn = a.spec.asn;
    let ka = in_order::<(String, String)>(a.rib_in.dom());
    let kb = in_order::<(String, String)>(b.rib_in.dom());
    lemma_in_order_exists::<(String, String)>(a.rib_in.dom());
    lemma_in_order_exists::<(String, String)>(b.rib_in.dom());
    let pa = |k: (Chars, Chars)| wanted(k, a.rib_in, prefix, asn, links);
    let pb = |k: (Chars, Chars)| wanted(k, b.rib_in, prefix, asn, links);
    let ga = |k: (Chars, Chars)| entry_candidate(k, a.rib_in, asn, links);
    let gb = |k: (Chars, Chars)| entry_candidate(k, b.rib_in, asn, links);
    lemma_learned_filter(ka, a.rib_in, prefix, asn, links);
    lemma_learned_filter(kb, b.rib_in, prefix, asn, links);
    lemma_filter_keys(ka, pa);
    lemma_filter_keys(kb, pb);
    let fa = ka.filter(pa);
    let fb = kb.filter(pb);
    assert forall|k: (Chars, Chars)| #[trigger] fa.contains(k) == fb.contains(k) by {
        assert(ka.contains(k) == ka.to_set().contains(k));
        assert(kb.contains(k) == kb.to_set().contains(k));
        if k.1 == prefix {
            assert(a.rib_in.dom().contains((k.0, prefix)) == b.rib_in.dom().contains(
                (k.0, prefix),
            ));
            assert(k == (k.0, prefix));
        }
    }
    assert(fa.to_set() =~= fb.to_set()) by {
        assert forall|k: (Chars, Chars)| fa.to_set().contains(k) == fb.to_set().contains(k) by {
            assert(fa.contains(k) == fb.contains(k));
        }
    }
    lemma_in_order::<(String, String)>(fa);
    lemma_in_order::<(String, String)>(fb);
    assert(fa == fb);
    assert(fa.map_values(ga) =~= fb.map_values(gb)) by {
        assert forall|i: int| 0 <= i < fa.len() implies ga(fa[i]) == gb(fb[i]) by {
            let k = fa[i];
            assert(fa.contains(k));
            assert(ka.to_set().contains(k));
            assert(a.rib_in.dom().contains((k.0, prefix)));
            assert(k == (k.0, prefix));
        }
    }
}

/// The candidates of a node for a prefix are what it originates itself and what it has learned
/// over its sessions, as the sender's, but for what came over eBGP and has been through its own
/// AS. A route without a first AS is given one: the leftmost of its AS_PATH, or the local one.
pub proof fn law_candidates_are_what_is_known(
    node: RtNodeView,
    name: Chars,
    prefix: Chars,
    links: Seq<SessionView>,
    c: CandidateView,
)
    requires
        node.rib_in.dom().finite(),
    ensures
        eligible(node, name, prefix, links).contains(c) <==> {
            ||| {
                &&& c.ingress_session is None
                &&& c.node == name
                &&& node.origins.dom().contains(prefix)
                &&& c.route == node.origins[prefix]
            }
            ||| {
                &&& c.ingress_session matches Some(sid)
                &&& node.rib_in.dom().contains((sid, prefix))
                &&& c.node == (link(links, sid)->0).local
                &&& !((link(links, sid)->0).kind == SessionKind::EBgp && node.rib_in[(
                    sid,
                    prefix,
                )].as_path.contains(node.spec.asn))
                &&& c.route == (RouteView { first_as: c.route.first_as, ..node.rib_in[(sid, prefix)]
                })
                &&& c.route.first_as == (if node.rib_in[(sid, prefix)].first_as is Some {
                    node.rib_in[(sid, prefix)].first_as
                } else if c.route.as_path.len() > 0 {
                    Some(c.route.as_path[0])
                } else {
                    Some(node.spec.asn)
                })
            }
        },
{
    let asn = node.spec.asn;
    let rib = node.rib_in;
    let keys = in_order::<(String, String)>(rib.dom());
    lemma_in_order_exists::<(String, String)>(rib.dom());
    let p = |k: (Chars, Chars)| wanted(k, rib, prefix, asn, links);
    let g = |k: (Chars, Chars)| entry_candidate(k, rib, asn, links);
    lemma_learned_filter(keys, rib, prefix, asn, links);
    lemma_filter_keys(keys, p);
    let f = keys.filter(p);
    let more = f.map_values(g);
    let pool = eligible(node, name, prefix, links);
    let own = (pool.len() - more.len()) as int;
    assert(own == (if node.origins.dom().contains(prefix) { 1int } else { 0 }));
    if pool.contains(c) {
        let i = choose|i: int| 0 <= i < pool.len() && pool[i] == c;
        if i >= own {
            let k = f[i - own];
            assert(more[i - own] == c);
            assert(f.contains(k));
            assert(keys.to_set().contains(k));
            assert(k == (k.0, prefix));
        }
    }
    if c.ingress_session is None && c.node == name && node.origins.dom().contains(prefix)
        && c.route == node.origins[prefix] {
        assert(pool[0] == c);
    }
    if let Some(sid) = c.ingress_session {
        let k = (sid, prefix);
        if rib.dom().contains(k) && p(k) && c == g(k) {
            assert(keys.to_set().contains(k));
            assert(f.contains(k));
            let j = choose|j: int| 0 <= j < f.len() && f[j] == k;
            assert(more[j] == c);
            assert(pool[own + j] == c);
        }
    }
}

// ---------- one node ----------

/// Selecting and, where the best route has changed, exporting for the one prefix that has
/// changed keeps a node coherent.
proof fn lemma_changed_coherent(
    before: RtNodeView,
    changed: RtNodeView,
    name: Chars,
    prefix: Chars,
    links: Seq<SessionView>,
    queue: Seq<ScheduledView>,
    tick: u64,
)
    requires
        coherent(before, name, links),
        before.rib_in.dom().finite(),
        changed.rib_in.dom().finite(),
        changed.spec == before.spec,
        changed.best == before.best,
        changed.equal_peer == before.equal_peer,
        changed.advertised == before.advertised,
        forall|p: Chars|
            p != prefix ==> #[trigger] changed.origins.dom().contains(p)
                == before.origins.dom().contains(p) && changed.origins[p] == before.origins[p],
        forall|sid: Chars, p: Chars|
            p != prefix ==> #[trigger] changed.rib_in.dom().contains((sid, p))
                == before.rib_in.dom().contains((sid, p)) && changed.rib_in[(sid, p)]
                == before.rib_in[(sid, p)],
    ensures
        ({
            let chosen = reselected(changed, name, prefix, links);
            let e = node_exports(chosen, name, prefix, links, queue, tick);
            &&& coherent(RtNodeView { advertised: e.advertised, ..chosen }, name, links)
            &&& lookup(chosen.best, prefix) == lookup(before.best, prefix) ==> coherent(
                chosen,
                name,
                links,
            )
        }),
{
    let chosen = reselected(changed, name, prefix, links);
    let e = node_exports(chosen, name, prefix, links, queue, tick);
    let out = RtNodeView { advertised: e.advertised, ..chosen };
    assert forall|p: Chars| chosen_well(chosen, name, links, p) && #[trigger] chosen_well(
        out,
        name,
        links,
        p,
    ) by {
        assert(eligible(out, name, p, links) == eligible(changed, name, p, links));
        assert(eligible(chosen, name, p, links) == eligible(changed, name, p, links));
        if p != prefix {
            assert(changed.origins.dom().contains(p) == before.origins.dom().contains(p));
            lemma_eligible_same(changed, before, name, p, links);
            assert(chosen_well(before, name, links, p));
        }
    }
    assert forall|p: Chars| #[trigger] chosen_well(chosen, name, links, p) by {
        assert(chosen_well(out, name, links, p));
    }
    assert forall|i: int, p: Chars| #[trigger] published_well(out, name, links, i, p) by {
        if 0 <= i < links.len() && links[i].local == name {
            lemma_link_exists(links, i);
            law_export_reaches_every_session(chosen, name, prefix, links, queue, tick, i);
            if p != prefix {
                assert(says(e.advertised, links[i].id, p) == says(
                    chosen.advertised,
                    links[i].id,
                    p,
                ));
                assert(published_well(before, name, links, i, p));
            }
        }
    }
    if lookup(chosen.best, prefix) == lookup(before.best, prefix) {
        assert forall|i: int, p: Chars| #[trigger] published_well(chosen, name, links, i, p) by {
            assert(published_well(before, name, links, i, p));
        }
    }
}

// ---------- restart ----------

proof fn lemma_by_prefix_dom(routes: Seq<RouteView>, p: Chars)
    requires
        by_prefix(routes).dom().contains(p),
    ensures
        exists|i: int| 0 <= i < routes.len() && (#[trigger] routes[i]).prefix == p,
    decreases routes.len(),
{
    if routes.len() > 0 {
        if routes.last().prefix == p {
            assert(routes[routes.len() - 1].prefix == p);
        } else {
            let init = routes.drop_last();
            lemma_by_prefix_dom(init, p);
            let i = choose|i: int| 0 <= i < init.len() && (#[trigger] init[i]).prefix == p;
            assert(routes[i].prefix == p);
        }
    }
}

/// Whether a prefix is that of one of some routes.
spec fn among(routes: Seq<RouteView>, p: Chars) -> bool {
    exists|i: int| 0 <= i < routes.len() && (#[trigger] routes[i]).prefix == p
}

proof fn lemma_reannounced_coherent(
    routes: Seq<RouteView>,
    all: Seq<RouteView>,
    r: Restarting,
    name: Chars,
    links: Seq<SessionView>,
    tick: u64,
)
    requires
        r.node.rib_in.dom().finite(),
        forall|p: Chars|
            !among(all, p) ==> #[trigger] chosen_well(r.node, name, links, p),
        forall|i: int, p: Chars|
            !among(all, p) ==> #[trigger] published_well(r.node, name, links, i, p),
        forall|k: int| 0 <= k < routes.len() ==> among(all, (#[trigger] routes[k]).prefix),
    ensures
        ({
            let out = reannounced(routes, r, name, links, tick).node;
            &&& forall|p: Chars|
                !among(all, p) || among(routes, p) ==> #[trigger] chosen_well(out, name, links, p)
            &&& forall|i: int, p: Chars|
                !among(all, p) || among(routes, p) ==> #[trigger] published_well(
                    out,
                    name,
                    links,
                    i,
                    p,
                )
        }),
    decreases routes.len(),
{
    if routes.len() > 0 {
        let init = routes.drop_last();
        assert forall|k: int| 0 <= k < init.len() implies among(all, (#[trigger] init[k]).prefix)
            by {
            assert(init[k] == routes[k]);
        }
        lemma_reannounced_coherent(init, all, r, name, links, tick);
        lemma_reannounced_keeps(init, r, name, links, tick);
        let before = reannounced(init, r, name, links, tick);
        let prefix = routes.last().prefix;
        let chosen = reselected(before.node, name, prefix, links);
        let e = node_exports(chosen, name, prefix, links, before.queue, tick);
        let out = RtNodeView { advertised: e.advertised, ..chosen };
        assert(routes[routes.len() - 1].prefix == prefix);
        assert forall|p: Chars| among(routes, p) implies p == prefix || among(init, p) by {
            let i = choose|i: int| 0 <= i < routes.len() && (#[trigger] routes[i]).prefix == p;
            if i < init.len() {
                assert(init[i].prefix == p);
            }
        }
        assert forall|p: Chars|
            !among(all, p) || among(routes, p) implies #[trigger] chosen_well(
            out,
            name,
            links,
            p,
        ) by {
            assert(eligible(out, name, p, links) == eligible(before.node, name, p, links));
            if p != prefix {
                assert(chosen_well(before.node, name, links, p));
            }
        }
        assert forall|i: int, p: Chars|
            !among(all, p) || among(routes, p) implies #[trigger] published_well(
            out,
            name,
            links,
            i,
            p,
        ) by {
            if 0 <= i < links.len() && links[i].local == name {
                lemma_link_exists(links, i);
                law_export_reaches_every_session(
                    chosen,
                    name,
                    prefix,
                    links,
                    before.queue,
                    tick,
                    i,
                );
                if p != prefix {
                    assert(says(e.advertised, links[i].id, p) == says(
                        chosen.advertised,
                        links[i].id,
                        p,
                    ));
                    assert(published_well(before.node, name, links, i, p));
                }
            }
        }
    }
}

proof fn lemma_restarted_coherent(
    node: RtNodeView,
    name: Chars,
    links: Seq<SessionView>,
    queue: Seq<ScheduledView>,
    tick: u64,
)
    requires
        node.origins.dom().finite(),
        filed(node),
    ensures
        coherent(
            reannounced(
                origin_routes(node),
                Restarting {
                    node: rebooted(node),
                    queue,
                    exports: Seq::empty(),
                    selection: None,
                },
                name,
                links,
                tick,
            ).node,
            name,
            links,
        ),
{
    let routes = origin_routes(node);
    let keys = in_order::<String>(node.origins.dom());
    lemma_in_order_exists::<String>(node.origins.dom());
    let fresh = rebooted(node);
    let first = Restarting { node: fresh, queue, exports: Seq::empty(), selection: None };
    assert forall|p: Chars| #[trigger] node.origins.dom().contains(p) <==> among(routes, p) by {
        if node.origins.dom().contains(p) {
            assert(keys.to_set().contains(p));
            let i = choose|i: int| 0 <= i < keys.len() && keys[i] == p;
            assert(routes[i] == node.origins[p]);
            assert(routes[i].prefix == p);
        }
        if among(routes, p) {
            let i = choose|i: int| 0 <= i < routes.len() && (#[trigger] routes[i]).prefix == p;
            assert(keys.to_set().contains(keys[i]));
            assert(node.origins.dom().contains(keys[i]));
            assert(routes[i] == node.origins[keys[i]]);
        }
    }
    assert forall|p: Chars| !among(routes, p) implies !fresh.best.dom().contains(p) && #[trigger]
        chosen_well(fresh, name, links, p) by {
        if fresh.best.dom().contains(p) {
            lemma_by_prefix_dom(routes, p);
            let i = choose|i: int| 0 <= i < routes.len() && (#[trigger] routes[i]).prefix == p;
            assert(routes[i].prefix == p);
        }
        assert(!node.origins.dom().contains(p));
        let none = in_order::<(String, String)>(fresh.rib_in.dom());
        lemma_in_order_exists::<(String, String)>(fresh.rib_in.dom());
        if none.len() > 0 {
            assert(none.to_set().contains(none[0]));
        }
        assert(eligible(fresh, name, p, links).len() == 0);
    }
    assert forall|i: int, p: Chars| !among(routes, p) implies #[trigger] published_well(
        fresh,
        name,
        links,
        i,
        p,
    ) by {
        assert(chosen_well(fresh, name, links, p));
        assert(!fresh.best.dom().contains(p));
    }
    assert forall|k: int| 0 <= k < routes.len() implies among(
        routes,
        (#[trigger] routes[k]).prefix,
    ) by {}
    lemma_reannounced_coherent(routes, routes, first, name, links, tick);
}

proof fn lemma_resent_coherent(
    prefixes: Seq<Chars>,
    r: Resending,
    sid: Chars,
    links: Seq<SessionView>,
    tick: u64,
)
    requires
        link(links, sid) is Some,
        coherent(r.node, (link(links, sid)->0).local, links),
    ensures
        coherent(
            resent(prefixes, r, link(links, sid)->0, tick).node,
            (link(links, sid)->0).local,
            links,
        ),
    decreases prefixes.len(),
{
    if prefixes.len() > 0 {
        let init = prefixes.drop_last();
        let sess = link(links, sid)->0;
        let name = sess.local;
        lemma_link_id(links, sid);
        lemma_resent_coherent(init, r, sid, links, tick);
        let node = resent(init, r, sess, tick).node;
        let out = resent(prefixes, r, sess, tick).node;
        assert forall|p: Chars| #[trigger] chosen_well(out, name, links, p) by {
            assert(eligible(out, name, p, links) == eligible(node, name, p, links));
            assert(chosen_well(node, name, links, p));
        }
        assert forall|i: int, p: Chars| #[trigger] published_well(out, name, links, i, p) by {
            assert(published_well(node, name, links, i, p));
        }
    }
}

proof fn lemma_refreshed_coherent(
    sids: Seq<Chars>,
    r: Refreshing,
    links: Seq<SessionView>,
    tick: u64,
)
    requires
        forall|n: Chars| #[trigger]
            r.nodes.dom().contains(n) ==> coherent(r.nodes[n], n, links) && filed(r.nodes[n]),
        forall|k: int|
            0 <= k < sids.len() ==> link(links, #[trigger] sids[k]) is Some
                && r.nodes.dom().contains((link(links, sids[k])->0).local),
    ensures
        ({
            let after = refreshed(sids, r, links, tick).nodes;
            &&& after.dom() == r.nodes.dom()
            &&& forall|n: Chars| #[trigger]
                after.dom().contains(n) ==> coherent(after[n], n, links) && filed(after[n])
        }),
    decreases sids.len(),
{
    if sids.len() > 0 {
        let init = sids.drop_last();
        assert forall|k: int| 0 <= k < init.len() implies link(links, #[trigger] init[k]) is Some
            && r.nodes.dom().contains((link(links, init[k])->0).local) by {
            assert(init[k] == sids[k]);
        }
        lemma_refreshed_coherent(init, r, links, tick);
        let before = refreshed(init, r, links, tick);
        let sid = sids.last();
        assert(sids[sids.len() - 1] == sid);
        let sess = link(links, sid)->0;
        let node = before.nodes[sess.local];
        assert(before.nodes.dom().contains(sess.local));
        let prefixes = in_order::<String>(node.best.dom());
        let first = Resending { node, queue: before.queue };
        lemma_resent_coherent(prefixes, first, sid, links, tick);
        lemma_resent_keeps(prefixes, first, sess, tick);
        let after = refreshed(sids, r, links, tick).nodes;
        assert(after.dom() =~= before.nodes.dom());
        assert forall|n: Chars| #[trigger] after.dom().contains(n) implies coherent(
            after[n],
            n,
            links,
        ) && filed(after[n]) by {
            assert(before.nodes.dom().contains(n));
        }
    }
}

// ---------- one message ----------

proof fn lemma_processed_coherent(
    st: StateView,
    links: Seq<SessionView>,
    m: ScheduledView,
    seq: usize,
)
    requires
        deliverable(st.nodes.dom(), links, m),
        m.kind == MsgKind::OriginInject ==> (m.route->0).prefix == m.prefix->0,
        forall|n: Chars| #[trigger] st.nodes.dom().contains(n) ==> lawful(st.nodes[n], links),
        forall|n: Chars| #[trigger]
            st.nodes.dom().contains(n) ==> coherent(st.nodes[n], n, links) && filed(st.nodes[n]),
    ensures
        forall|n: Chars| #[trigger]
            processed(st, links, m, seq).nodes.dom().contains(n) ==> coherent(
                processed(st, links, m, seq).nodes[n],
                n,
                links,
            ) && filed(processed(st, links, m, seq).nodes[n]),
{
    match m.kind {
        MsgKind::OriginInject => {
            let node = st.nodes[m.node];
            let prefix = m.prefix->0;
            assert(lawful(node, links) && coherent(node, m.node, links) && filed(node));
            let next = RtNodeView { origins: node.origins.insert(prefix, m.route->0), ..node };
            assert(filed(next)) by {
                assert forall|p: Chars| #[trigger] next.origins.dom().contains(
                    p,
                ) implies next.origins[p].prefix == p by {
                    if p != prefix {
                        assert(node.origins.dom().contains(p));
                    }
                }
            }
            lemma_changed_coherent(node, next, m.node, prefix, links, st.queue, m.tick);
        },
        MsgKind::OriginWithdraw => {
            let node = st.nodes[m.node];
            let prefix = m.prefix->0;
            assert(lawful(node, links) && coherent(node, m.node, links) && filed(node));
            let next = RtNodeView { origins: node.origins.remove(prefix), ..node };
            assert(filed(next)) by {
                assert forall|p: Chars| #[trigger] next.origins.dom().contains(
                    p,
                ) implies next.origins[p].prefix == p by {
                    assert(node.origins.dom().contains(p));
                }
            }
            lemma_changed_coherent(node, next, m.node, prefix, links, st.queue, m.tick);
        },
        MsgKind::Restart => {
            let name = m.node;
            let node = st.nodes[name];
            assert(lawful(node, links) && filed(node));
            let routes = origin_routes(node);
            let first = Restarting {
                node: rebooted(node),
                queue: st.queue,
                exports: Seq::empty(),
                selection: None,
            };
            lemma_restarted_coherent(node, name, links, st.queue, m.tick);
            lemma_reannounced_keeps(routes, first, name, links, m.tick);
            let r = reannounced(routes, first, name, links, m.tick);
            let half = Refreshing { nodes: st.nodes.insert(name, r.node), queue: r.queue };
            assert(half.nodes.dom() =~= st.nodes.dom());
            assert forall|n: Chars| #[trigger] half.nodes.dom().contains(n) implies coherent(
                half.nodes[n],
                n,
                links,
            ) && filed(half.nodes[n]) by {
                assert(st.nodes.dom().contains(n));
            }
            let sids = incoming(links, name);
            assert forall|k: int| 0 <= k < sids.len() implies link(links, #[trigger] sids[k])
                is Some && half.nodes.dom().contains((link(links, sids[k])->0).local) by {
                lemma_incoming(st.nodes.dom(), links, name, k);
            }
            lemma_refreshed_coherent(sids, half, links, m.tick);
        },
        MsgKind::Receive => {
            let sid = m.session->0;
            let sess = link(links, sid)->0;
            let name = sess.remote;
            let prefix = m.prefix->0;
            let node = st.nodes[name];
            assert(lawful(node, links) && coherent(node, name, links) && filed(node));
            let r = received_at(node, name, sess, sid, prefix, m.route->0, links);
            let replaced = RtNodeView {
                rib_in: node.rib_in.insert((sid, prefix), r.mutated),
                ..node
            };
            let left = purged(node, sid, prefix);
            lemma_changed_coherent(node, replaced, name, prefix, links, st.queue, m.tick);
            lemma_changed_coherent(node, left, name, prefix, links, st.queue, m.tick);
        },
        MsgKind::Withdraw => {
            let sid = m.session->0;
            let name = (link(links, sid)->0).remote;
            let prefix = m.prefix->0;
            let node = st.nodes[name];
            assert(lawful(node, links) && coherent(node, name, links) && filed(node));
            let left = purged(node, sid, prefix);
            lemma_changed_coherent(node, left, name, prefix, links, st.queue, m.tick);
        },
    }
}

/// No message leaves a node incoherent: whatever it changes, the best routes are again the
/// winners among the candidates, and the advertisements what the export policy makes of them.
pub proof fn law_processing_keeps_coherence(
    st: StateView,
    links: Seq<SessionView>,
    m: ScheduledView,
    seq: usize,
)
    requires
        deliverable(st.nodes.dom(), links, m),
        m.kind == MsgKind::OriginInject ==> (m.route->0).prefix == m.prefix->0,
        all_lawful(st, links),
        all_coherent(st, links),
    ensures
        all_coherent(processed(st, links, m, seq), links),
{
    let after = processed(st, links, m, seq);
    lemma_processed_coherent(st, links, m, seq);
    crate::constraints::law_sent_at_the_tick_of_the_message(st, links, m, seq);
    assert forall|i: int|
        0 <= i < after.queue.len() && (#[trigger] after.queue[i]).kind
            == MsgKind::OriginInject implies (after.queue[i].route->0).prefix
        == after.queue[i].prefix->0 by {
        if i < st.queue.len() {
            assert(st.queue[i].kind == MsgKind::OriginInject);
        } else {
            assert(crate::constraints::well_sent(after.queue[i], links, st.nodes, m.tick));
        }
    }
}

// ---------- a whole run ----------

proof fn lemma_scheduled_labelled(queue: Seq<ScheduledView>, m: ScheduledView)
    requires
        labelled(queue),
        m.kind == MsgKind::OriginInject ==> (m.route->0).prefix == m.prefix->0,
    ensures
        labelled(scheduled(queue, m)),
{
    let all = scheduled(queue, m);
    assert forall|i: int|
        0 <= i < all.len() && (#[trigger] all[i]).kind == MsgKind::OriginInject implies (
    all[i].route->0).prefix == all[i].prefix->0 by {
        if i < queue.len() {
            assert(queue[i].kind == MsgKind::OriginInject);
        }
    }
}

proof fn lemma_injections_labelled(
    announcements: Seq<AnnouncementView>,
    nodes: Map<Chars, NodeSpecView>,
)
    ensures
        labelled(injections(announcements, nodes)),
    decreases announcements.len(),
{
    if announcements.len() > 0 {
        lemma_injections_labelled(announcements.drop_last(), nodes);
        lemma_scheduled_labelled(
            injections(announcements.drop_last(), nodes),
            injection(announcements.last(), nodes),
        );
    }
}

proof fn lemma_events_labelled(
    events: Seq<EventSpecView>,
    announcements: Seq<AnnouncementView>,
    queue: Seq<ScheduledView>,
)
    requires
        labelled(queue),
    ensures
        labelled(with_events(events, announcements, queue)),
    decreases events.len(),
{
    if events.len() > 0 {
        lemma_events_labelled(events.drop_last(), announcements, queue);
        if let Some(m) = event_message(events.last(), announcements) {
            lemma_scheduled_labelled(
                with_events(events.drop_last(), announcements, queue),
                m,
            );
        }
    }
}

proof fn lemma_start_coherent(input: ScenarioInputView)
    ensures
        all_coherent(start(input), input.sessions),
{
    let st = start(input);
    let links = input.sessions;
    lemma_injections_labelled(input.announcements, input.nodes);
    lemma_events_labelled(
        input.events,
        input.announcements,
        injections(input.announcements, input.nodes),
    );
    assert forall|n: Chars| #[trigger] st.nodes.dom().contains(n) implies coherent(
        st.nodes[n],
        n,
        links,
    ) && filed(st.nodes[n]) by {
        let node = st.nodes[n];
        assert forall|p: Chars| #[trigger] chosen_well(node, n, links, p) by {
            let none = in_order::<(String, String)>(node.rib_in.dom());
            lemma_in_order_exists::<(String, String)>(node.rib_in.dom());
            if none.len() > 0 {
                assert(none.to_set().contains(none[0]));
            }
            assert(eligible(node, n, p, links).len() == 0);
        }
        assert forall|i: int, p: Chars| #[trigger] published_well(node, n, links, i, p) by {}
    }
}

proof fn lemma_run_coherent(
    links: Seq<SessionView>,
    cap: usize,
    st: StateView,
    messages: usize,
    seen: Map<Chars, (usize, u64)>,
)
    requires
        sound(st, links),
        all_lawful(st, links),
        all_coherent(st, links),
    ensures
        all_coherent(run_from(links, cap, st, messages, seen).state, links),
    decreases cap - messages, st.queue.len(),
{
    if st.queue.len() > 0 {
        let d = due(st.queue);
        let m = st.queue[d];
        let rest = StateView { queue: st.queue.remove(d), ..st };
        lemma_removed_sound(st, links);
        assert forall|i: int| 0 <= i < rest.queue.len() implies st.queue.contains(
            #[trigger] rest.queue[i],
        ) by {
            let j = if i < d { i } else { i + 1 };
            assert(rest.queue[i] == st.queue[j]);
        }
        assert(originated(rest.queue)) by {
            assert forall|i: int|
                0 <= i < rest.queue.len() && (#[trigger] rest.queue[i]).kind
                    == MsgKind::OriginInject implies (rest.queue[i].route->0).provenance
                == Provenance::Origin by {
                let j = choose|j: int| 0 <= j < st.queue.len() && st.queue[j] == rest.queue[i];
                assert(st.queue[j].kind == MsgKind::OriginInject);
            }
        }
        assert(labelled(rest.queue)) by {
            assert forall|i: int|
                0 <= i < rest.queue.len() && (#[trigger] rest.queue[i]).kind
                    == MsgKind::OriginInject implies (rest.queue[i].route->0).prefix
                == rest.queue[i].prefix->0 by {
                let j = choose|j: int| 0 <= j < st.queue.len() && st.queue[j] == rest.queue[i];
                assert(st.queue[j].kind == MsgKind::OriginInject);
            }
        }
        if m.stale {
            lemma_run_coherent(links, cap, rest, messages, seen);
        } else if messages < cap {
            let count = (messages + 1) as usize;
            let next = processed(rest, links, m, count);
            assert(deliverable(st.nodes.dom(), links, m));
            law_processing_keeps_state_sound(rest, links, m, count);
            law_processing_keeps_constraints(rest, links, m, count);
            law_processing_keeps_coherence(rest, links, m, count);
            let sig = signature(next.nodes, next.queue);
            if next.queue.len() > 0 && !seen.dom().contains(sig) {
                lemma_run_coherent(
                    links,
                    cap,
                    next,
                    count,
                    seen.insert(sig, (count, now(next.steps))),
                );
            }
        }
    }
}

/// Wherever a run ends, every node has selected the winners among its candidates, and every
/// session says what the policy of the node at which it starts publishes of them.
pub proof fn law_runs_end_coherent(input: ScenarioInputView)
    requires
        runnable(input),
    ensures
        all_coherent(ending(input).state, input.sessions),
        all_lawful(ending(input).state, input.sessions),
        as_specified(ending(input).state.nodes, input.nodes),
{
    law_start_is_sound(input);
    lemma_start(input);
    lemma_start_coherent(input);
    crate::constraints::law_constraints_bind_every_run(input);
    lemma_run_coherent(
        input.sessions,
        input.max_iterations,
        start(input),
        0,
        Map::empty(),
    );
}

} // verus!
