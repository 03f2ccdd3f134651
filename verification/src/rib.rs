//! The routing state of a node, and how it chooses its best route for a prefix.

use crate::bestpath::{
    pick, selection, Candidate, CandidateView, SelectionReport, SelectionReportView,
};
use crate::model::{
    NodeId, NodeSpec, NodeSpecView, Prefix, Route, RouteView, Session, SessionId,
    SessionKind, SessionView,
};
use crate::ordmap::{in_order, OrdMap};
use crate::policy::path_contains;
use crate::text::{str_eq, Chars};
use crate::value::Value;
use vstd::prelude::*;

verus! {

// ---------- sessions ----------

/// The session of an id. Of two sessions with one id the later counts.
pub open spec fn link(links: Seq<SessionView>, id: Chars) -> Option<SessionView>
    decreases links.len(),
{
    if links.len() == 0 {
        None
    } else if links.last().id == id {
        Some(links.last())
    } else {
        link(links.drop_last(), id)
    }
}

/// The ids of the sessions that start at a node, in their order.
pub open spec fn outgoing(links: Seq<SessionView>, node: Chars) -> Seq<Chars> {
    links.filter(|s: SessionView| s.local == node).map_values(|s: SessionView| s.id)
}

/// The ids of the sessions that end at a node, in their order.
pub open spec fn incoming(links: Seq<SessionView>, node: Chars) -> Seq<Chars> {
    links.filter(|s: SessionView| s.remote == node).map_values(|s: SessionView| s.id)
}

/// The id of a session names a session.
pub proof fn lemma_link_exists(links: Seq<SessionView>, i: int)
    requires
        0 <= i < links.len(),
    ensures
        link(links, links[i].id) matches Some(s) && s.id == links[i].id && links.contains(s),
    decreases links.len(),
{
    if links.last().id == links[i].id {
        assert(links[links.len() - 1] == links.last());
    } else {
        let init = links.drop_last();
        lemma_link_exists(init, i);
        let s = link(init, init[i].id)->0;
        let j = choose|j: int| 0 <= j < init.len() && init[j] == s;
        assert(links[j] == s);
    }
}

/// Finds a session by its id.
pub fn find_link<'a>(links: &'a Vec<Session>, id: &str) -> (r: Option<&'a Session>)
    ensures
        r is Some <==> link(links.deep_view(), id@) is Some,
        r matches Some(s) ==> link(links.deep_view(), id@) == Some(s@),
{
    let ghost views = links.deep_view();
    let mut n: usize = links.len();
    assert(views.take(n as int) =~= views);
    while n > 0
        invariant
            n <= links@.len(),
            views == links.deep_view(),
            link(views, id@) == link(views.take(n as int), id@),
        decreases n,
    {
        proof {
            assert(views.take(n as int).last() == links@[n - 1]@);
            assert(views.take(n as int).drop_last() =~= views.take(n - 1));
        }
        n -= 1;
        if str_eq(links[n].id.as_str(), id) {
            return Some(&links[n]);
        }
    }
    None
}

/// The ids of the sessions that start at a node.
pub fn outgoing_ids(links: &Vec<Session>, node: &str) -> (r: Vec<String>)
    ensures
        r.deep_view() == outgoing(links.deep_view(), node@),
        forall|k: int| 0 <= k < r@.len() ==> link(links.deep_view(), (#[trigger] r@[k])@) is Some,
{
    let ghost views = links.deep_view();
    let ghost starts = |s: SessionView| s.local == node@;
    let mut out: Vec<String> = Vec::new();
    let mut i: usize = 0;
    assert(out.deep_view() =~= views.take(0).filter(starts).map_values(|s: SessionView| s.id)) by {
        reveal(Seq::filter);
    }
    while i < links.len()
        invariant
            i <= links@.len(),
            views == links.deep_view(),
            starts == (|s: SessionView| s.local == node@),
            out.deep_view() == views.take(i as int).filter(starts).map_values(
                |s: SessionView| s.id,
            ),
            forall|k: int| 0 <= k < out@.len() ==> link(views, (#[trigger] out@[k])@) is Some,
        decreases links.len() - i,
    {
        let ghost before = out.deep_view();
        proof {
            assert(views[i as int] == links@[i as int]@);
            assert(views.take(i + 1) =~= views.take(i as int).push(views[i as int]));
            views.take(i as int).lemma_filter_push(views[i as int], starts);
            lemma_link_exists(views, i as int);
        }
        if str_eq(links[i].local.as_str(), node) {
            out.push(links[i].id.clone());
            assert(out.deep_view() =~= before.push(views[i as int].id));
            assert(out.deep_view() =~= views.take(i + 1).filter(starts).map_values(
                |s: SessionView| s.id,
            ));
        }
        i += 1;
    }
    assert(views.take(i as int) =~= views);
    out
}

/// The ids of the sessions that end at a node.
pub fn incoming_ids(links: &Vec<Session>, node: &str) -> (r: Vec<String>)
    ensures
        r.deep_view() == incoming(links.deep_view(), node@),
        forall|k: int| 0 <= k < r@.len() ==> link(links.deep_view(), (#[trigger] r@[k])@) is Some,
{
    let ghost views = links.deep_view();
    let ghost ends = |s: SessionView| s.remote == node@;
    let mut out: Vec<String> = Vec::new();
    let mut i: usize = 0;
    assert(out.deep_view() =~= views.take(0).filter(ends).map_values(|s: SessionView| s.id)) by {
        reveal(Seq::filter);
    }
    while i < links.len()
        invariant
            i <= links@.len(),
            views == links.deep_view(),
            ends == (|s: SessionView| s.remote == node@),
            out.deep_view() == views.take(i as int).filter(ends).map_values(|s: SessionView| s.id),
            forall|k: int| 0 <= k < out@.len() ==> link(views, (#[trigger] out@[k])@) is Some,
        decreases links.len() - i,
    {
        let ghost before = out.deep_view();
        proof {
            assert(views[i as int] == links@[i as int]@);
            assert(views.take(i + 1) =~= views.take(i as int).push(views[i as int]));
            views.take(i as int).lemma_filter_push(views[i as int], ends);
            lemma_link_exists(views, i as int);
        }
        if str_eq(links[i].remote.as_str(), node) {
            out.push(links[i].id.clone());
            assert(out.deep_view() =~= before.push(views[i as int].id));
            assert(out.deep_view() =~= views.take(i + 1).filter(ends).map_values(
                |s: SessionView| s.id,
            ));
        }
        i += 1;
    }
    assert(views.take(i as int) =~= views);
    out
}

// ---------- routing state ----------

/// The routing state of a node.
#[derive(Debug)]
pub struct RtNode {
    pub spec: NodeSpec,
    /// Locally originated routes still active, by prefix.
    pub origins: OrdMap<Prefix, Route>,
    /// Adj-RIB-In: the accepted route of each ingress session and prefix.
    pub rib_in: OrdMap<(SessionId, Prefix), Route>,
    pub best: OrdMap<Prefix, Route>,
    pub equal_peer: OrdMap<Prefix, NodeId>,
    /// Last advertisement sent per egress session and prefix; `None` is a withdrawal.
    pub advertised: OrdMap<(SessionId, Prefix), Option<Route>>,
    pub up: bool,
}

/// What a [`RtNode`] holds.
#[verifier::ext_equal]
pub struct RtNodeView {
    pub spec: NodeSpecView,
    pub origins: Map<Chars, RouteView>,
    pub rib_in: Map<(Chars, Chars), RouteView>,
    pub best: Map<Chars, RouteView>,
    pub equal_peer: Map<Chars, Chars>,
    pub advertised: Map<(Chars, Chars), Option<RouteView>>,
    pub up: bool,
}

impl View for RtNode {
    type V = RtNodeView;

    open spec fn view(&self) -> RtNodeView {
        RtNodeView {
            spec: self.spec.deep_view(),
            origins: self.origins.deep_view(),
            rib_in: self.rib_in.deep_view(),
            best: self.best.deep_view(),
            equal_peer: self.equal_peer.deep_view(),
            advertised: self.advertised.deep_view(),
            up: self.up,
        }
    }
}

impl DeepView for RtNode {
    type V = RtNodeView;

    open spec fn deep_view(&self) -> RtNodeView {
        self@
    }
}

impl Value for RtNode {
    fn copy(&self) -> (r: Self) {
        RtNode {
            spec: self.spec.copy(),
            origins: self.origins.copy(),
            rib_in: self.rib_in.copy(),
            best: self.best.copy(),
            equal_peer: self.equal_peer.copy(),
            advertised: self.advertised.copy(),
            up: self.up,
        }
    }

    fn same(&self, other: &Self) -> (r: bool) {
        self.spec.same(&other.spec)
            && self.origins.same(&other.origins)
            && self.rib_in.same(&other.rib_in)
            && self.best.same(&other.best)
            && self.equal_peer.same(&other.equal_peer)
            && self.advertised.same(&other.advertised)
            && self.up == other.up
    }
}

/// The routing state that a node starts with.
pub open spec fn fresh(spec: NodeSpecView) -> RtNodeView {
    RtNodeView {
        spec,
        origins: Map::empty(),
        rib_in: Map::empty(),
        best: Map::empty(),
        equal_peer: Map::empty(),
        advertised: Map::empty(),
        up: true,
    }
}

/// A node that has learned nothing yet.
pub fn fresh_node(spec: &NodeSpec) -> (r: RtNode)
    ensures
        r@ == fresh(spec@),
{
    RtNode {
        spec: spec.copy(),
        origins: OrdMap::new(),
        rib_in: OrdMap::new(),
        best: OrdMap::new(),
        equal_peer: OrdMap::new(),
        advertised: OrdMap::new(),
        up: true,
    }
}

/// Whether every route of the Adj-RIB-In came over a known session.
pub open spec fn known_ingress(node: RtNodeView, links: Seq<SessionView>) -> bool {
    forall|k: (Chars, Chars)| #[trigger]
        node.rib_in.dom().contains(k) ==> link(links, k.0) is Some
}

// ---------- best route ----------

/// A route with its first AS filled in: the leftmost of its AS_PATH, or else the local AS.
pub open spec fn with_first_as(route: RouteView, own_as: u32) -> RouteView {
    if route.first_as is Some {
        route
    } else {
        RouteView {
            first_as: Some(
                if route.as_path.len() > 0 {
                    route.as_path[0]
                } else {
                    own_as
                },
            ),
            ..route
        }
    }
}

/// Whether a route of the Adj-RIB-In may be selected. An eBGP-learned route whose AS_PATH
/// contains the local AS never is; a route learned over iBGP may contain it.
pub open spec fn usable(route: RouteView, kind: SessionKind, own_as: u32) -> bool {
    !(kind == SessionKind::EBgp && route.as_path.contains(own_as))
}

/// The candidates of an Adj-RIB-In for a prefix, in the order of its keys.
pub open spec fn learned(
    keys: Seq<(Chars, Chars)>,
    rib: Map<(Chars, Chars), RouteView>,
    prefix: Chars,
    own_as: u32,
    links: Seq<SessionView>,
) -> Seq<CandidateView>
    decreases keys.len(),
{
    if keys.len() == 0 {
        Seq::empty()
    } else {
        let before = learned(keys.drop_last(), rib, prefix, own_as, links);
        let k = keys.last();
        let sess = link(links, k.0)->0;
        if k.1 == prefix && usable(rib[k], sess.kind, own_as) {
            before.push(
                CandidateView {
                    node: sess.local,
                    ingress_session: Some(k.0),
                    route: with_first_as(rib[k], own_as),
                },
            )
        } else {
            before
        }
    }
}

/// The routes that a node may select for a prefix: its own, and what it has learned.
pub open spec fn eligible(
    node: RtNodeView,
    name: Chars,
    prefix: Chars,
    links: Seq<SessionView>,
) -> Seq<CandidateView> {
    let own = if node.origins.dom().contains(prefix) {
        seq![
            CandidateView {
                node: name,
                ingress_session: None,
                route: node.origins[prefix],
            },
        ]
    } else {
        Seq::empty()
    };
    own + learned(
        in_order::<(String, String)>(node.rib_in.dom()),
        node.rib_in,
        prefix,
        node.spec.asn,
        links,
    )
}

/// The value of a key, if it is there.
pub open spec fn lookup<K, V>(m: Map<K, V>, k: K) -> Option<V> {
    if m.dom().contains(k) {
        Some(m[k])
    } else {
        None
    }
}

/// The map in which a key has a value, or none.
pub open spec fn assigned<K, V>(m: Map<K, V>, k: K, v: Option<V>) -> Map<K, V> {
    match v {
        Some(x) => m.insert(k, x),
        None => m.remove(k),
    }
}

/// The best route that a node selects for a prefix.
pub open spec fn new_best(
    node: RtNodeView,
    name: Chars,
    prefix: Chars,
    links: Seq<SessionView>,
) -> Option<RouteView> {
    match selection(eligible(node, name, prefix, links)).1 {
        Some(w) => Some(w.route),
        None => None,
    }
}

/// The evidence of that selection.
pub open spec fn new_report(
    node: RtNodeView,
    name: Chars,
    prefix: Chars,
    links: Seq<SessionView>,
) -> SelectionReportView {
    selection(eligible(node, name, prefix, links)).0
}

/// The node once it has selected anew.
pub open spec fn reselected(
    node: RtNodeView,
    name: Chars,
    prefix: Chars,
    links: Seq<SessionView>,
) -> RtNodeView {
    RtNodeView {
        best: assigned(node.best, prefix, new_best(node, name, prefix, links)),
        equal_peer: assigned(
            node.equal_peer,
            prefix,
            new_report(node, name, prefix, links).equal_peer,
        ),
        ..node
    }
}

/// Whether selecting anew changes the best route.
pub open spec fn best_changes(
    node: RtNodeView,
    name: Chars,
    prefix: Chars,
    links: Seq<SessionView>,
) -> bool {
    lookup(node.best, prefix) != new_best(node, name, prefix, links)
}

/// Collects the routes that a node may select for a prefix.
pub fn candidates(rt: &RtNode, name: &str, prefix: &str, links: &Vec<Session>) -> (r: Vec<
    Candidate,
>)
    requires
        known_ingress(rt@, links.deep_view()),
    ensures
        r.deep_view() == eligible(rt@, name@, prefix@, links.deep_view()),
{
    let ghost views = links.deep_view();
    let ghost rib = rt.rib_in@;
    let ghost keys = in_order::<(String, String)>(rib.dom());
    let own_as = rt.spec.asn;
    let mut out: Vec<Candidate> = Vec::new();
    assert(out.deep_view() =~= Seq::empty());
    let key: String = prefix.to_owned();
    if let Some(route) = rt.origins.get(&key) {
        out.push(
            Candidate { node: name.to_owned(), ingress_session: None, route: route.copy() },
        );
        assert(out.deep_view() =~= seq![
            CandidateView {
                node: name@,
                ingress_session: None,
                route: rt.origins@[prefix@],
            },
        ]);
    }
    let ghost own = out.deep_view();
    let n = rt.rib_in.len();
    let mut i: usize = 0;
    assert(own + learned(keys.take(0), rib, prefix@, own_as, views) =~= own);
    while i < n
        invariant
            i <= n,
            n == keys.len(),
            views == links.deep_view(),
            rib == rt.rib_in@,
            keys == in_order::<(String, String)>(rib.dom()),
            own_as == rt.spec.asn,
            known_ingress(rt@, views),
            out.deep_view() == own + learned(keys.take(i as int), rib, prefix@, own_as, views),
        decreases n - i,
    {
        let ghost before = out.deep_view();
        let k = rt.rib_in.key_at(i);
        let route = rt.rib_in.value_at(i);
        proof {
            assert(keys.take(i + 1).last() == keys[i as int]);
            assert(keys.take(i + 1).drop_last() =~= keys.take(i as int));
            assert(k.deep_view() == (k.0@, k.1@));
            assert(rt@.rib_in.dom().contains(keys[i as int]));
            assert(route.as_path.deep_view() =~= route.as_path@);
        }
        if str_eq(k.1.as_str(), prefix) {
            if let Some(sess) = find_link(links, k.0.as_str()) {
                if !(sess.kind == SessionKind::EBgp && path_contains(&route.as_path, own_as)) {
                    let mut taken = route.copy();
                    if taken.first_as.is_none() {
                        taken.first_as = Some(
                            if route.as_path.len() > 0 {
                                route.as_path[0]
                            } else {
                                own_as
                            },
                        );
                    }
                    let c = Candidate {
                        node: sess.local.clone(),
                        ingress_session: Some(k.0.clone()),
                        route: taken,
                    };
                    assert(c@.route =~= with_first_as(route@, own_as));
                    out.push(c);
                    assert(out.deep_view() =~= before.push(c@));
                }
            }
        }
        assert(out.deep_view() =~= own + learned(keys.take(i + 1), rib, prefix@, own_as, views));
        i += 1;
    }
    assert(keys.take(i as int) =~= keys);
    assert(out.deep_view() =~= eligible(rt@, name@, prefix@, views));
    out
}

/// Recomputes the best route of a node for a prefix. Gives whether it changed, what it is
/// now and the evidence.
pub fn reevaluate(rt: &mut RtNode, name: &str, prefix: &str, links: &Vec<Session>) -> (r: (
    bool,
    Option<Route>,
    SelectionReport,
))
    requires
        known_ingress(old(rt)@, links.deep_view()),
    ensures
        final(rt)@ == reselected(old(rt)@, name@, prefix@, links.deep_view()),
        r.0 == best_changes(old(rt)@, name@, prefix@, links.deep_view()),
        r.1.deep_view() == new_best(old(rt)@, name@, prefix@, links.deep_view()),
        r.2@ == new_report(old(rt)@, name@, prefix@, links.deep_view()),
{
    let ghost before = rt@;
    let all = candidates(rt, name, prefix, links);
    let (report, winner) = pick(&all);
    let best: Option<Route> = match winner {
        Some(i) => Some(all[i].route.copy()),
        None => None,
    };
    let key: String = prefix.to_owned();
    let old_best: Option<Route> = match rt.best.get(&key) {
        Some(route) => Some(route.copy()),
        None => None,
    };
    let changed = !old_best.same(&best);
    match &best {
        Some(route) => {
            rt.best.insert(prefix.to_owned(), route.copy());
        },
        None => {
            rt.best.remove(&key);
        },
    }
    match &report.equal_peer {
        Some(peer) => {
            rt.equal_peer.insert(prefix.to_owned(), peer.clone());
        },
        None => {
            rt.equal_peer.remove(&key);
        },
    }
    assert(rt@ =~= reselected(before, name@, prefix@, links.deep_view()));
    (changed, best, report)
}

// ---------- laws ----------

proof fn lemma_learned(
    keys: Seq<(Chars, Chars)>,
    rib: Map<(Chars, Chars), RouteView>,
    prefix: Chars,
    own_as: u32,
    links: Seq<SessionView>,
    c: CandidateView,
)
    requires
        learned(keys, rib, prefix, own_as, links).contains(c),
    ensures
        c.ingress_session is Some,
        keys.contains((c.ingress_session->0, prefix)),
        c.node == (link(links, c.ingress_session->0)->0).local,
        c.route == with_first_as(rib[(c.ingress_session->0, prefix)], own_as),
        usable(
            rib[(c.ingress_session->0, prefix)],
            (link(links, c.ingress_session->0)->0).kind,
            own_as,
        ),
    decreases keys.len(),
{
    let all = learned(keys, rib, prefix, own_as, links);
    let i = choose|i: int| 0 <= i < all.len() && all[i] == c;
    if keys.len() > 0 {
        let init = keys.drop_last();
        let before = learned(init, rib, prefix, own_as, links);
        if i < before.len() {
            assert(before[i] == c);
            assert(before.contains(c));
            lemma_learned(init, rib, prefix, own_as, links, c);
            let k = (c.ingress_session->0, prefix);
            let j = choose|j: int| 0 <= j < init.len() && init[j] == k;
            assert(keys[j] == k);
        } else {
            assert(keys[keys.len() - 1] == keys.last());
        }
    }
}

/// The best route of a node is one that it originates, or one of its Adj-RIB-In. A route
/// that was learned over eBGP is never selected if its AS_PATH contains the local AS.
pub proof fn law_selected_route_is_loop_free(
    node: RtNodeView,
    name: Chars,
    prefix: Chars,
    links: Seq<SessionView>,
)
    requires
        node.rib_in.dom().finite(),
    ensures
        selection(eligible(node, name, prefix, links)).1 matches Some(w) ==> match
            w.ingress_session {
            None => node.origins.dom().contains(prefix) && w.route == node.origins[prefix],
            Some(sid) => {
                &&& node.rib_in.dom().contains((sid, prefix))
                &&& w.route == with_first_as(node.rib_in[(sid, prefix)], node.spec.asn)
                &&& (link(links, sid)->0).kind == SessionKind::EBgp ==> !w.route.as_path.contains(
                    node.spec.asn,
                )
            },
        },
{
    let pool = eligible(node, name, prefix, links);
    crate::bestpath::law_winner_is_a_candidate(pool);
    if let Some(w) = selection(pool).1 {
        let keys = in_order::<(String, String)>(node.rib_in.dom());
        crate::ordmap::lemma_in_order_exists::<(String, String)>(node.rib_in.dom());
        let more = learned(keys, node.rib_in, prefix, node.spec.asn, links);
        let i = choose|i: int| 0 <= i < pool.len() && pool[i] == w;
        if i >= pool.len() - more.len() {
            assert(more[i - (pool.len() - more.len())] == w);
            assert(more.contains(w));
            lemma_learned(keys, node.rib_in, prefix, node.spec.asn, links, w);
            assert(keys.to_set().contains((w.ingress_session->0, prefix)));
        }
    }
}

/// Selecting anew touches nothing but the best route and the equal peer of one prefix.
pub proof fn law_selection_is_local(
    node: RtNodeView,
    name: Chars,
    prefix: Chars,
    links: Seq<SessionView>,
    other: Chars,
)
    requires
        other != prefix,
    ensures
        ({
            let after = reselected(node, name, prefix, links);
            &&& lookup(after.best, other) == lookup(node.best, other)
            &&& lookup(after.equal_peer, other) == lookup(node.equal_peer, other)
            &&& after.rib_in == node.rib_in
            &&& after.origins == node.origins
            &&& after.advertised == node.advertised
        }),
{
}

/// A node that neither originates a prefix nor has learned it has no best route for it.
pub proof fn law_nothing_known_nothing_selected(
    node: RtNodeView,
    name: Chars,
    prefix: Chars,
    links: Seq<SessionView>,
)
    requires
        node.rib_in.dom().finite(),
        !node.origins.dom().contains(prefix),
        forall|sid: Chars| !#[trigger] node.rib_in.dom().contains((sid, prefix)),
    ensures
        new_best(node, name, prefix, links) is None,
        !reselected(node, name, prefix, links).best.dom().contains(prefix),
{
    law_selected_route_is_loop_free(node, name, prefix, links);
    if let Some(w) = selection(eligible(node, name, prefix, links)).1 {
        if let Some(sid) = w.ingress_session {
            assert(node.rib_in.dom().contains((sid, prefix)));
        }
    }
}

/// A session is found by its id: the last one that has it, if there is one.
pub proof fn law_last_session_of_an_id_counts(links: Seq<SessionView>, id: Chars)
    ensures
        link(links, id) is None <==> forall|i: int|
            0 <= i < links.len() ==> (#[trigger] links[i]).id != id,
        link(links, id) matches Some(s) ==> s.id == id && exists|i: int|
            0 <= i < links.len() && (#[trigger] links[i]) == s && (forall|k: int|
                i < k < links.len() ==> (#[trigger] links[k]).id != id),
    decreases links.len(),
{
    if links.len() > 0 {
        let init = links.drop_last();
        law_last_session_of_an_id_counts(init, id);
        assert(links[links.len() - 1] == links.last());
        if links.last().id != id {
            if let Some(s) = link(init, id) {
                let i = choose|i: int|
                    0 <= i < init.len() && (#[trigger] init[i]) == s && (forall|k: int|
                        i < k < init.len() ==> (#[trigger] init[k]).id != id);
                assert(links[i] == s);
                assert forall|k: int| i < k < links.len() implies (#[trigger] links[k]).id
                    != id by {
                    if k < init.len() {
                        assert(init[k].id != id);
                    }
                }
            } else {
                assert forall|k: int| 0 <= k < links.len() implies (#[trigger] links[k]).id
                    != id by {
                    if k < init.len() {
                        assert(init[k].id != id);
                    }
                }
            }
        }
    }
}

} // verus!
