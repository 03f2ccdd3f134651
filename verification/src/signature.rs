//! The signature of a global state. It folds:
//! * every node's up flag, best routes, equal-best peers and Adj-RIB-In;
//! * every node's last advertisement marker per session and prefix;
//! * the pending queue in a form without sequence numbers, its ticks relative to the
//!   earliest queued event, so that an identical routing state with an identical relative
//!   schedule has the same signature at a later absolute tick.

use crate::fingerprint::{fingerprint, fingerprint_hex};
use crate::json::{json_text, write_json, ToJson};
use crate::model::{Route, RouteView};
use crate::ordmap::{in_order, OrdMap};
use crate::queue::{Scheduled, ScheduledView};
use crate::rib::{RtNode, RtNodeView};
use crate::text::{
    bool_name, bool_str, decimal, join, join_strs, sort_strs, sorted, u64_text, Chars,
};
use crate::value::Value;
use vstd::prelude::*;

verus! {

/// A route as text, whatever the order of its communities.
pub open spec fn route_text(r: RouteView) -> Chars {
    json_text(Route::json(RouteView { communities: sorted(r.communities), ..r }))
}

/// Writes a route as text, whatever the order of its communities.
pub fn canon_route(r: &Route) -> (s: String)
    ensures
        s@ == route_text(r@),
{
    let copy = r.copy();
    let ghost sent = RouteView { communities: sorted(r@.communities), ..r@ };
    let route = Route { communities: sort_strs(copy.communities), ..copy };
    assert(route@ =~= sent);
    write_json(&route.to_json())
}

// ---------- nodes ----------

/// The best routes of a node.
pub open spec fn best_text(keys: Seq<Chars>, best: Map<Chars, RouteView>) -> Chars
    decreases keys.len(),
{
    if keys.len() == 0 {
        Seq::empty()
    } else {
        best_text(keys.drop_last(), best) + "|best:"@ + keys.last() + "="@ + route_text(
            best[keys.last()],
        )
    }
}

/// The equal-best peers of a node.
pub open spec fn equal_text(keys: Seq<Chars>, peers: Map<Chars, Chars>) -> Chars
    decreases keys.len(),
{
    if keys.len() == 0 {
        Seq::empty()
    } else {
        equal_text(keys.drop_last(), peers) + "|eq:"@ + keys.last() + "="@ + peers[keys.last()]
    }
}

/// The entries of an Adj-RIB-In.
pub open spec fn rib_entries(
    keys: Seq<(Chars, Chars)>,
    rib: Map<(Chars, Chars), RouteView>,
) -> Seq<Chars> {
    keys.map_values(|k: (Chars, Chars)| k.0 + "/"@ + k.1 + "="@ + route_text(rib[k]))
}

/// The advertisement markers of a node.
pub open spec fn marker_entries(
    keys: Seq<(Chars, Chars)>,
    advertised: Map<(Chars, Chars), Option<RouteView>>,
) -> Seq<Chars> {
    keys.map_values(
        |k: (Chars, Chars)|
            k.0 + "/"@ + k.1 + "="@ + if advertised[k] is Some {
                "adv"@
            } else {
                "wd"@
            },
    )
}

/// Entries one after another, each behind a label.
pub open spec fn labelled(label: Chars, entries: Seq<Chars>) -> Chars
    decreases entries.len(),
{
    if entries.len() == 0 {
        Seq::empty()
    } else {
        labelled(label, entries.drop_last()) + label + entries.last()
    }
}

/// The part of a node in a signature.
pub open spec fn node_text(name: Chars, node: RtNodeView) -> Chars {
    "node="@ + name + ";up="@ + bool_name(node.up) + best_text(
        in_order::<String>(node.best.dom()),
        node.best,
    ) + equal_text(in_order::<String>(node.equal_peer.dom()), node.equal_peer) + labelled(
        "|in:"@,
        sorted(rib_entries(in_order::<(String, String)>(node.rib_in.dom()), node.rib_in)),
    ) + labelled(
        "|out:"@,
        sorted(
            marker_entries(
                in_order::<(String, String)>(node.advertised.dom()),
                node.advertised,
            ),
        ),
    )
}

fn write_best(best: &OrdMap<String, Route>) -> (r: String)
    ensures
        r@ == best_text(in_order::<String>(best@.dom()), best@),
{
    let ghost keys = in_order::<String>(best@.dom());
    let n = best.len();
    let mut out = String::new();
    let mut i: usize = 0;
    while i < n
        invariant
            i <= n,
            n == keys.len(),
            keys == in_order::<String>(best@.dom()),
            out@ == best_text(keys.take(i as int), best@),
        decreases n - i,
    {
        assert(keys.take(i + 1).drop_last() =~= keys.take(i as int));
        out.append("|best:");
        out.append(best.key_at(i).as_str());
        out.append("=");
        out.append(canon_route(best.value_at(i)).as_str());
        i += 1;
    }
    assert(keys.take(i as int) =~= keys);
    out
}

fn write_equal(peers: &OrdMap<String, String>) -> (r: String)
    ensures
        r@ == equal_text(in_order::<String>(peers@.dom()), peers@),
{
    let ghost keys = in_order::<String>(peers@.dom());
    let n = peers.len();
    let mut out = String::new();
    let mut i: usize = 0;
    while i < n
        invariant
            i <= n,
            n == keys.len(),
            keys == in_order::<String>(peers@.dom()),
            out@ == equal_text(keys.take(i as int), peers@),
        decreases n - i,
    {
        assert(keys.take(i + 1).drop_last() =~= keys.take(i as int));
        out.append("|eq:");
        out.append(peers.key_at(i).as_str());
        out.append("=");
        out.append(peers.value_at(i).as_str());
        i += 1;
    }
    assert(keys.take(i as int) =~= keys);
    out
}

fn list_rib(rib: &OrdMap<(String, String), Route>) -> (r: Vec<String>)
    ensures
        r.deep_view() == rib_entries(in_order::<(String, String)>(rib@.dom()), rib@),
{
    let ghost keys = in_order::<(String, String)>(rib@.dom());
    let n = rib.len();
    let mut out: Vec<String> = Vec::new();
    let mut i: usize = 0;
    while i < n
        invariant
            i <= n,
            n == keys.len(),
            keys == in_order::<(String, String)>(rib@.dom()),
            out@.len() == i,
            forall|k: int| 0 <= k < i ==> (#[trigger] out@[k])@ == rib_entries(keys, rib@)[k],
        decreases n - i,
    {
        let k = rib.key_at(i);
        assert(k.deep_view() == (k.0@, k.1@));
        out.push(
            k.0.clone().concat("/").concat(k.1.as_str()).concat("=").concat(
                canon_route(rib.value_at(i)).as_str(),
            ),
        );
        i += 1;
    }
    assert(out.deep_view() =~= rib_entries(keys, rib@));
    out
}

fn list_markers(advertised: &OrdMap<(String, String), Option<Route>>) -> (r: Vec<String>)
    ensures
        r.deep_view() == marker_entries(
            in_order::<(String, String)>(advertised@.dom()),
            advertised@,
        ),
{
    let ghost keys = in_order::<(String, String)>(advertised@.dom());
    let n = advertised.len();
    let mut out: Vec<String> = Vec::new();
    let mut i: usize = 0;
    while i < n
        invariant
            i <= n,
            n == keys.len(),
            keys == in_order::<(String, String)>(advertised@.dom()),
            out@.len() == i,
            forall|k: int|
                0 <= k < i ==> (#[trigger] out@[k])@ == marker_entries(keys, advertised@)[k],
        decreases n - i,
    {
        let k = advertised.key_at(i);
        assert(k.deep_view() == (k.0@, k.1@));
        let marker = if advertised.value_at(i).is_some() {
            "adv"
        } else {
            "wd"
        };
        out.push(k.0.clone().concat("/").concat(k.1.as_str()).concat("=").concat(marker));
        i += 1;
    }
    assert(out.deep_view() =~= marker_entries(keys, advertised@));
    out
}

fn write_labelled(label: &str, entries: &Vec<String>) -> (r: String)
    ensures
        r@ == labelled(label@, entries.deep_view()),
{
    let ghost all = entries.deep_view();
    let mut out = String::new();
    let mut i: usize = 0;
    while i < entries.len()
        invariant
            i <= entries@.len(),
            all == entries.deep_view(),
            out@ == labelled(label@, all.take(i as int)),
        decreases entries.len() - i,
    {
        assert(all.take(i + 1).drop_last() =~= all.take(i as int));
        out.append(label);
        out.append(entries[i].as_str());
        i += 1;
    }
    assert(all.take(i as int) =~= all);
    out
}

fn write_node(name: &str, node: &RtNode) -> (r: String)
    ensures
        r@ == node_text(name@, node@),
{
    "node=".to_owned().concat(name).concat(";up=").concat(bool_str(node.up)).concat(
        write_best(&node.best).as_str(),
    ).concat(write_equal(&node.equal_peer).as_str()).concat(
        write_labelled("|in:", &sort_strs(list_rib(&node.rib_in))).as_str(),
    ).concat(write_labelled("|out:", &sort_strs(list_markers(&node.advertised))).as_str())
}

// ---------- queue ----------

/// The lowest tick of a queue.
pub open spec fn base_tick(queue: Seq<ScheduledView>) -> u64 {
    queue[crate::queue::due(queue)].tick
}

/// The text of an optional name; a missing one is empty.
pub open spec fn optional_text(s: Option<Chars>) -> Chars {
    match s {
        Some(t) => t,
        None => Seq::empty(),
    }
}

/// A queued message as text, its tick relative to another.
pub open spec fn message_text(m: ScheduledView, base: u64) -> Chars {
    decimal(m.tick - base) + ":"@ + decimal(m.kind.order() as int) + ":"@ + m.node + ":"@
        + optional_text(m.session) + ":"@ + optional_text(m.prefix) + ":"@ + (match m.route {
        Some(r) => route_text(r),
        None => Seq::empty(),
    })
}

/// The part of the queue in a signature.
pub open spec fn queue_text(queue: Seq<ScheduledView>) -> Chars {
    "queue="@ + join(
        sorted(queue.map_values(|m: ScheduledView| message_text(m, base_tick(queue)))),
        ";"@,
    )
}

fn optional_or_empty(s: &Option<String>) -> (r: String)
    ensures
        r@ == optional_text(s.deep_view()),
{
    match s {
        Some(t) => t.clone(),
        None => {
            let r = String::new();
            assert(r@ =~= Seq::empty());
            r
        },
    }
}

fn write_message(m: &Scheduled, base: u64) -> (r: String)
    requires
        base <= m.tick,
    ensures
        r@ == message_text(m@, base),
{
    let route = match &m.route {
        Some(route) => canon_route(route),
        None => {
            let none = String::new();
            assert(none@ =~= Seq::empty());
            none
        },
    };
    u64_text(m.tick - base).concat(":").concat(
        u64_text(m.kind.order_key_kind() as u64).as_str(),
    ).concat(":").concat(m.node.as_str()).concat(":").concat(
        optional_or_empty(&m.session).as_str(),
    ).concat(":").concat(optional_or_empty(&m.prefix).as_str()).concat(":").concat(route.as_str())
}

fn write_queue(queue: &Vec<Scheduled>) -> (r: String)
    requires
        queue@.len() > 0,
    ensures
        r@ == queue_text(queue.deep_view()),
{
    let ghost views = queue.deep_view();
    let mut base: u64 = queue[0].tick;
    let mut i: usize = 0;
    let ghost mut low: int = 0;
    while i < queue.len()
        invariant
            i <= queue@.len(),
            views == queue.deep_view(),
            0 <= low < queue@.len(),
            base == queue@[low].tick,
            forall|k: int| 0 <= k < i ==> base <= (#[trigger] queue@[k]).tick,
        decreases queue.len() - i,
    {
        if queue[i].tick < base {
            base = queue[i].tick;
            proof {
                low = i as int;
            }
        }
        i += 1;
    }
    proof {
        crate::queue::law_due_is_earliest(views);
        let d = crate::queue::due(views);
        assert(views[d].tick <= views[low].tick);
        assert(views[d] == queue@[d]@ && views[low] == queue@[low]@);
        assert(base <= queue@[d].tick);
        assert(base == base_tick(views));
    }
    let mut parts: Vec<String> = Vec::new();
    let mut i: usize = 0;
    while i < queue.len()
        invariant
            i <= queue@.len(),
            views == queue.deep_view(),
            base == base_tick(views),
            forall|k: int| 0 <= k < queue@.len() ==> base <= (#[trigger] queue@[k]).tick,
            parts@.len() == i,
            forall|k: int| 0 <= k < i ==> (#[trigger] parts@[k])@ == message_text(views[k], base),
        decreases queue.len() - i,
    {
        parts.push(write_message(&queue[i], base));
        i += 1;
    }
    assert(parts.deep_view() =~= views.map_values(
        |m: ScheduledView| message_text(m, base_tick(views)),
    ));
    "queue=".to_owned().concat(join_strs(&sort_strs(parts), ";").as_str())
}

// ---------- whole state ----------

/// The parts of a signature: one per node in the order of their ids, and the queue where
/// it is not empty.
pub open spec fn state_parts(
    nodes: Map<Chars, RtNodeView>,
    queue: Seq<ScheduledView>,
) -> Seq<Chars> {
    let parts = in_order::<String>(nodes.dom()).map_values(
        |name: Chars| node_text(name, nodes[name]),
    );
    if queue.len() > 0 {
        parts.push(queue_text(queue))
    } else {
        parts
    }
}

/// The signature of a global state.
pub open spec fn signature(nodes: Map<Chars, RtNodeView>, queue: Seq<ScheduledView>) -> Chars {
    fingerprint(Vec::<String>::json(state_parts(nodes, queue)))
}

/// Computes the signature of a global state.
pub fn state_signature(nodes: &OrdMap<String, RtNode>, queue: &Vec<Scheduled>) -> (r: String)
    ensures
        r@ == signature(nodes@, queue.deep_view()),
{
    let ghost keys = in_order::<String>(nodes@.dom());
    let ghost all = keys.map_values(|name: Chars| node_text(name, nodes@[name]));
    let n = nodes.len();
    let mut parts: Vec<String> = Vec::new();
    let mut i: usize = 0;
    while i < n
        invariant
            i <= n,
            n == keys.len(),
            keys == in_order::<String>(nodes@.dom()),
            all == keys.map_values(|name: Chars| node_text(name, nodes@[name])),
            parts@.len() == i,
            forall|k: int| 0 <= k < i ==> (#[trigger] parts@[k])@ == all[k],
        decreases n - i,
    {
        parts.push(write_node(nodes.key_at(i).as_str(), nodes.value_at(i)));
        i += 1;
    }
    assert(parts.deep_view() =~= all);
    if queue.len() > 0 {
        let part = write_queue(queue);
        parts.push(part);
        assert(parts.deep_view() =~= all.push(part@));
    }
    fingerprint_hex(&parts)
}

// ---------- laws ----------

proof fn lemma_sorted_reordered(a: Seq<Chars>, b: Seq<Chars>)
    requires
        a.to_multiset() == b.to_multiset(),
    ensures
        sorted(a) == sorted(b),
{
    crate::text::lemma_str_order_total();
    a.lemma_sort_by_ensures(crate::text::str_order());
    b.lemma_sort_by_ensures(crate::text::str_order());
    vstd::seq_lib::lemma_sorted_unique(sorted(a), sorted(b), crate::text::str_order());
}

/// The order of the communities of a route does not count.
pub proof fn law_community_order_does_not_count(a: RouteView, b: RouteView)
    requires
        a.communities.to_multiset() == b.communities.to_multiset(),
        a == (RouteView { communities: a.communities, ..b }),
    ensures
        route_text(a) == route_text(b),
{
    lemma_sorted_reordered(a.communities, b.communities);
}

proof fn lemma_map_multiset<A, B>(a: Seq<A>, b: Seq<A>, f: spec_fn(A) -> B)
    requires
        a.to_multiset() == b.to_multiset(),
    ensures
        a.map_values(f).to_multiset() == b.map_values(f).to_multiset(),
    decreases a.len(),
{
    broadcast use vstd::seq_lib::group_to_multiset_ensures;

    assert(a.len() == a.to_multiset().len());
    assert(b.len() == b.to_multiset().len());
    if a.len() == 0 {
        assert(a.map_values(f) =~= b.map_values(f));
    } else {
        let x = a.last();
        assert(a.contains(x));
        assert(b.to_multiset().count(x) > 0);
        assert(b.contains(x));
        let j = choose|j: int| 0 <= j < b.len() && b[j] == x;
        let a1 = a.drop_last();
        let b1 = b.remove(j);
        assert(a =~= a1.push(x));
        vstd::seq_lib::to_multiset_build(a1, x);
        vstd::seq_lib::to_multiset_remove(b, j);
        assert(a1.to_multiset() =~= b1.to_multiset());
        lemma_map_multiset(a1, b1, f);
        assert(a.map_values(f) =~= a1.map_values(f).push(f(x)));
        vstd::seq_lib::to_multiset_build(a1.map_values(f), f(x));
        assert(b.map_values(f).remove(j) =~= b1.map_values(f));
        vstd::seq_lib::to_multiset_remove(b.map_values(f), j);
        assert(b.map_values(f)[j] == f(x));
        assert(b.map_values(f).contains(f(x)));
        assert(a.map_values(f).to_multiset() =~= b.map_values(f).to_multiset());
    }
}

proof fn lemma_base_reordered(a: Seq<ScheduledView>, b: Seq<ScheduledView>)
    requires
        a.to_multiset() == b.to_multiset(),
        a.len() > 0,
        b.len() > 0,
    ensures
        base_tick(a) >= base_tick(b),
{
    broadcast use vstd::seq_lib::group_to_multiset_ensures;

    crate::queue::law_due_is_earliest(a);
    crate::queue::law_due_is_earliest(b);
    let m = a[crate::queue::due(a)];
    assert(a.contains(m));
    assert(b.to_multiset().count(m) > 0);
    assert(b.contains(m));
    let j = choose|j: int| 0 <= j < b.len() && b[j] == m;
    assert(base_tick(b) <= b[j].tick);
}

/// The order in which messages were queued does not count in a signature.
pub proof fn law_queue_order_does_not_count(
    nodes: Map<Chars, RtNodeView>,
    a: Seq<ScheduledView>,
    b: Seq<ScheduledView>,
)
    requires
        a.to_multiset() == b.to_multiset(),
    ensures
        signature(nodes, a) == signature(nodes, b),
{
    broadcast use vstd::seq_lib::group_to_multiset_ensures;

    assert(a.len() == a.to_multiset().len());
    assert(b.len() == b.to_multiset().len());
    if a.len() > 0 {
        lemma_base_reordered(a, b);
        lemma_base_reordered(b, a);
        let f = |m: ScheduledView| message_text(m, base_tick(a));
        assert(b.map_values(|m: ScheduledView| message_text(m, base_tick(b))) =~= b.map_values(f));
        lemma_map_multiset(a, b, f);
        lemma_sorted_reordered(a.map_values(f), b.map_values(f));
    }
}

/// A queue whose messages are all due some ticks later.
pub open spec fn delayed(queue: Seq<ScheduledView>, ticks: u64) -> Seq<ScheduledView> {
    queue.map_values(
        |m: ScheduledView| ScheduledView { tick: (m.tick + ticks) as u64, ..m },
    )
}

/// Absolute ticks do not count in a signature: the same state with the same relative
/// schedule has the same signature at a later time.
pub proof fn law_absolute_ticks_do_not_count(
    nodes: Map<Chars, RtNodeView>,
    queue: Seq<ScheduledView>,
    ticks: u64,
)
    requires
        forall|k: int| 0 <= k < queue.len() ==> (#[trigger] queue[k]).tick + ticks <= u64::MAX,
    ensures
        signature(nodes, delayed(queue, ticks)) == signature(nodes, queue),
{
    let later = delayed(queue, ticks);
    if queue.len() > 0 {
        crate::queue::law_due_is_earliest(queue);
        crate::queue::law_due_is_earliest(later);
        let d = crate::queue::due(queue);
        let e = crate::queue::due(later);
        assert(queue[d].tick <= queue[e].tick);
        assert(later[e].tick <= later[d].tick);
        assert(base_tick(later) == base_tick(queue) + ticks);
        let f = |m: ScheduledView| message_text(m, base_tick(queue));
        let g = |m: ScheduledView| message_text(m, base_tick(later));
        assert forall|k: int| 0 <= k < queue.len() implies g(#[trigger] later[k]) == f(
            queue[k],
        ) by {
            let tick = (queue[k].tick + ticks) as u64;
            assert(later[k] == (ScheduledView { tick, ..queue[k] }));
            assert(later[k].tick - base_tick(later) == queue[k].tick - base_tick(queue));
        }
        assert(later.map_values(g) =~= queue.map_values(f));
    }
}

// ---------- what a signature covers ----------

/// Whether a text stands in another.
pub open spec fn within(part: Chars, text: Chars) -> bool {
    exists|i: int|
        #![trigger text.skip(i)]
        0 <= i && i + part.len() <= text.len() && text.skip(i).take(part.len() as int) == part
}

proof fn lemma_within(part: Chars, a: Chars, x: Chars, b: Chars)
    requires
        within(part, x),
    ensures
        within(part, a + x + b),
{
    let text = a + x + b;
    let i = choose|i: int|
        #![trigger x.skip(i)]
        0 <= i && i + part.len() <= x.len() && x.skip(i).take(part.len() as int) == part;
    let j = a.len() + i;
    assert(text.skip(j).take(part.len() as int) =~= x.skip(i).take(part.len() as int));
}

pub proof fn lemma_within_self(part: Chars)
    ensures
        within(part, part),
{
    assert(part.skip(0).take(part.len() as int) =~= part);
}

proof fn lemma_regroup(base: Chars, a: Chars, b: Chars, c: Chars, d: Chars)
    ensures
        base + a + b + c + d == base + (a + b + c + d),
{
    assert(base + a + b + c + d =~= base + (a + b + c + d));
}

pub proof fn lemma_within_ends(part: Chars, a: Chars, b: Chars)
    ensures
        within(part, a) ==> within(part, a + b),
        within(part, b) ==> within(part, a + b),
{
    if within(part, a) {
        lemma_within(part, Seq::empty(), a, b);
        assert(Seq::<char>::empty() + a + b =~= a + b);
    }
    if within(part, b) {
        lemma_within(part, a, b, Seq::empty());
        assert(a + b + Seq::<char>::empty() =~= a + b);
    }
}

proof fn lemma_best_within(keys: Seq<Chars>, best: Map<Chars, RouteView>, p: Chars)
    requires
        keys.contains(p),
    ensures
        within("|best:"@ + p + "="@ + route_text(best[p]), best_text(keys, best)),
    decreases keys.len(),
{
    let init = keys.drop_last();
    let last = keys.last();
    let part = "|best:"@ + p + "="@ + route_text(best[p]);
    let tail = "|best:"@ + last + "="@ + route_text(best[last]);
    lemma_regroup(best_text(init, best), "|best:"@, last, "="@, route_text(best[last]));
    lemma_within_ends(part, best_text(init, best), tail);
    if last == p {
        lemma_within_self(part);
    } else {
        let i = choose|i: int| 0 <= i < keys.len() && keys[i] == p;
        assert(init[i] == p);
        lemma_best_within(init, best, p);
    }
}

proof fn lemma_equal_within(keys: Seq<Chars>, peers: Map<Chars, Chars>, p: Chars)
    requires
        keys.contains(p),
    ensures
        within("|eq:"@ + p + "="@ + peers[p], equal_text(keys, peers)),
    decreases keys.len(),
{
    let init = keys.drop_last();
    let last = keys.last();
    let part = "|eq:"@ + p + "="@ + peers[p];
    let tail = "|eq:"@ + last + "="@ + peers[last];
    lemma_regroup(equal_text(init, peers), "|eq:"@, last, "="@, peers[last]);
    lemma_within_ends(part, equal_text(init, peers), tail);
    if last == p {
        lemma_within_self(part);
    } else {
        let i = choose|i: int| 0 <= i < keys.len() && keys[i] == p;
        assert(init[i] == p);
        lemma_equal_within(init, peers, p);
    }
}

proof fn lemma_labelled_within(label: Chars, entries: Seq<Chars>, e: Chars)
    requires
        entries.contains(e),
    ensures
        within(label + e, labelled(label, entries)),
    decreases entries.len(),
{
    let init = entries.drop_last();
    let last = entries.last();
    if last == e {
        lemma_within_self(label + e);
        lemma_within(label + e, labelled(label, init), label + e, Seq::empty());
        assert(labelled(label, entries) =~= labelled(label, init) + (label + e)
            + Seq::<char>::empty());
    } else {
        let i = choose|i: int| 0 <= i < entries.len() && entries[i] == e;
        assert(init[i] == e);
        lemma_labelled_within(label, init, e);
        lemma_within(label + e, Seq::empty(), labelled(label, init), label + last);
        assert(labelled(label, entries) =~= Seq::<char>::empty() + labelled(label, init) + (label
            + last));
    }
}

proof fn lemma_sorted_has(list: Seq<Chars>, x: Chars)
    requires
        list.contains(x),
    ensures
        sorted(list).contains(x),
{
    broadcast use vstd::seq_lib::group_to_multiset_ensures;

    crate::text::law_sorting_orders_all(list);
    assert(list.to_multiset().count(x) > 0);
    assert(sorted(list).to_multiset().count(x) > 0);
}

proof fn lemma_join_within(parts: Seq<Chars>, sep: Chars, x: Chars)
    requires
        parts.contains(x),
    ensures
        within(x, join(parts, sep)),
    decreases parts.len(),
{
    let init = parts.drop_last();
    let last = parts.last();
    if parts.len() == 1 {
        lemma_within_self(x);
    } else if last == x {
        lemma_within_self(x);
        lemma_within(x, join(init, sep) + sep, x, Seq::empty());
        assert(join(parts, sep) =~= (join(init, sep) + sep) + x + Seq::<char>::empty());
    } else {
        let i = choose|i: int| 0 <= i < parts.len() && parts[i] == x;
        assert(init[i] == x);
        lemma_join_within(init, sep, x);
        lemma_within(x, Seq::empty(), join(init, sep), sep + last);
        assert(join(parts, sep) =~= Seq::<char>::empty() + join(init, sep) + (sep + last));
    }
}

/// What is signed of a node names it and says whether it is up; and it holds every best route,
/// every equal peer, every entry of the Adj-RIB-In and every advertisement marker, each with
/// what it is filed under.
pub proof fn law_node_is_signed_whole(
    name: Chars,
    node: RtNodeView,
    prefix: Chars,
    k: (Chars, Chars),
)
    requires
        node.best.dom().finite(),
        node.equal_peer.dom().finite(),
        node.rib_in.dom().finite(),
        node.advertised.dom().finite(),
    ensures
        ({
            let text = node_text(name, node);
            let up = if node.up { "true"@ } else { "false"@ };
            &&& text.take(("node="@ + name + ";up="@ + up).len() as int) == "node="@ + name
                + ";up="@ + up
            &&& node.best.dom().contains(prefix) ==> within(
                "|best:"@ + prefix + "="@ + route_text(node.best[prefix]),
                text,
            )
            &&& node.equal_peer.dom().contains(prefix) ==> within(
                "|eq:"@ + prefix + "="@ + node.equal_peer[prefix],
                text,
            )
            &&& node.rib_in.dom().contains(k) ==> within(
                "|in:"@ + (k.0 + "/"@ + k.1 + "="@ + route_text(node.rib_in[k])),
                text,
            )
            &&& node.advertised.dom().contains(k) ==> within(
                "|out:"@ + (k.0 + "/"@ + k.1 + "="@ + (if node.advertised[k] is Some {
                    "adv"@
                } else {
                    "wd"@
                })),
                text,
            )
        }),
{
    let up = if node.up { "true"@ } else { "false"@ };
    let head = "node="@ + name + ";up="@ + up;
    let bests = in_order::<String>(node.best.dom());
    let peers = in_order::<String>(node.equal_peer.dom());
    let ribs = in_order::<(String, String)>(node.rib_in.dom());
    let outs = in_order::<(String, String)>(node.advertised.dom());
    crate::ordmap::lemma_in_order_exists::<String>(node.best.dom());
    crate::ordmap::lemma_in_order_exists::<String>(node.equal_peer.dom());
    crate::ordmap::lemma_in_order_exists::<(String, String)>(node.rib_in.dom());
    crate::ordmap::lemma_in_order_exists::<(String, String)>(node.advertised.dom());
    let a = best_text(bests, node.best);
    let b = equal_text(peers, node.equal_peer);
    let c = labelled("|in:"@, sorted(rib_entries(ribs, node.rib_in)));
    let d = labelled("|out:"@, sorted(marker_entries(outs, node.advertised)));
    let text = node_text(name, node);
    assert(text == head + a + b + c + d);
    assert(text.take(head.len() as int) =~= head);
    if node.best.dom().contains(prefix) {
        assert(bests.to_set().contains(prefix));
        let part = "|best:"@ + prefix + "="@ + route_text(node.best[prefix]);
        lemma_best_within(bests, node.best, prefix);
        lemma_within(part, head, a, b + c + d);
        assert(text =~= head + a + (b + c + d));
    }
    if node.equal_peer.dom().contains(prefix) {
        assert(peers.to_set().contains(prefix));
        let part = "|eq:"@ + prefix + "="@ + node.equal_peer[prefix];
        lemma_equal_within(peers, node.equal_peer, prefix);
        lemma_within(part, head + a, b, c + d);
        assert(text =~= (head + a) + b + (c + d));
    }
    if node.rib_in.dom().contains(k) {
        assert(ribs.to_set().contains(k));
        let i = choose|i: int| 0 <= i < ribs.len() && ribs[i] == k;
        let e = k.0 + "/"@ + k.1 + "="@ + route_text(node.rib_in[k]);
        let entries = rib_entries(ribs, node.rib_in);
        assert(entries[i] == e);
        lemma_sorted_has(entries, e);
        lemma_labelled_within("|in:"@, sorted(entries), e);
        lemma_within("|in:"@ + e, head + a + b, c, d);
        assert(text =~= (head + a + b) + c + d);
    }
    if node.advertised.dom().contains(k) {
        assert(outs.to_set().contains(k));
        let i = choose|i: int| 0 <= i < outs.len() && outs[i] == k;
        let e = k.0 + "/"@ + k.1 + "="@ + (if node.advertised[k] is Some {
            "adv"@
        } else {
            "wd"@
        });
        let entries = marker_entries(outs, node.advertised);
        assert(entries[i] == e);
        lemma_sorted_has(entries, e);
        lemma_labelled_within("|out:"@, sorted(entries), e);
        lemma_within("|out:"@ + e, head + a + b + c, d, Seq::empty());
        assert(text =~= (head + a + b + c) + d + Seq::<char>::empty());
    }
}

/// A state is signed by all its nodes, in the order of their ids, and by every message that is
/// queued, its tick counted from the earliest one.
pub proof fn law_state_is_signed_whole(
    nodes: Map<Chars, RtNodeView>,
    queue: Seq<ScheduledView>,
    name: Chars,
    i: int,
)
    requires
        nodes.dom().finite(),
    ensures
        ({
            let parts = state_parts(nodes, queue);
            &&& nodes.dom().contains(name) ==> parts.contains(node_text(name, nodes[name]))
            &&& 0 <= i < queue.len() ==> exists|first: u64|
                #![trigger message_text(queue[i], first)]
                {
                    &&& within(message_text(queue[i], first), parts.last())
                    &&& forall|k: int| 0 <= k < queue.len() ==> first <= (#[trigger] queue[k]).tick
                    &&& exists|k: int| 0 <= k < queue.len() && (#[trigger] queue[k]).tick == first
                }
            &&& signature(nodes, queue) == fingerprint(Vec::<String>::json(parts))
        }),
{
    let parts = state_parts(nodes, queue);
    let names = in_order::<String>(nodes.dom());
    crate::ordmap::lemma_in_order_exists::<String>(nodes.dom());
    if nodes.dom().contains(name) {
        assert(names.to_set().contains(name));
        let j = choose|j: int| 0 <= j < names.len() && names[j] == name;
        assert(parts[j] == node_text(name, nodes[name]));
    }
    if 0 <= i < queue.len() {
        crate::queue::law_due_is_earliest(queue);
        let first = base_tick(queue);
        let texts = queue.map_values(|m: ScheduledView| message_text(m, base_tick(queue)));
        let part = message_text(queue[i], first);
        assert(texts[i] == part);
        lemma_sorted_has(texts, part);
        lemma_join_within(sorted(texts), ";"@, part);
        let joined = join(sorted(texts), ";"@);
        lemma_within(part, "queue="@, joined, Seq::empty());
        assert(parts.last() =~= "queue="@ + joined + Seq::<char>::empty());
        assert(queue[crate::queue::due(queue)].tick == first);
    }
}

pub proof fn lemma_apart(a: Chars, b: Chars, t: Chars)
    requires
        a != b,
    ensures
        a + t != b + t,
        t + a != t + b,
{
    if a + t == b + t {
        assert((a + t).len() == (b + t).len());
        assert(a =~= (a + t).take(a.len() as int));
        assert(b =~= (b + t).take(b.len() as int));
    }
    if t + a == t + b {
        assert(a =~= (t + a).skip(t.len() as int));
        assert(b =~= (t + b).skip(t.len() as int));
    }
}

proof fn lemma_apart_through(a: Chars, b: Chars, x: Chars, y: Chars)
    requires
        a != b,
    ensures
        a + x + y != b + x + y,
{
    lemma_apart(a, b, x);
    lemma_apart(a + x, b + x, y);
}

/// Messages that differ in one thing are signed differently: in how long they wait, in what
/// they ask for, in their node, session, prefix or route, as far as these are written
/// differently.
pub proof fn law_messages_are_signed_apart(a: ScheduledView, b: ScheduledView, first: u64)
    requires
        first <= a.tick,
        first <= b.tick,
    ensures
        b == (ScheduledView { tick: b.tick, ..a }) && a.tick != b.tick ==> message_text(a, first)
            != message_text(b, first),
        b == (ScheduledView { kind: b.kind, ..a }) && a.kind != b.kind ==> message_text(a, first)
            != message_text(b, first),
        b == (ScheduledView { node: b.node, ..a }) && a.node != b.node ==> message_text(a, first)
            != message_text(b, first),
        (b == (ScheduledView { session: b.session, ..a }) && a.session is Some && b.session
            is Some && a.session != b.session) ==> message_text(a, first) != message_text(b, first),
        (b == (ScheduledView { prefix: b.prefix, ..a }) && a.prefix is Some && b.prefix is Some
            && a.prefix != b.prefix) ==> message_text(a, first) != message_text(b, first),
        (b == (ScheduledView { route: b.route, ..a }) && a.route is Some && b.route is Some
            && route_text(a.route->0) != route_text(b.route->0)) ==> message_text(a, first)
            != message_text(b, first),
{
    let c = ":"@;
    let (ta, tb) = (decimal(a.tick - first), decimal(b.tick - first));
    let (ka, kb) = (decimal(a.kind.order() as int), decimal(b.kind.order() as int));
    let (sa, sb) = (optional_text(a.session), optional_text(b.session));
    let (pa, pb) = (optional_text(a.prefix), optional_text(b.prefix));
    let ra = match a.route {
        Some(r) => route_text(r),
        None => Seq::empty(),
    };
    let rb = match b.route {
        Some(r) => route_text(r),
        None => Seq::empty(),
    };
    crate::text::law_decimal_reads_back(a.tick - first, b.tick - first);
    crate::text::law_decimal_reads_back(a.kind.order() as int, b.kind.order() as int);
    let (a1, b1) = (ta + c + ka, tb + c + kb);
    let (a2, b2) = (a1 + c + a.node, b1 + c + b.node);
    let (a3, b3) = (a2 + c + sa, b2 + c + sb);
    let (a4, b4) = (a3 + c + pa, b3 + c + pb);
    if ta != tb && ka == kb {
        lemma_apart_through(ta, tb, c, ka);
    }
    if ta == tb && ka != kb {
        lemma_apart(ka, kb, ta + c);
    }
    if a1 != b1 && a.node == b.node {
        lemma_apart_through(a1, b1, c, a.node);
    }
    if a1 == b1 && a.node != b.node {
        lemma_apart(a.node, b.node, a1 + c);
    }
    if a2 != b2 && sa == sb {
        lemma_apart_through(a2, b2, c, sa);
    }
    if a2 == b2 && sa != sb {
        lemma_apart(sa, sb, a2 + c);
    }
    if a3 != b3 && pa == pb {
        lemma_apart_through(a3, b3, c, pa);
    }
    if a3 == b3 && pa != pb {
        lemma_apart(pa, pb, a3 + c);
    }
    if a4 != b4 && ra == rb {
        lemma_apart_through(a4, b4, c, ra);
    }
    if a4 == b4 && ra != rb {
        lemma_apart(ra, rb, a4 + c);
    }
    assert(message_text(a, first) == a4 + c + ra);
    assert(message_text(b, first) == b4 + c + rb);
}

} // verus!
